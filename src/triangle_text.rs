//! Reading number triangles written as text: one row per line, the numbers
//! of a row apart by a separator.

use vstd::prelude::*;

verus! {

use vstd::string::StringSliceAdditionalSpecFns;

/// `sep` occurs in `s` at `i`.
pub open spec fn occurs_at(s: Seq<u8>, sep: Seq<u8>, i: int) -> bool {
    0 <= i && i + sep.len() <= s.len() && s.subrange(i, i + sep.len()) == sep
}

/// The first place at or after `from` where `sep` occurs in `s`, or
/// `s.len()` when it occurs nowhere there.
pub open spec fn first_occurrence(s: Seq<u8>, sep: Seq<u8>, from: int) -> int
    decreases s.len() - from,
{
    if from < 0 || from >= s.len() || from + sep.len() > s.len() {
        s.len() as int
    } else if occurs_at(s, sep, from) {
        from
    } else {
        first_occurrence(s, sep, from + 1)
    }
}

/// The pieces of `s` from `start` on between the occurrences of `sep`
/// (which must not be empty), as `str::split` gives them.
pub open spec fn split_from(s: Seq<u8>, sep: Seq<u8>, start: int) -> Seq<Seq<u8>>
    decreases s.len() - start,
{
    let i = first_occurrence(s, sep, start);
    if sep.len() == 0 || start < 0 || start > s.len() || i >= s.len() || i < start || i + sep.len() > s.len() {
        seq![s.subrange(start, s.len() as int)]
    } else {
        seq![s.subrange(start, i)].add(split_from(s, sep, i + sep.len()))
    }
}

/// Each byte of `f` is an ASCII decimal digit.
pub open spec fn all_digits(f: Seq<u8>) -> bool {
    forall|i: int| 0 <= i < f.len() ==> 48 <= #[trigger] f[i] <= 57
}

/// The number that the ASCII digits of `f` write.
pub open spec fn digits_number(f: Seq<u8>) -> nat
    decreases f.len(),
{
    if f.len() == 0 {
        0
    } else {
        digits_number(f.drop_last()) * 10 + (f.last() - 48) as nat
    }
}

/// The digits of a field, after an optional leading `+`.
pub open spec fn field_digits(f: Seq<u8>) -> Seq<u8> {
    if f.len() >= 1 && f[0] == 43 {
        f.drop_first()
    } else {
        f
    }
}

/// `f` is a `u64` as `str::parse` reads one: an optional `+`, at least one
/// digit, and a value that fits.
pub open spec fn is_u64_field(f: Seq<u8>) -> bool {
    let d = field_digits(f);
    d.len() >= 1 && all_digits(d) && digits_number(d) <= u64::MAX
}

/// The numbers of a line, when each piece between the separators is one.
pub open spec fn parses_to(s: Seq<u8>, sep: Seq<u8>, v: Seq<u64>) -> bool {
    let fields = split_from(s, sep, 0);
    &&& v.len() == fields.len()
    &&& forall|i: int| 0 <= i < v.len() ==> is_u64_field(#[trigger] fields[i]) && v[i] == digits_number(
        field_digits(fields[i]),
    )
}

/// Some piece of the line is not a number.
pub open spec fn has_bad_field(s: Seq<u8>, sep: Seq<u8>) -> bool {
    exists|i: int| 0 <= i < split_from(s, sep, 0).len() && !is_u64_field(#[trigger] split_from(s, sep, 0)[i])
}

/// Whether `sep` occurs in `s` at `i`.
fn occurs(s: &[u8], sep: &[u8], i: usize) -> (r: bool)
    requires
        i + sep@.len() <= s@.len(),
    ensures
        r == occurs_at(s@, sep@, i as int),
{
    let n = s.len();
    let mut k: usize = 0;
    while k < sep.len()
        invariant
            k <= sep@.len(),
            n == s@.len(),
            i + sep@.len() <= s@.len(),
            forall|j: int| 0 <= j < k ==> s@[i + j] == sep@[j],
        decreases sep@.len() - k,
    {
        if s[i + k] != sep[k] {
            proof {
                assert(s@.subrange(i as int, i + sep@.len())[k as int] != sep@[k as int]);
            }
            return false;
        }
        k = k + 1;
    }
    assert(s@.subrange(i as int, i + sep@.len()) =~= sep@);
    true
}

/// The first place at or after `from` where `sep` occurs in `s`, or
/// `s.len()`.
pub(crate) fn find_from(s: &[u8], sep: &[u8], from: usize) -> (r: usize)
    requires
        from <= s@.len(),
        sep@.len() >= 1,
    ensures
        r == first_occurrence(s@, sep@, from as int),
{
    let n = s.len();
    let mut j: usize = from;
    while j < n && sep.len() <= n - j
        invariant
            from <= j,
            n == s@.len(),
            sep@.len() >= 1,
            first_occurrence(s@, sep@, from as int) == first_occurrence(s@, sep@, j as int),
        decreases s@.len() + 1 - j,
    {
        if occurs(s, sep, j) {
            return j;
        }
        j = j + 1;
    }
    s.len()
}

proof fn lemma_digits_number_prefix(f: Seq<u8>, i: int)
    requires
        0 <= i <= f.len(),
    ensures
        digits_number(f.take(i)) <= digits_number(f),
    decreases f.len() - i,
{
    if i < f.len() {
        lemma_digits_number_prefix(f, i + 1);
        assert(f.take(i + 1).drop_last() =~= f.take(i));
    } else {
        assert(f.take(i) =~= f);
    }
}

/// The `u64` that `s[start..end]` writes, as `str::parse` reads it.
fn parse_field(s: &[u8], start: usize, end: usize) -> (r: Option<u64>)
    requires
        start <= end <= s@.len(),
    ensures
        is_u64_field(s@.subrange(start as int, end as int)) ==> r == Some(
            digits_number(field_digits(s@.subrange(start as int, end as int))) as u64,
        ),
        !is_u64_field(s@.subrange(start as int, end as int)) ==> r is None,
{
    let ghost f = s@.subrange(start as int, end as int);
    let mut i = start;
    if i < end && s[i] == 43 {
        i = i + 1;
    }
    let ghost d = field_digits(f);
    assert(d =~= s@.subrange(i as int, end as int));
    if i == end {
        return None;
    }
    let first = i;
    let mut value: u64 = 0;
    while i < end
        invariant
            first <= i <= end <= s@.len(),
            f == s@.subrange(start as int, end as int),
            d == field_digits(f),
            d =~= s@.subrange(first as int, end as int),
            d.len() >= 1,
            all_digits(d.take(i - first)),
            value == digits_number(d.take(i - first)),
        decreases end - i,
    {
        let b = s[i];
        proof {
            assert(d[i - first] == b);
            assert(d.take(i - first + 1).drop_last() =~= d.take(i - first));
        }
        if b < 48 || b > 57 {
            proof {
                assert(!(48 <= d[i - first] <= 57));
            }
            return None;
        }
        proof {
            lemma_digits_number_prefix(d, i - first + 1);
        }
        let digit = (b - 48) as u64;
        proof {
            assert(d.take(i - first + 1).last() == b);
            assert(digits_number(d.take(i - first + 1)) == value * 10 + digit);
        }
        value = match value.checked_mul(10) {
            Some(v) => match v.checked_add(digit) {
                Some(w) => w,
                None => return None,
            },
            None => return None,
        };
        proof {
            assert forall|j: int| 0 <= j < i + 1 - first implies 48 <= #[trigger] d.take(i + 1 - first)[j] <= 57 by {
                if j < i - first {
                    assert(d.take(i - first)[j] == d[j]);
                }
            }
        }
        i = i + 1;
    }
    assert(d.take(end - first) =~= d);
    Some(value)
}

/// The numbers of `line` between the occurrences of `separator`; `None`
/// when some piece is not a `u64`.
pub fn line_to_nums(line: &str, separator: &str) -> (r: Option<Vec<u64>>)
    requires
        separator.spec_bytes().len() >= 1,
    ensures
        r matches Some(v) ==> parses_to(line.spec_bytes(), separator.spec_bytes(), v@),
        r is None <==> has_bad_field(line.spec_bytes(), separator.spec_bytes()),
{
    nums_in_bytes(line.as_bytes(), separator.as_bytes())
}

/// The numbers of the bytes `s` between the occurrences of `sep`; `None`
/// when some piece is not a `u64`.
fn nums_in_bytes(s: &[u8], sep: &[u8]) -> (r: Option<Vec<u64>>)
    requires
        sep@.len() >= 1,
    ensures
        r matches Some(v) ==> parses_to(s@, sep@, v@),
        r is None <==> has_bad_field(s@, sep@),
{
    let ghost fields = split_from(s@, sep@, 0);
    let mut nums: Vec<u64> = Vec::new();
    let mut start: usize = 0;
    loop
        invariant
            sep@.len() >= 1,
            start <= s@.len(),
            fields == split_from(s@, sep@, 0),
            fields =~= fields.take(nums@.len() as int).add(split_from(s@, sep@, start as int)),
            nums@.len() < fields.len(),
            forall|i: int| 0 <= i < nums@.len() ==> is_u64_field(#[trigger] fields[i]) && nums@[i] == digits_number(
                field_digits(fields[i]),
            ),
        decreases s@.len() + 1 - start,
    {
        let end = find_from(s, sep, start);
        let ghost rest = split_from(s@, sep@, start as int);
        proof {
            lemma_first_occurrence_found(s@, sep@, start as int);
            assert(rest[0] == s@.subrange(start as int, end as int));
            assert(fields[nums@.len() as int] == rest[0]);
        }
        match parse_field(s, start, end) {
            Some(n) => {
                nums.push(n);
            },
            None => {
                proof {
                    assert(!is_u64_field(fields[(nums@.len() - 0) as int]));
                }
                return None;
            },
        }
        if end == s.len() {
            proof {
                assert(rest.len() == 1);
                assert(nums@.len() == fields.len());
                assert(!has_bad_field(s@, sep@));
            }
            return Some(nums);
        }
        proof {
            assert(rest =~= seq![rest[0]].add(split_from(s@, sep@, end + sep@.len())));
            assert(fields =~= fields.take(nums@.len() as int).add(split_from(s@, sep@, end + sep@.len())));
        }
        start = end + sep.len();
    }
}

/// A copy of `s[start..end]`.
pub(crate) fn copy_range(s: &[u8], start: usize, end: usize) -> (r: Vec<u8>)
    requires
        start <= end <= s@.len(),
    ensures
        r@ == s@.subrange(start as int, end as int),
{
    let mut r: Vec<u8> = Vec::new();
    let mut i = start;
    while i < end
        invariant
            start <= i <= end <= s@.len(),
            r@ =~= s@.subrange(start as int, i as int),
        decreases end - i,
    {
        r.push(s[i]);
        i = i + 1;
    }
    r
}

/// The lines of a text as `str::lines` gives them: the pieces between line
/// feeds, without a last empty one, each without a final carriage return.
pub open spec fn text_lines(s: Seq<u8>) -> Seq<Seq<u8>> {
    let pieces = split_from(s, seq![10u8], 0);
    let kept = if pieces.len() >= 1 && pieces.last().len() == 0 {
        pieces.drop_last()
    } else {
        pieces
    };
    kept.map_values(|p: Seq<u8>| strip_carriage_return(p))
}

/// `p` without a final carriage return.
pub open spec fn strip_carriage_return(p: Seq<u8>) -> Seq<u8> {
    if p.len() >= 1 && p.last() == 13 {
        p.drop_last()
    } else {
        p
    }
}

/// Each row is read from the line at its index.
pub open spec fn rows_parse_to(lines: Seq<Seq<u8>>, sep: Seq<u8>, rows: Seq<Vec<u64>>) -> bool {
    &&& rows.len() == lines.len()
    &&& forall|i: int| 0 <= i < rows.len() ==> parses_to(#[trigger] lines[i], sep, rows[i]@)
}

/// Some line has a piece that is not a number.
pub open spec fn some_line_bad(lines: Seq<Seq<u8>>, sep: Seq<u8>) -> bool {
    exists|i: int| 0 <= i < lines.len() && has_bad_field(#[trigger] lines[i], sep)
}

/// The rows of a triangle, one per string, its numbers apart by `", "`.
pub fn parse_triangle_strings(triangle_strings: &[&str]) -> (r: Option<Vec<Vec<u64>>>)
    ensures
        r matches Some(rows) ==> rows_parse_to(
            triangle_strings@.map_values(|t: &str| t.spec_bytes()),
            seq![44u8, 32u8],
            rows@,
        ),
        r is None <==> some_line_bad(triangle_strings@.map_values(|t: &str| t.spec_bytes()), seq![44u8, 32u8]),
{
    let ghost lines = triangle_strings@.map_values(|t: &str| t.spec_bytes());
    let mut sep: Vec<u8> = Vec::new();
    sep.push(44);
    sep.push(32);
    assert(sep@ =~= seq![44u8, 32u8]);
    let mut rows: Vec<Vec<u64>> = Vec::new();
    let mut i: usize = 0;
    while i < triangle_strings.len()
        invariant
            i <= triangle_strings@.len(),
            sep@ == seq![44u8, 32u8],
            lines == triangle_strings@.map_values(|t: &str| t.spec_bytes()),
            rows@.len() == i,
            forall|k: int| 0 <= k < i ==> parses_to(#[trigger] lines[k], sep@, rows@[k]@),
            forall|k: int| 0 <= k < i ==> !has_bad_field(#[trigger] lines[k], sep@),
        decreases triangle_strings@.len() - i,
    {
        let line: &str = triangle_strings[i];
        assert(lines[i as int] == line.spec_bytes());
        match nums_in_bytes(line.as_bytes(), sep.as_slice()) {
            Some(nums) => rows.push(nums),
            None => return None,
        }
        i = i + 1;
    }
    Some(rows)
}

/// The rows of a triangle written one per line, its numbers apart by single
/// spaces.
pub fn parse_triangle_string(triangle_string: &str) -> (r: Option<Vec<Vec<u64>>>)
    ensures
        r matches Some(rows) ==> rows_parse_to(text_lines(triangle_string.spec_bytes()), seq![32u8], rows@),
        r is None <==> some_line_bad(text_lines(triangle_string.spec_bytes()), seq![32u8]),
{
    let s = triangle_string.as_bytes();
    let ghost pieces = split_from(s@, seq![10u8], 0);
    let ghost lines = text_lines(s@);
    let mut newline: Vec<u8> = Vec::new();
    newline.push(10);
    let mut space: Vec<u8> = Vec::new();
    space.push(32);
    assert(newline@ =~= seq![10u8]);
    assert(space@ =~= seq![32u8]);
    let mut rows: Vec<Vec<u64>> = Vec::new();
    let mut start: usize = 0;
    let ghost mut count: int = 0;
    loop
        invariant
            start <= s@.len(),
            s@ == triangle_string.spec_bytes(),
            newline@ == seq![10u8],
            space@ == seq![32u8],
            pieces == split_from(s@, seq![10u8], 0),
            lines == text_lines(s@),
            0 <= count < pieces.len(),
            rows@.len() == count,
            pieces =~= pieces.take(count).add(split_from(s@, seq![10u8], start as int)),
            forall|k: int| 0 <= k < count ==> parses_to(#[trigger] lines[k], seq![32u8], rows@[k]@),
            forall|k: int| 0 <= k < count ==> !has_bad_field(#[trigger] lines[k], seq![32u8]),
            forall|k: int| 0 <= k < count ==> lines[k] == strip_carriage_return(#[trigger] pieces[k]),
        decreases s@.len() + 1 - start,
    {
        let end = find_from(s, newline.as_slice(), start);
        let ghost rest = split_from(s@, seq![10u8], start as int);
        proof {
            lemma_first_occurrence_found(s@, seq![10u8], start as int);
            assert(rest[0] == s@.subrange(start as int, end as int));
            assert(pieces[count] == rest[0]);
        }
        if end == s.len() && start == end {
            // a last empty piece is no line
            proof {
                assert(pieces.len() == count + 1);
                assert(pieces.last().len() == 0);
                assert(lines.len() == count);
                assert(pieces.drop_last().map_values(|p: Seq<u8>| strip_carriage_return(p)) == lines);
                assert(rows_parse_to(lines, seq![32u8], rows@));
                assert(!some_line_bad(lines, seq![32u8]));
            }
            return Some(rows);
        }
        let mut line_end = end;
        if line_end > start && s[line_end - 1] == 13 {
            line_end = line_end - 1;
        }
        let line = copy_range(s, start, line_end);
        proof {
            assert(line@ == strip_carriage_return(pieces[count]));
            if end == s.len() {
                assert(rest.len() == 1);
                assert(pieces.len() == count + 1);
            } else {
                assert(rest =~= seq![rest[0]].add(split_from(s@, seq![10u8], end + 1)));
                assert(pieces.len() > count + 1) by {
                    assert(pieces =~= pieces.take(count).add(seq![rest[0]]).add(split_from(s@, seq![10u8], end + 1)));
                }
            }
            assert(lines[count] == line@);
        }
        let ghost before = rows@;
        match nums_in_bytes(line.as_slice(), space.as_slice()) {
            Some(nums) => rows.push(nums),
            None => {
                proof {
                    assert(has_bad_field(lines[count], seq![32u8]));
                    assert(some_line_bad(lines, seq![32u8]));
                }
                return None;
            },
        }
        proof {
            assert(parses_to(lines[count], seq![32u8], rows@[count]@));
            assert(!has_bad_field(lines[count], seq![32u8])) by {
                if has_bad_field(lines[count], seq![32u8]) {
                    let j = choose|j: int| 0 <= j < split_from(lines[count], seq![32u8], 0).len() && !is_u64_field(
                        #[trigger] split_from(lines[count], seq![32u8], 0)[j],
                    );
                    assert(is_u64_field(split_from(lines[count], seq![32u8], 0)[j]));
                }
            }
            assert forall|k: int| 0 <= k < count + 1 implies parses_to(#[trigger] lines[k], seq![32u8], rows@[k]@) by {
                if k < count {
                    assert(rows@[k] == before[k]);
                }
            }
        }
        if end == s.len() {
            proof {
                assert(pieces.len() == count + 1);
                assert(pieces.last().len() != 0);
                assert(lines.len() == count + 1);
                assert(rows_parse_to(lines, seq![32u8], rows@));
                assert(!some_line_bad(lines, seq![32u8]));
            }
            return Some(rows);
        }
        proof {
            assert(pieces =~= pieces.take(count + 1).add(split_from(s@, seq![10u8], end + 1)));
            assert(lines[count] == strip_carriage_return(pieces[count]));
            count = count + 1;
        }
        start = end + 1;
    }
}

pub proof fn lemma_first_occurrence_found(s: Seq<u8>, sep: Seq<u8>, from: int)
    requires
        0 <= from,
    ensures
        first_occurrence(s, sep, from) == s.len() || (occurs_at(s, sep, first_occurrence(s, sep, from))
            && from <= first_occurrence(s, sep, from) <= s.len() - sep.len()),
    decreases s.len() - from,
{
    if from < s.len() && from + sep.len() <= s.len() && !occurs_at(s, sep, from) {
        lemma_first_occurrence_found(s, sep, from + 1);
    }
}

} // verus!
