//! Name scores: the alphabetical value of a name times its position in the
//! sorted list of names.

use vstd::prelude::*;

verus! {

use vstd::string::StringSliceAdditionalSpecFns;
use crate::triangle_text::{copy_range, find_from, lemma_first_occurrence_found, split_from};

/// The value of a letter: 1 for `A` or `a` up to 26 for `Z` or `z`; 0 for
/// anything else.
pub open spec fn letter_value(b: int) -> nat {
    if 97 <= b <= 122 {
        (b - 96) as nat
    } else if 65 <= b <= 90 {
        (b - 64) as nat
    } else {
        0
    }
}

/// The sum of the letter values of the bytes of `s`. The bytes of a
/// character outside ASCII are never letters, so this is also the sum over
/// the characters.
pub open spec fn word_value_spec(s: Seq<u8>) -> nat
    decreases s.len(),
{
    if s.len() == 0 {
        0
    } else {
        word_value_spec(s.drop_last()) + letter_value(s.last() as int)
    }
}

/// `a` comes before `b`, or equals it, in the byte-wise lexicographic order
/// of strings.
pub open spec fn lex_le(a: Seq<u8>, b: Seq<u8>) -> bool
    decreases a.len(),
{
    if a.len() == 0 {
        true
    } else if b.len() == 0 {
        false
    } else if a[0] != b[0] {
        a[0] < b[0]
    } else {
        lex_le(a.drop_first(), b.drop_first())
    }
}

/// The views of a list of byte strings.
pub open spec fn views(v: Seq<Vec<u8>>) -> Seq<Seq<u8>> {
    v.map_values(|x: Vec<u8>| x@)
}

/// `sorted` holds the strings of `names` in lexicographic order.
pub open spec fn is_sorted_names(sorted: Seq<Seq<u8>>, names: Seq<Seq<u8>>) -> bool {
    &&& sorted.to_multiset() == names.to_multiset()
    &&& forall|i: int, j: int| 0 <= i < j < sorted.len() ==> lex_le(#[trigger] sorted[i], #[trigger] sorted[j])
}

/// `p` without its first and last byte (the quotes around a name).
pub open spec fn unquote(p: Seq<u8>) -> Seq<u8> {
    p.subrange(1, p.len() - 1)
}

/// The total of the scores: position (from 1) times the value of the
/// unquoted name, over the names from `start` on.
pub open spec fn total_score(sorted: Seq<Seq<u8>>, start: int) -> nat
    decreases sorted.len() - start,
{
    if start < 0 || start >= sorted.len() {
        0
    } else {
        ((start + 1) * word_value_spec(unquote(sorted[start]))) as nat + total_score(sorted, start + 1)
    }
}

pub fn alphabetical_value(c: char) -> (r: u8)
    ensures
        r == letter_value(c as int),
{
    if 'a' <= c && c <= 'z' {
        return (c as u32 - 96) as u8;
    } else if 'A' <= c && c <= 'Z' {
        return (c as u32 - 64) as u8;
    }
    0
}

/// The letter value of the byte `b`.
fn byte_value(b: u8) -> (r: usize)
    ensures
        r == letter_value(b as int),
{
    if 97 <= b && b <= 122 {
        (b - 96) as usize
    } else if 65 <= b && b <= 90 {
        (b - 64) as usize
    } else {
        0
    }
}

proof fn lemma_word_value_bound(s: Seq<u8>)
    ensures
        word_value_spec(s) <= 26 * s.len(),
    decreases s.len(),
{
    if s.len() > 0 {
        lemma_word_value_bound(s.drop_last());
    }
}

/// The sum of the letter values of `word`.
fn bytes_value(word: &[u8]) -> (r: usize)
    requires
        word@.len() <= usize::MAX / 26,
    ensures
        r == word_value_spec(word@),
{
    let mut sum: usize = 0;
    let mut i: usize = 0;
    while i < word.len()
        invariant
            i <= word@.len(),
            word@.len() <= usize::MAX / 26,
            sum == word_value_spec(word@.take(i as int)),
        decreases word@.len() - i,
    {
        proof {
            assert(word@.take(i + 1).drop_last() =~= word@.take(i as int));
            lemma_word_value_bound(word@.take(i + 1));
        }
        sum = sum + byte_value(word[i]);
        i = i + 1;
    }
    assert(word@.take(word@.len() as int) =~= word@);
    sum
}

/// The sum of the letter values of `word`.
pub fn word_value(word: &str) -> (r: usize)
    requires
        word.spec_bytes().len() <= usize::MAX / 26,
    ensures
        r == word_value_spec(word.spec_bytes()),
{
    bytes_value(word.as_bytes())
}

/// `entry` without its first and last byte; `None` when it is shorter than
/// two bytes.
pub fn normalize(entry: &[u8]) -> (r: Option<Vec<u8>>)
    ensures
        entry@.len() >= 2 ==> (r is Some && r->0@ == unquote(entry@)),
        entry@.len() < 2 ==> r is None,
{
    if entry.len() < 2 {
        return None;
    }
    Some(copy_range(entry, 1, entry.len() - 1))
}

/// Relies on `slice::sort` with the `Ord` of `Vec<u8>` (lexicographic, as
/// the documentation of `Ord for Vec` states): the same strings, sorted.
#[verifier::external_body]
fn sort_names(names: &mut Vec<Vec<u8>>)
    ensures
        is_sorted_names(views(final(names)@), views(old(names)@)),
{
    names.sort();
}

/// The total of the name scores of the comma-separated names in `contents`,
/// each between quotes: sorted, each name scores its position (from 1)
/// times its alphabetical value. `None` when a piece is shorter than two
/// bytes, or a sum leaves the range of `usize`.
pub fn solve(contents: &str) -> (r: Option<usize>)
    ensures
        r matches Some(n) ==> exists|sorted: Seq<Seq<u8>>|
            is_sorted_names(sorted, split_from(contents.spec_bytes(), seq![44u8], 0)) && n == #[trigger] total_score(
                sorted,
                0,
            ),
{
    let s = contents.as_bytes();
    let mut comma: Vec<u8> = Vec::new();
    comma.push(44);
    assert(comma@ =~= seq![44u8]);
    let ghost pieces = split_from(s@, seq![44u8], 0);
    let mut names: Vec<Vec<u8>> = Vec::new();
    let mut start: usize = 0;
    loop
        invariant_except_break
            names@.len() < pieces.len(),
            pieces =~= views(names@).add(split_from(s@, seq![44u8], start as int)),
        invariant
            start <= s@.len(),
            comma@ == seq![44u8],
            pieces == split_from(s@, seq![44u8], 0),
        ensures
            pieces =~= views(names@),
        decreases s@.len() + 1 - start,
    {
        let end = find_from(s, comma.as_slice(), start);
        let ghost rest = split_from(s@, seq![44u8], start as int);
        proof {
            lemma_first_occurrence_found(s@, seq![44u8], start as int);
        }
        let piece = copy_range(s, start, end);
        let ghost before = names@;
        names.push(piece);
        proof {
            assert(views(names@) =~= views(before).push(piece@));
        }
        if end == s.len() {
            proof {
                assert(rest.len() == 1);
                assert(pieces =~= views(names@));
            }
            break;
        }
        proof {
            assert(rest =~= seq![rest[0]].add(split_from(s@, seq![44u8], end + 1)));
            assert(pieces.len() > names@.len()) by {
                assert(pieces =~= views(names@).add(split_from(s@, seq![44u8], end + 1)));
            }
            assert(pieces =~= views(names@).add(split_from(s@, seq![44u8], end + 1)));
        }
        start = end + 1;
    }
    let ghost unsorted = names@;
    sort_names(&mut names);
    let ghost sorted = views(names@);
    let mut total: usize = 0;
    let mut i: usize = names.len();
    while i > 0
        invariant
            i <= names@.len(),
            sorted == views(names@),
            total == total_score(sorted, i as int),
        decreases i,
    {
        i = i - 1;
        let name = match normalize(names[i].as_slice()) {
            Some(n) => n,
            None => return None,
        };
        if name.len() > usize::MAX / 26 {
            return None;
        }
        let value = bytes_value(name.as_slice());
        let score = match value.checked_mul(i + 1) {
            Some(sc) => sc,
            None => return None,
        };
        proof {
            assert(sorted[i as int] == names@[i as int]@);
            assert(score == (i + 1) * word_value_spec(unquote(sorted[i as int]))) by (nonlinear_arith)
                requires
                    score == value * (i + 1),
                    value == word_value_spec(unquote(sorted[i as int])),
            ;
        }
        total = match total.checked_add(score) {
            Some(t) => t,
            None => return None,
        };
    }
    proof {
        assert(is_sorted_names(sorted, pieces));
    }
    Some(total)
}

} // verus!
