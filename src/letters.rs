//! Counting the letters of a text, as for numbers written out in words.

use vstd::prelude::*;

verus! {

use vstd::std_specs::iter::IteratorSpec;
use vstd::string::StringSliceAdditionalSpecFns;

/// Whether a character is alphabetic in Unicode's sense.
pub uninterp spec fn alphabetic(c: char) -> bool;

/// Relies on `char::is_alphabetic`: the Unicode `Alphabetic` property, which
/// every ASCII letter has and no ASCII digit, space or hyphen has.
#[verifier::external_body]
fn char_is_alphabetic(c: char) -> (r: bool)
    ensures
        r == alphabetic(c),
        ('a' <= c <= 'z' || 'A' <= c <= 'Z') ==> r,
        ('0' <= c <= '9' || c == ' ' || c == '-') ==> !r,
{
    c.is_alphabetic()
}

/// A text has no more characters than bytes.
proof fn lemma_chars_within_bytes(chars: Seq<char>)
    ensures
        chars.len() <= vstd::utf8::encode_utf8(chars).len(),
    decreases chars.len(),
{
    if chars.len() > 0 {
        lemma_chars_within_bytes(chars.drop_first());
        assert(vstd::utf8::encode_scalar(chars[0] as u32).len() >= 1);
    }
}

/// How many characters of `s` are alphabetic.
pub open spec fn letter_count(s: Seq<char>) -> nat
    decreases s.len(),
{
    if s.len() == 0 {
        0
    } else {
        letter_count(s.drop_last()) + if alphabetic(s.last()) {
            1nat
        } else {
            0
        }
    }
}

/// The number of alphabetic characters of `word`.
pub fn count_letters(word: &str) -> (r: usize)
    ensures
        r == letter_count(word@),
{
    broadcast use vstd::string::group_string_axioms;
    let bytes = word.as_bytes().len();
    proof {
        lemma_chars_within_bytes(word@);
        assert(word.spec_bytes() == vstd::utf8::encode_utf8(word@));
    }
    let mut chars = word.chars();
    let ghost mut seen: Seq<char> = Seq::empty();
    let mut count: usize = 0;
    loop
        invariant
            seen.add(chars.remaining()) == word@,
            chars.obeys_prophetic_iter_laws(),
            chars.decrease() is Some,
            count == letter_count(seen),
            count <= seen.len(),
            seen.len() <= word@.len(),
            word@.len() <= bytes,
        ensures
            count == letter_count(word@),
        decreases chars.decrease()->0,
    {
        let ghost before = chars.remaining();
        match chars.next() {
            Some(c) => {
                proof {
                    assert(seen.push(c).drop_last() =~= seen);
                    assert(seen.push(c).add(chars.remaining()) =~= word@);
                    seen = seen.push(c);
                }
                if char_is_alphabetic(c) {
                    count = count + 1;
                }
            },
            None => {
                proof {
                    assert(before.len() == 0);
                    assert(seen =~= word@);
                }
                break;
            },
        }
    }
    count
}

} // verus!
