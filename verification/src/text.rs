//! Character classes and string primitives shared by the store and the
//! expander: word characters, string equality, and conversion of a string
//! slice to its character sequence.

use vstd::prelude::*;

verus! {

/// An ASCII word character: a letter, digit, or underscore.
pub open spec fn is_ascii_word_char(c: char) -> bool {
    ||| ('a' as u32) <= (c as u32) <= ('z' as u32)
    ||| ('A' as u32) <= (c as u32) <= ('Z' as u32)
    ||| ('0' as u32) <= (c as u32) <= ('9' as u32)
    ||| c == '_'
}

/// The word characters beyond ASCII: the regex crate's Unicode `\w`
/// class on code points of 128 and above.  Named, not written out: the
/// class is Unicode table data.
pub uninterp spec fn unicode_word_char(c: char) -> bool;

/// A word character, as the `\w` of the key and token grammar has it:
/// on ASCII exactly a letter, digit or underscore, beyond ASCII the
/// Unicode word class.  Keys of the store and the identifier inside a
/// bracketed token are made of these.
pub open spec fn is_word_char(c: char) -> bool {
    is_ascii_word_char(c) || ((c as u32) >= 128 && unicode_word_char(c))
}

/// Every character of `s` is a word character.
pub open spec fn is_word_seq(s: Seq<char>) -> bool {
    forall|i: int| 0 <= i < s.len() ==> is_word_char(#[trigger] s[i])
}

/// A valid shortcut key: nonempty and made of word characters only.
pub open spec fn valid_key(s: Seq<char>) -> bool {
    s.len() > 0 && is_word_seq(s)
}

/// Decides whether `c` is a word character.
///
/// Relies on `regex::Regex::new` and `Regex::is_match`: on a
/// single-character string, `\w` matches exactly when that character is
/// in the Unicode word class, whose ASCII part is the letters, the
/// digits and the underscore.
#[verifier::external_body]
pub(crate) fn word_char(c: char) -> (r: bool)
    ensures
        r == (is_ascii_word_char(c) || ((c as u32) >= 128 && unicode_word_char(c))),
{
    let mut buf = [0u8; 4];
    regex::Regex::new(r"\w").unwrap().is_match(c.encode_utf8(&mut buf))
}

/// Decides whether every character of `s` is a word character.
pub fn is_word_str(s: &str) -> (r: bool)
    ensures
        r == is_word_seq(s@),
{
    let n = s.unicode_len();
    let mut i: usize = 0;
    while i < n
        invariant
            0 <= i <= n,
            n == s@.len(),
            forall|j: int| 0 <= j < i ==> is_word_char(#[trigger] s@[j]),
        decreases n - i,
    {
        if !word_char(s.get_char(i)) {
            return false;
        }
        i += 1;
    }
    true
}

/// Decides whether `s` is a valid shortcut key.
pub fn is_valid_key(s: &str) -> (r: bool)
    ensures
        r == valid_key(s@),
{
    if s.unicode_len() == 0 {
        false
    } else {
        is_word_str(s)
    }
}

/// Decides equality of two string slices at the character level.
pub fn str_eq(a: &str, b: &str) -> (r: bool)
    ensures
        r == (a@ == b@),
{
    let na = a.unicode_len();
    let nb = b.unicode_len();
    if na != nb {
        return false;
    }
    let mut i: usize = 0;
    while i < na
        invariant
            0 <= i <= na,
            na == a@.len(),
            na == b@.len(),
            forall|j: int| 0 <= j < i ==> a@[j] == b@[j],
        decreases na - i,
    {
        if a.get_char(i) != b.get_char(i) {
            return false;
        }
        i += 1;
    }
    proof {
        assert(a@ =~= b@);
    }
    true
}

} // verus!
