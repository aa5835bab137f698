//! Classification and case of characters.
//!
//! The answers come from the standard library, which follows the Unicode
//! character database. For the 128 characters of ASCII they are written out
//! here; beyond ASCII each answer has a name and nothing more is known of it.

use vstd::prelude::*;

verus! {

/// Whether `c` is one of the 128 characters of ASCII.
pub open spec fn is_ascii(c: char) -> bool {
    c <= '\u{7f}'
}

/// Whether `c` is one of the capital letters `A` to `Z`.
pub open spec fn is_ascii_capital(c: char) -> bool {
    'A' <= c && c <= 'Z'
}

/// Whether `c` is one of the small letters `a` to `z`.
pub open spec fn is_ascii_small(c: char) -> bool {
    'a' <= c && c <= 'z'
}

/// Whether `c` is a letter of ASCII.
pub open spec fn is_ascii_letter(c: char) -> bool {
    is_ascii_capital(c) || is_ascii_small(c)
}

/// The small letter of a capital letter of ASCII; any other character itself.
pub open spec fn ascii_small_of(c: char) -> char {
    if is_ascii_capital(c) {
        (c as int + 32) as char
    } else {
        c
    }
}

/// The capital letter of a small letter of ASCII; any other character itself.
pub open spec fn ascii_capital_of(c: char) -> char {
    if is_ascii_small(c) {
        (c as int - 32) as char
    } else {
        c
    }
}

/// Whether a character beyond ASCII has the Unicode property `Alphabetic`.
pub uninterp spec fn unicode_alphabetic(c: char) -> bool;

/// Whether a character beyond ASCII has the Unicode property `Uppercase`.
pub uninterp spec fn unicode_uppercase(c: char) -> bool;

/// The lowercase mapping of a character beyond ASCII.
pub uninterp spec fn unicode_lowercase_mapping(c: char) -> Seq<char>;

/// The uppercase mapping of a character beyond ASCII.
pub uninterp spec fn unicode_uppercase_mapping(c: char) -> Seq<char>;

/// Whether `c` is alphabetic: a letter, within ASCII.
pub open spec fn alphabetic(c: char) -> bool {
    if is_ascii(c) {
        is_ascii_letter(c)
    } else {
        unicode_alphabetic(c)
    }
}

/// Whether `c` is an uppercase character: a capital letter, within ASCII.
pub open spec fn uppercase(c: char) -> bool {
    if is_ascii(c) {
        is_ascii_capital(c)
    } else {
        unicode_uppercase(c)
    }
}

/// The characters that `c` becomes in lowercase.
pub open spec fn lowercase_of(c: char) -> Seq<char> {
    if is_ascii(c) {
        seq![ascii_small_of(c)]
    } else {
        unicode_lowercase_mapping(c)
    }
}

/// The characters that `c` becomes in uppercase.
pub open spec fn uppercase_of(c: char) -> Seq<char> {
    if is_ascii(c) {
        seq![ascii_capital_of(c)]
    } else {
        unicode_uppercase_mapping(c)
    }
}

/// `char::is_alphabetic` of the standard library answers whether the
/// character has the Unicode property `Alphabetic`. Within ASCII those are the
/// letters `A` to `Z` and `a` to `z`; beyond ASCII the answer is only named.
pub assume_specification[ char::is_alphabetic ](c: char) -> (r: bool)
    ensures
        r == (if is_ascii(c) {
            is_ascii_letter(c)
        } else {
            unicode_alphabetic(c)
        }),
;

/// `char::is_uppercase` of the standard library answers whether the character
/// has the Unicode property `Uppercase`. Within ASCII those are the letters
/// `A` to `Z`; beyond ASCII the answer is only named.
pub assume_specification[ char::is_uppercase ](c: char) -> (r: bool)
    ensures
        r == (if is_ascii(c) {
            is_ascii_capital(c)
        } else {
            unicode_uppercase(c)
        }),
;

/// `char::to_lowercase` of the standard library yields the lowercase mapping
/// of the character, one character or more, here collected in order. A capital
/// letter of ASCII maps to its small letter, every other character of ASCII to
/// itself; beyond ASCII the mapping is only named.
#[verifier::external_body]
pub(crate) fn to_lowercase(c: char) -> (r: Vec<char>)
    ensures
        r@ == (if is_ascii(c) {
            seq![ascii_small_of(c)]
        } else {
            unicode_lowercase_mapping(c)
        }),
{
    c.to_lowercase().collect()
}

/// `char::to_uppercase` of the standard library yields the uppercase mapping
/// of the character, one character or more, here collected in order. A small
/// letter of ASCII maps to its capital letter, every other character of ASCII
/// to itself; beyond ASCII the mapping is only named.
#[verifier::external_body]
pub(crate) fn to_uppercase(c: char) -> (r: Vec<char>)
    ensures
        r@ == (if is_ascii(c) {
            seq![ascii_capital_of(c)]
        } else {
            unicode_uppercase_mapping(c)
        }),
{
    c.to_uppercase().collect()
}

/// Counts the alphabetic characters of `text`.
pub fn count_alphabetic(text: &[char]) -> (n: usize)
    ensures
        n == alphabetic_count(text@),
{
    let mut n: usize = 0;
    let mut i: usize = 0;
    while i < text.len()
        invariant
            i <= text.len(),
            n == alphabetic_count(text@.take(i as int)),
            n <= i,
        decreases text.len() - i,
    {
        assert(text@.take(i + 1).drop_last() == text@.take(i as int));
        if text[i].is_alphabetic() {
            n = n + 1;
        }
        i = i + 1;
    }
    assert(text@.take(i as int) == text@);
    n
}

/// The number of alphabetic characters in `text`.
pub open spec fn alphabetic_count(text: Seq<char>) -> nat
    decreases text.len(),
{
    if text.len() == 0 {
        0
    } else {
        alphabetic_count(text.drop_last()) + if alphabetic(text.last()) {
            1nat
        } else {
            0nat
        }
    }
}

} // verus!
