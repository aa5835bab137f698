//! Sequences of characters: conversion from and to strings, search for a
//! pattern, and removal of a pattern.

use vstd::prelude::*;

verus! {

/// The characters of a string, in order.
pub fn chars_of(s: &str) -> (out: Vec<char>)
    ensures
        out@ == s@,
{
    let mut out: Vec<char> = Vec::new();
    for c in it: s.chars()
        invariant
            out@ == it.seq().take(it.index() as int),
            it.seq() == s@,
    {
        out.push(c);
    }
    out
}

/// `String::from_iter` of the standard library, on the characters of a
/// slice: the string that holds exactly those characters, in order.
#[verifier::external_body]
pub(crate) fn string_of(chars: &[char]) -> (s: String)
    ensures
        s@ == chars@,
{
    String::from_iter(chars.iter())
}

/// Whether `pattern` stands in `text` at position `at`.
pub open spec fn occurs_at(text: Seq<char>, pattern: Seq<char>, at: int) -> bool {
    0 <= at && at + pattern.len() <= text.len() && text.subrange(at, at + pattern.len())
        == pattern
}

/// The first position at or after `from` at which `pattern` stands in `text`.
pub open spec fn first_occurrence(text: Seq<char>, pattern: Seq<char>, from: int) -> Option<int>
    decreases text.len() - from + 1,
{
    if from < 0 || from + pattern.len() > text.len() {
        None
    } else if occurs_at(text, pattern, from) {
        Some(from)
    } else {
        first_occurrence(text, pattern, from + 1)
    }
}

/// Whether `pattern` stands somewhere in `text`.
pub open spec fn contains(text: Seq<char>, pattern: Seq<char>) -> bool {
    exists|at: int| occurs_at(text, pattern, at)
}

/// `text` from position `from` on, without the occurrences of `pattern` that
/// a single pass from left to right meets; an occurrence that is met is
/// skipped whole, and the pass goes on behind it. An empty pattern removes
/// nothing.
pub open spec fn without(text: Seq<char>, pattern: Seq<char>, from: int) -> Seq<char>
    decreases text.len() - from,
{
    if from < 0 || from >= text.len() {
        Seq::empty()
    } else if pattern.len() == 0 {
        text.subrange(from, text.len() as int)
    } else if occurs_at(text, pattern, from) {
        without(text, pattern, from + pattern.len())
    } else {
        seq![text[from]] + without(text, pattern, from + 1)
    }
}

/// What `first_occurrence` finds is an occurrence, and the first one.
pub proof fn lemma_first_occurrence(text: Seq<char>, pattern: Seq<char>, from: int)
    requires
        0 <= from,
    ensures
        match first_occurrence(text, pattern, from) {
            Some(at) => from <= at && occurs_at(text, pattern, at) && forall|j: int|
                from <= j < at ==> !occurs_at(text, pattern, j),
            None => forall|j: int| from <= j ==> !occurs_at(text, pattern, j),
        },
    decreases text.len() - from + 1,
{
    if from + pattern.len() > text.len() {
    } else if occurs_at(text, pattern, from) {
    } else {
        lemma_first_occurrence(text, pattern, from + 1);
    }
}

/// A pattern stands somewhere in a text exactly when a search from the start
/// finds it.
pub proof fn lemma_contains(text: Seq<char>, pattern: Seq<char>)
    ensures
        contains(text, pattern) <==> first_occurrence(text, pattern, 0) is Some,
{
    lemma_first_occurrence(text, pattern, 0);
}

/// Tests whether `pattern` stands in `text` at position `at`.
pub fn matches_at(text: &[char], pattern: &[char], at: usize) -> (r: bool)
    ensures
        r == occurs_at(text@, pattern@, at as int),
{
    if pattern.len() > text.len() || at > text.len() - pattern.len() {
        return false;
    }
    let mut i: usize = 0;
    while i < pattern.len()
        invariant
            at + pattern.len() <= text.len(),
            i <= pattern.len(),
            text@.subrange(at as int, at + i) == pattern@.take(i as int),
        decreases pattern.len() - i,
    {
        if text[at + i] != pattern[i] {
            assert(text@.subrange(at as int, at + pattern.len())[i as int] != pattern@[i as int]);
            return false;
        }
        assert(text@.subrange(at as int, at + i + 1) =~= text@.subrange(at as int, at + i).push(
            text@[at + i],
        ));
        assert(pattern@.take(i + 1) =~= pattern@.take(i as int).push(pattern@[i as int]));
        i = i + 1;
    }
    assert(pattern@.take(i as int) == pattern@);
    true
}

/// Finds the first position at or after `from` at which `pattern` stands in
/// `text`.
pub fn find(text: &[char], pattern: &[char], from: usize) -> (r: Option<usize>)
    ensures
        match r {
            Some(at) => first_occurrence(text@, pattern@, from as int) == Some(at as int) && from
                <= at && at + pattern.len() <= text.len(),
            None => first_occurrence(text@, pattern@, from as int) is None,
        },
{
    proof {
        lemma_first_occurrence(text@, pattern@, from as int);
    }
    if pattern.len() > text.len() {
        return None;
    }
    let last = text.len() - pattern.len();
    let mut at = from;
    while at <= last
        invariant
            last == text.len() - pattern.len(),
            from <= at,
            first_occurrence(text@, pattern@, from as int) == first_occurrence(
                text@,
                pattern@,
                at as int,
            ),
        decreases last + 1 - at,
    {
        if matches_at(text, pattern, at) {
            return Some(at);
        }
        if at == last {
            assert(first_occurrence(text@, pattern@, at + 1) is None);
            return None;
        }
        at = at + 1;
    }
    None
}

/// Tests whether `pattern` stands somewhere in `text`.
pub fn contains_pattern(text: &[char], pattern: &[char]) -> (r: bool)
    ensures
        r == contains(text@, pattern@),
{
    proof {
        lemma_contains(text@, pattern@);
    }
    find(text, pattern, 0).is_some()
}

/// Removes from `text` the occurrences of `pattern` that a single pass from
/// left to right meets.
pub fn remove_all(text: &[char], pattern: &[char]) -> (out: Vec<char>)
    ensures
        out@ == without(text@, pattern@, 0),
{
    let mut out: Vec<char> = Vec::new();
    let mut i: usize = 0;
    while i < text.len()
        invariant
            i <= text.len(),
            out@ + without(text@, pattern@, i as int) == without(text@, pattern@, 0),
        decreases text.len() - i,
    {
        if pattern.len() > 0 && matches_at(text, pattern, i) {
            i = i + pattern.len();
        } else {
            proof {
                if pattern.len() == 0 {
                    assert(without(text@, pattern@, i as int) =~= seq![text@[i as int]] + without(
                        text@,
                        pattern@,
                        i + 1,
                    ));
                }
                assert(out@.push(text@[i as int]) + without(text@, pattern@, i + 1) =~= out@ + (
                seq![text@[i as int]] + without(text@, pattern@, i + 1)));
            }
            out.push(text[i]);
            i = i + 1;
        }
    }
    assert(out@ + Seq::<char>::empty() =~= out@);
    out
}

/// The character of a decimal digit.
pub open spec fn digit_char(d: nat) -> char
    recommends
        d < 10,
{
    ('0' as int + d) as char
}

/// A number written in decimal digits, without leading zeros.
pub open spec fn decimal_digits(n: nat) -> Seq<char>
    decreases n,
{
    if n < 10 {
        seq![digit_char(n)]
    } else {
        decimal_digits(n / 10).push(digit_char(n % 10))
    }
}

/// Writes a number in decimal digits.
pub fn decimal(n: u128) -> (out: Vec<char>)
    ensures
        out@ == decimal_digits(n as nat),
    decreases n,
{
    if n < 10 {
        let digit = (48u8 + (n as u8)) as char;
        let out = vec![digit];
        assert(out@ =~= decimal_digits(n as nat));
        out
    } else {
        let mut out = decimal(n / 10);
        let digit = (48u8 + ((n % 10) as u8)) as char;
        out.push(digit);
        out
    }
}

/// Appends the characters of `s` to `out`.
pub fn push_str(out: &mut Vec<char>, s: &str)
    ensures
        final(out)@ == old(out)@ + s@,
{
    let mut chars = chars_of(s);
    out.append(&mut chars);
}

/// Appends the characters of `more` to `out`.
pub fn push_all(out: &mut Vec<char>, more: &[char])
    ensures
        final(out)@ == old(out)@ + more@,
{
    let mut i: usize = 0;
    while i < more.len()
        invariant
            i <= more.len(),
            out@ == old(out)@ + more@.take(i as int),
        decreases more.len() - i,
    {
        out.push(more[i]);
        proof {
            assert(more@.take(i + 1) =~= more@.take(i as int).push(more@[i as int]));
        }
        i = i + 1;
    }
    proof {
        assert(more@.take(i as int) == more@);
    }
}

/// A search result moved forward by `by` positions.
pub open spec fn moved(found: Option<int>, by: int) -> Option<int> {
    match found {
        Some(at) => Some(at + by),
        None => None,
    }
}

/// A pattern stands in the second part of a text exactly where it stands
/// in that part alone.
pub proof fn lemma_occurs_shift(x: Seq<char>, y: Seq<char>, pattern: Seq<char>, k: int)
    requires
        0 <= k,
    ensures
        occurs_at(x + y, pattern, x.len() + k) <==> occurs_at(y, pattern, k),
{
    if k + pattern.len() <= y.len() {
        assert((x + y).subrange(x.len() + k, x.len() + k + pattern.len()) =~= y.subrange(
            k,
            k + pattern.len(),
        ));
    }
}

/// A pattern that stands in a text at a position within its first part, and
/// ends within it, stands in that part alone.
pub proof fn lemma_occurs_in_front(x: Seq<char>, y: Seq<char>, pattern: Seq<char>, at: int)
    requires
        0 <= at,
        at + pattern.len() <= x.len(),
    ensures
        occurs_at(x + y, pattern, at) <==> occurs_at(x, pattern, at),
{
    assert((x + y).subrange(at, at + pattern.len()) =~= x.subrange(at, at + pattern.len()));
}

/// A search in the second part of a text finds what a search in that part
/// alone finds.
pub proof fn lemma_first_occurrence_shift(x: Seq<char>, y: Seq<char>, pattern: Seq<char>, k: int)
    requires
        0 <= k,
    ensures
        first_occurrence(x + y, pattern, x.len() + k) == moved(
            first_occurrence(y, pattern, k),
            x.len() as int,
        ),
    decreases y.len() - k + 1,
{
    lemma_occurs_shift(x, y, pattern, k);
    if k + pattern.len() > y.len() {
    } else if occurs_at(y, pattern, k) {
    } else {
        lemma_first_occurrence_shift(x, y, pattern, k + 1);
    }
}

/// A search that meets no occurrence between two positions finds what a
/// search from the second position finds.
pub proof fn lemma_first_occurrence_advance(text: Seq<char>, pattern: Seq<char>, from: int, to: int)
    requires
        0 <= from <= to,
        to + pattern.len() <= text.len(),
        forall|j: int| from <= j < to ==> !occurs_at(text, pattern, j),
    ensures
        first_occurrence(text, pattern, from) == first_occurrence(text, pattern, to),
    decreases to - from,
{
    if from < to {
        lemma_first_occurrence_advance(text, pattern, from + 1, to);
    }
}

/// A pattern that stands in a text holds, at each of its positions, the
/// character of the text.
pub proof fn lemma_occurrence_chars(text: Seq<char>, pattern: Seq<char>, at: int, i: int)
    requires
        occurs_at(text, pattern, at),
        at <= i < at + pattern.len(),
    ensures
        text[i] == pattern[i - at],
{
    assert(text.subrange(at, at + pattern.len())[i - at] == text[i]);
}

/// Where a pattern of two parts stands, its first part stands, and its
/// second part stands behind it.
pub proof fn lemma_occurrence_parts(text: Seq<char>, p: Seq<char>, q: Seq<char>, at: int)
    requires
        occurs_at(text, p + q, at),
    ensures
        occurs_at(text, p, at),
        occurs_at(text, q, at + p.len()),
{
    let whole = text.subrange(at, at + (p + q).len());
    assert(text.subrange(at, at + p.len()) =~= whole.subrange(0, p.len() as int));
    assert(text.subrange(at + p.len(), at + p.len() + q.len()) =~= whole.subrange(
        p.len() as int,
        (p + q).len() as int,
    ));
    assert((p + q).subrange(0, p.len() as int) =~= p);
    assert((p + q).subrange(p.len() as int, (p + q).len() as int) =~= q);
}

/// What is left of the second part of a text is what is left of that part
/// alone.
pub proof fn lemma_without_shift(x: Seq<char>, y: Seq<char>, pattern: Seq<char>, k: int)
    requires
        0 <= k,
    ensures
        without(x + y, pattern, x.len() + k) == without(y, pattern, k),
    decreases y.len() - k,
{
    lemma_occurs_shift(x, y, pattern, k);
    if k >= y.len() {
    } else if pattern.len() == 0 {
        assert((x + y).subrange(x.len() + k, (x + y).len() as int) =~= y.subrange(
            k,
            y.len() as int,
        ));
    } else if occurs_at(y, pattern, k) {
        lemma_without_shift(x, y, pattern, k + pattern.len());
    } else {
        lemma_without_shift(x, y, pattern, k + 1);
    }
}

/// Where no occurrence is met between two positions, the text between them
/// is left as it is.
pub proof fn lemma_without_advance(text: Seq<char>, pattern: Seq<char>, from: int, to: int)
    requires
        0 <= from <= to <= text.len(),
        forall|j: int| from <= j < to ==> !occurs_at(text, pattern, j),
    ensures
        without(text, pattern, from) == text.subrange(from, to) + without(text, pattern, to),
    decreases to - from,
{
    if from < to {
        lemma_without_advance(text, pattern, from + 1, to);
        if pattern.len() == 0 {
            assert(occurs_at(text, pattern, from)) by {
                assert(text.subrange(from, from + 0) =~= pattern);
            }
        }
        assert(seq![text[from]] + (text.subrange(from + 1, to) + without(text, pattern, to))
            =~= text.subrange(from, to) + without(text, pattern, to));
    } else {
        assert(text.subrange(from, to) + without(text, pattern, to) =~= without(
            text,
            pattern,
            to,
        ));
    }
}

} // verus!
