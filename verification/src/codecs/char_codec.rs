//! Codecs for the letters of the Latin alphabet.
//!
//! Every letter stands for a number below 32, and the group of a letter is
//! that number written with five binary digits, most significant digit first,
//! where the digit 0 is the `A` substitution value and the digit 1 is the `B`
//! substitution value. The two versions of the cipher differ in the number
//! that a letter stands for: the first version gives `I` and `J` the same
//! number, and `U` and `V` too; the second gives every letter its own.

use vstd::prelude::*;
use crate::chars::{alphabetic, alphabetic_count};
use crate::{decoded, encoded, groups_of, lemma_decoded_prefix, BaconCodec, Symbol};

verus! {

/// The two versions of the cipher.
#[derive(Clone, Copy, Debug, PartialEq, Eq, Structural)]
pub enum Version {
    /// 24 groups: `I`/`J` and `U`/`V` share one each.
    First,
    /// 26 groups, one for every letter.
    Second,
}

/// The content unit that an unknown group decodes to.
pub const UNKNOWN: char = ' ';

/// The position of a Latin letter in the alphabet, whatever its case.
pub open spec fn letter_index(c: char) -> Option<nat> {
    if 'a' <= c && c <= 'z' {
        Some((c as int - 'a' as int) as nat)
    } else if 'A' <= c && c <= 'Z' {
        Some((c as int - 'A' as int) as nat)
    } else {
        None
    }
}

/// The capital letter at position `k` of the alphabet.
pub open spec fn letter_at(k: nat) -> char
    recommends
        k < 26,
{
    ('A' as int + k) as char
}

/// The number that the letter at position `k` stands for.
pub open spec fn group_number(version: Version, k: nat) -> nat
    recommends
        k < 26,
{
    match version {
        Version::First => if k <= 8 {
            k
        } else if k <= 20 {
            (k - 1) as nat
        } else {
            (k - 2) as nat
        },
        Version::Second => k,
    }
}

/// The five binary digits of `n`, most significant first; `true` is the digit 1.
pub open spec fn group_bits(n: nat) -> Seq<bool>
    recommends
        n < 32,
{
    seq![n / 16 % 2 == 1, n / 8 % 2 == 1, n / 4 % 2 == 1, n / 2 % 2 == 1, n % 2 == 1]
}

/// The digits of a content sequence: for each Latin letter the five digits of
/// its number, nothing for any other character.
pub open spec fn digits_of(version: Version, content: Seq<char>) -> Seq<bool> {
    content.flat_map(
        |c: char|
            match letter_index(c) {
                Some(k) => group_bits(group_number(version, k)),
                None => Seq::empty(),
            },
    )
}

/// Digits written with substitution values: `a` for 0 and `b` for 1.
pub open spec fn render<T>(bits: Seq<bool>, a: T, b: T) -> Seq<T> {
    bits.map_values(
        |bit: bool|
            if bit {
                b
            } else {
                a
            },
    )
}

/// The group of the letter at position `k`.
pub open spec fn letter_group<T>(version: Version, k: nat, a: T, b: T) -> Seq<T>
    recommends
        k < 26,
{
    render(group_bits(group_number(version, k)), a, b)
}

/// The group of a character: that of its letter, or nothing for a character
/// that is no Latin letter.
pub open spec fn char_group<T>(version: Version, c: char, a: T, b: T) -> Seq<T> {
    match letter_index(c) {
        Some(k) => letter_group(version, k, a, b),
        None => Seq::empty(),
    }
}

/// The first letter, from position `from` on, whose group is `elems`; the
/// unknown unit if there is none.
pub open spec fn first_letter_of<T>(version: Version, elems: Seq<T>, a: T, b: T, from: nat) -> char
    decreases 26 - from,
{
    if from >= 26 {
        UNKNOWN
    } else if elems == letter_group(version, from, a, b) {
        letter_at(from)
    } else {
        first_letter_of(version, elems, a, b, from + 1)
    }
}

/// The letter that a group decodes to: the first letter of the alphabet with
/// that group, or the unknown unit.
pub open spec fn group_letter<T>(version: Version, elems: Seq<T>, a: T, b: T) -> char {
    first_letter_of(version, elems, a, b, 0)
}

/// The capital letter that a content unit is read back as after encoding and
/// decoding: the first letter of the alphabet that shares its number.
pub open spec fn canonical_letter(version: Version, k: nat) -> char
    recommends
        k < 26,
{
    match version {
        Version::First => if k == 9 {
            'I'
        } else if k == 21 {
            'U'
        } else {
            letter_at(k)
        },
        Version::Second => letter_at(k),
    }
}

/// The group of a letter of the first version.
fn first_version_group<T: Symbol>(elem: char, a: T, b: T) -> (out: Vec<T>)
    ensures
        out@ == char_group(Version::First, elem, a, b),
{
    let out = match elem {
        'a' | 'A' => vec![a, a, a, a, a],
        'b' | 'B' => vec![a, a, a, a, b],
        'c' | 'C' => vec![a, a, a, b, a],
        'd' | 'D' => vec![a, a, a, b, b],
        'e' | 'E' => vec![a, a, b, a, a],
        'f' | 'F' => vec![a, a, b, a, b],
        'g' | 'G' => vec![a, a, b, b, a],
        'h' | 'H' => vec![a, a, b, b, b],
        'i' | 'I' => vec![a, b, a, a, a],
        'j' | 'J' => vec![a, b, a, a, a],
        'k' | 'K' => vec![a, b, a, a, b],
        'l' | 'L' => vec![a, b, a, b, a],
        'm' | 'M' => vec![a, b, a, b, b],
        'n' | 'N' => vec![a, b, b, a, a],
        'o' | 'O' => vec![a, b, b, a, b],
        'p' | 'P' => vec![a, b, b, b, a],
        'q' | 'Q' => vec![a, b, b, b, b],
        'r' | 'R' => vec![b, a, a, a, a],
        's' | 'S' => vec![b, a, a, a, b],
        't' | 'T' => vec![b, a, a, b, a],
        'u' | 'U' => vec![b, a, a, b, b],
        'v' | 'V' => vec![b, a, a, b, b],
        'w' | 'W' => vec![b, a, b, a, a],
        'x' | 'X' => vec![b, a, b, a, b],
        'y' | 'Y' => vec![b, a, b, b, a],
        'z' | 'Z' => vec![b, a, b, b, b],
        _ => vec![],
    };
    assert(out@ =~= char_group(Version::First, elem, a, b));
    out
}

/// The group of a letter of the second version.
fn second_version_group<T: Symbol>(elem: char, a: T, b: T) -> (out: Vec<T>)
    ensures
        out@ == char_group(Version::Second, elem, a, b),
{
    let out = match elem {
        'a' | 'A' => vec![a, a, a, a, a],
        'b' | 'B' => vec![a, a, a, a, b],
        'c' | 'C' => vec![a, a, a, b, a],
        'd' | 'D' => vec![a, a, a, b, b],
        'e' | 'E' => vec![a, a, b, a, a],
        'f' | 'F' => vec![a, a, b, a, b],
        'g' | 'G' => vec![a, a, b, b, a],
        'h' | 'H' => vec![a, a, b, b, b],
        'i' | 'I' => vec![a, b, a, a, a],
        'j' | 'J' => vec![a, b, a, a, b],
        'k' | 'K' => vec![a, b, a, b, a],
        'l' | 'L' => vec![a, b, a, b, b],
        'm' | 'M' => vec![a, b, b, a, a],
        'n' | 'N' => vec![a, b, b, a, b],
        'o' | 'O' => vec![a, b, b, b, a],
        'p' | 'P' => vec![a, b, b, b, b],
        'q' | 'Q' => vec![b, a, a, a, a],
        'r' | 'R' => vec![b, a, a, a, b],
        's' | 'S' => vec![b, a, a, b, a],
        't' | 'T' => vec![b, a, a, b, b],
        'u' | 'U' => vec![b, a, b, a, a],
        'v' | 'V' => vec![b, a, b, a, b],
        'w' | 'W' => vec![b, a, b, b, a],
        'x' | 'X' => vec![b, a, b, b, b],
        'y' | 'Y' => vec![b, b, a, a, a],
        'z' | 'Z' => vec![b, b, a, a, b],
        _ => vec![],
    };
    assert(out@ =~= char_group(Version::Second, elem, a, b));
    out
}

/// Tests whether two sequences of symbols hold the same symbols in the same
/// order.
fn same_symbols<T: Symbol>(left: &[T], right: &[T]) -> (r: bool)
    ensures
        r == (left@ == right@),
{
    if left.len() != right.len() {
        return false;
    }
    let mut i: usize = 0;
    while i < left.len()
        invariant
            left.len() == right.len(),
            i <= left.len(),
            left@.take(i as int) == right@.take(i as int),
        decreases left.len() - i,
    {
        if !left[i].same(&right[i]) {
            return false;
        }
        assert(left@.take(i + 1) =~= left@.take(i as int).push(left@[i as int]));
        assert(right@.take(i + 1) =~= right@.take(i as int).push(right@[i as int]));
        i = i + 1;
    }
    assert(left@.take(i as int) == left@);
    assert(right@.take(i as int) == right@);
    true
}

/// Looks a group up among the groups of the 26 letters, in alphabetical order.
fn lookup_group<T: Symbol>(version: Version, elems: &[T], a: T, b: T) -> (unit: char)
    ensures
        unit == group_letter(version, elems@, a, b),
{
    let mut k: u8 = 0;
    while k < 26
        invariant
            k <= 26,
            group_letter(version, elems@, a, b) == first_letter_of(version, elems@, a, b, k as nat),
        decreases 26 - k,
    {
        let letter = (65u8 + k) as char;
        assert(letter_index(letter) == Some(k as nat));
        let group = match version {
            Version::First => first_version_group(letter, a, b),
            Version::Second => second_version_group(letter, a, b),
        };
        if same_symbols(elems, group.as_slice()) {
            return letter;
        }
        k = k + 1;
    }
    UNKNOWN
}

/// A codec for characters that follows the first version of Bacon's cipher.
///
/// The group of a letter is written with the two values `elem_a` and `elem_b`
/// of type `T`.
#[derive(PartialEq, Clone, Debug)]
pub struct CharCodec<T> {
    elem_a: T,
    elem_b: T,
}

impl<T> CharCodec<T> {
    /// Creates a codec that substitutes with `elem_a` and `elem_b`.
    pub fn new(elem_a: T, elem_b: T) -> (codec: CharCodec<T>)
        ensures
            codec.elem_a() == elem_a,
            codec.elem_b() == elem_b,
    {
        CharCodec { elem_a, elem_b }
    }

    /// The value that stands for the digit 0.
    pub closed spec fn elem_a(&self) -> T {
        self.elem_a
    }

    /// The value that stands for the digit 1.
    pub closed spec fn elem_b(&self) -> T {
        self.elem_b
    }
}

impl Default for CharCodec<char> {
    /// The codec that substitutes with the characters `A` and `B`.
    fn default() -> (codec: CharCodec<char>)
        ensures
            codec.elem_a() == 'A',
            codec.elem_b() == 'B',
    {
        CharCodec::new('A', 'B')
    }
}

impl<T: Symbol> BaconCodec for CharCodec<T> {
    type ABTYPE = T;

    type CONTENT = char;

    open spec fn spec_a(&self) -> T {
        self.elem_a()
    }

    open spec fn spec_b(&self) -> T {
        self.elem_b()
    }

    open spec fn spec_encoded_group_size(&self) -> nat {
        5
    }

    open spec fn spec_encode_elem(&self, elem: char) -> Seq<T> {
        char_group(Version::First, elem, self.elem_a(), self.elem_b())
    }

    open spec fn spec_decode_elems(&self, elems: Seq<T>) -> char {
        group_letter(Version::First, elems, self.elem_a(), self.elem_b())
    }

    fn encode_elem(&self, elem: &char) -> (out: Vec<T>) {
        first_version_group(*elem, self.elem_a, self.elem_b)
    }

    fn decode_elems(&self, elems: &[T]) -> (unit: char) {
        lookup_group(Version::First, elems, self.elem_a, self.elem_b)
    }

    fn a(&self) -> (r: T) {
        self.elem_a
    }

    fn b(&self) -> (r: T) {
        self.elem_b
    }

    fn encoded_group_size(&self) -> (n: usize) {
        5
    }

    fn is_a(&self, elem: &T) -> (r: bool) {
        elem.same(&self.elem_a)
    }

    fn is_b(&self, elem: &T) -> (r: bool) {
        elem.same(&self.elem_b)
    }
}

/// A codec for characters that follows the second version of Bacon's cipher.
///
/// The group of a letter is written with the two values `elem_a` and `elem_b`
/// of type `T`.
#[derive(PartialEq, Clone, Debug)]
pub struct CharCodecV2<T> {
    elem_a: T,
    elem_b: T,
}

impl<T> CharCodecV2<T> {
    /// Creates a codec that substitutes with `elem_a` and `elem_b`.
    pub fn new(elem_a: T, elem_b: T) -> (codec: CharCodecV2<T>)
        ensures
            codec.elem_a() == elem_a,
            codec.elem_b() == elem_b,
    {
        CharCodecV2 { elem_a, elem_b }
    }

    /// The value that stands for the digit 0.
    pub closed spec fn elem_a(&self) -> T {
        self.elem_a
    }

    /// The value that stands for the digit 1.
    pub closed spec fn elem_b(&self) -> T {
        self.elem_b
    }
}

impl Default for CharCodecV2<char> {
    /// The codec that substitutes with the characters `A` and `B`.
    fn default() -> (codec: CharCodecV2<char>)
        ensures
            codec.elem_a() == 'A',
            codec.elem_b() == 'B',
    {
        CharCodecV2::new('A', 'B')
    }
}

impl<T: Symbol> BaconCodec for CharCodecV2<T> {
    type ABTYPE = T;

    type CONTENT = char;

    open spec fn spec_a(&self) -> T {
        self.elem_a()
    }

    open spec fn spec_b(&self) -> T {
        self.elem_b()
    }

    open spec fn spec_encoded_group_size(&self) -> nat {
        5
    }

    open spec fn spec_encode_elem(&self, elem: char) -> Seq<T> {
        char_group(Version::Second, elem, self.elem_a(), self.elem_b())
    }

    open spec fn spec_decode_elems(&self, elems: Seq<T>) -> char {
        group_letter(Version::Second, elems, self.elem_a(), self.elem_b())
    }

    fn encode_elem(&self, elem: &char) -> (out: Vec<T>) {
        second_version_group(*elem, self.elem_a, self.elem_b)
    }

    fn decode_elems(&self, elems: &[T]) -> (unit: char) {
        lookup_group(Version::Second, elems, self.elem_a, self.elem_b)
    }

    fn a(&self) -> (r: T) {
        self.elem_a
    }

    fn b(&self) -> (r: T) {
        self.elem_b
    }

    fn encoded_group_size(&self) -> (n: usize) {
        5
    }

    fn is_a(&self, elem: &T) -> (r: bool) {
        elem.same(&self.elem_a)
    }

    fn is_b(&self, elem: &T) -> (r: bool) {
        elem.same(&self.elem_b)
    }
}

/// A content sequence read back after encoding and decoding: every letter as
/// the first capital letter that shares its number.
pub open spec fn canonical(version: Version, content: Seq<char>) -> Seq<char> {
    content.map_values(
        |c: char|
            match letter_index(c) {
                Some(k) => canonical_letter(version, k),
                None => UNKNOWN,
            },
    )
}

/// A content sequence in capital letters.
pub open spec fn upper_case(content: Seq<char>) -> Seq<char> {
    content.map_values(
        |c: char|
            match letter_index(c) {
                Some(k) => letter_at(k),
                None => c,
            },
    )
}

/// Whether every unit of `content` is a Latin letter.
pub open spec fn all_letters(content: Seq<char>) -> bool {
    forall|i: int| 0 <= i < content.len() ==> (#[trigger] letter_index(content[i])) is Some
}

/// Whether `content` holds a letter that shares its number with an earlier
/// letter of the alphabet: `J` or `V` in the first version, none in the second.
pub open spec fn has_shared_letter(version: Version, content: Seq<char>) -> bool {
    version == Version::First && exists|i: int|
        0 <= i < content.len() && (#[trigger] letter_index(content[i]) == Some(9nat)
            || letter_index(content[i]) == Some(21nat))
}

/// Different numbers below 32 have different digits.
proof fn lemma_bits_differ(m: nat, n: nat)
    requires
        m < 32,
        n < 32,
        m != n,
    ensures
        exists|i: int| 0 <= i < 5 && #[trigger] group_bits(m)[i] != group_bits(n)[i],
{
    let bm = group_bits(m);
    let bn = group_bits(n);
    if bm[0] == bn[0] && bm[1] == bn[1] && bm[2] == bn[2] && bm[3] == bn[3] && bm[4] == bn[4] {
        assert(m == n);
    }
}

/// With two different substitution values, letters with different numbers
/// have different groups.
proof fn lemma_groups_differ<T>(version: Version, j: nat, k: nat, a: T, b: T)
    requires
        a != b,
        j < 26,
        k < 26,
        group_number(version, j) != group_number(version, k),
    ensures
        letter_group(version, j, a, b) != letter_group(version, k, a, b),
{
    let m = group_number(version, j);
    let n = group_number(version, k);
    lemma_bits_differ(m, n);
    let i = choose|i: int| 0 <= i < 5 && #[trigger] group_bits(m)[i] != group_bits(n)[i];
    assert(letter_group(version, j, a, b)[i] != letter_group(version, k, a, b)[i]);
}

/// Searching from a position at or before the first letter that shares the
/// number of letter `k` finds that letter.
proof fn lemma_first_letter<T>(version: Version, k: nat, a: T, b: T, from: nat)
    requires
        a != b,
        k < 26,
        from < 26,
        letter_at(from) <= canonical_letter(version, k),
    ensures
        first_letter_of(version, letter_group(version, k, a, b), a, b, from) == canonical_letter(
            version,
            k,
        ),
    decreases 26 - from,
{
    if letter_at(from) == canonical_letter(version, k) {
        assert(group_number(version, from) == group_number(version, k));
    } else {
        lemma_groups_differ(version, from, k, a, b);
        lemma_first_letter(version, k, a, b, from + 1);
    }
}

/// Decoding the group of a letter gives the first capital letter that shares
/// its number, provided the two substitution values differ.
pub proof fn lemma_letter_round_trip<T>(version: Version, c: char, a: T, b: T)
    requires
        a != b,
        letter_index(c) is Some,
    ensures
        group_letter(version, char_group(version, c, a, b), a, b) == canonical_letter(
            version,
            letter_index(c)->0,
        ),
{
    lemma_first_letter(version, letter_index(c)->0, a, b, 0);
}

/// Concatenated groups of one length split back into those groups.
pub proof fn lemma_groups_of_flat_map<A, B>(content: Seq<A>, f: spec_fn(A) -> Seq<B>, size: nat)
    requires
        size > 0,
        forall|i: int| 0 <= i < content.len() ==> (#[trigger] f(content[i])).len() == size,
    ensures
        content.flat_map(f).len() == content.len() * size,
        groups_of(content.flat_map(f), size) == content.map_values(f),
    decreases content.len(),
{
    if content.len() == 0 {
        assert(content.flat_map(f) =~= Seq::empty());
        assert((0 + size - 1) / (size as int) == 0) by (nonlinear_arith)
            requires
                size > 0,
        ;
        assert(groups_of(content.flat_map(f), size) =~= content.map_values(f));
    } else {
        let front = content.drop_last();
        let last = content.last();
        lemma_groups_of_flat_map(front, f, size);
        front.lemma_flat_map_push(f, last);
        assert(front.push(last) =~= content);
        let flat = content.flat_map(f);
        let n = front.len() as int;
        assert(flat == front.flat_map(f) + f(last));
        assert(flat.len() == (n + 1) * size) by (nonlinear_arith)
            requires
                flat.len() == n * size + size,
        ;
        assert(((n + 1) * size + size - 1) / (size as int) == n + 1) by (nonlinear_arith)
            requires
                size > 0,
                n >= 0,
        ;
        let groups = groups_of(flat, size);
        assert(groups.len() == n + 1);
        assert forall|k: int| 0 <= k < n + 1 implies groups[k] == content.map_values(f)[k] by {
            assert(0 <= k * size && (k + 1) * size <= (n + 1) * size && (k + 1) * size == k * size
                + size) by (nonlinear_arith)
                requires
                    0 <= k < n + 1,
                    size > 0,
            ;
            if k < n {
                assert((k + 1) * size <= n * size) by (nonlinear_arith)
                    requires
                        k < n,
                        size > 0,
                ;
                let old_groups = groups_of(front.flat_map(f), size);
                assert(old_groups[k] == f(front[k]));
                assert(groups[k] =~= old_groups[k]);
            } else {
                assert(groups[k] =~= f(last));
            }
        }
        assert(groups =~= content.map_values(f));
    }
}

/// The groups of a content sequence are its digits, written with the two
/// substitution values.
pub proof fn lemma_encoding_renders_digits<T>(version: Version, content: Seq<char>, a: T, b: T)
    ensures
        content.flat_map(|c: char| char_group(version, c, a, b)) == render(
            digits_of(version, content),
            a,
            b,
        ),
    decreases content.len(),
{
    let groups = |c: char| char_group(version, c, a, b);
    let digits = |c: char|
        match letter_index(c) {
            Some(k) => group_bits(group_number(version, k)),
            None => Seq::empty(),
        };
    if content.len() == 0 {
        assert(content.flat_map(groups) =~= Seq::empty());
        assert(content.flat_map(digits) =~= Seq::empty());
        assert(render(Seq::<bool>::empty(), a, b) =~= Seq::empty());
    } else {
        let front = content.drop_last();
        let last = content.last();
        lemma_encoding_renders_digits(version, front, a, b);
        front.lemma_flat_map_push(groups, last);
        front.lemma_flat_map_push(digits, last);
        assert(front.push(last) =~= content);
        assert(groups(last) =~= render(digits(last), a, b));
        assert(render(front.flat_map(digits) + digits(last), a, b) =~= render(
            front.flat_map(digits),
            a,
            b,
        ) + render(digits(last), a, b));
    }
}

/// Round trip: a sequence of Latin letters, encoded and decoded again by a
/// codec of the first version whose two substitution values differ, comes
/// back with every letter as the first capital letter that shares its number;
/// where the sequence has neither `J` nor `V`, it comes back in capital
/// letters.
pub proof fn law_round_trip<T: Symbol>(codec: &CharCodec<T>, content: Seq<char>)
    requires
        codec.spec_a() != codec.spec_b(),
        all_letters(content),
    ensures
        decoded(codec, encoded(codec, content)) == canonical(Version::First, content),
        !has_shared_letter(Version::First, content) ==> decoded(codec, encoded(codec, content))
            == upper_case(content),
{
    lemma_round_trip(Version::First, content, codec.elem_a(), codec.elem_b());
    let a = codec.elem_a();
    let b = codec.elem_b();
    assert(encoded(codec, content) =~= content.flat_map(
        |c: char| char_group(Version::First, c, a, b),
    )) by {
        assert(content.map_values(|c: char| codec.spec_encode_elem(c)) =~= content.map_values(
            |c: char| char_group(Version::First, c, a, b),
        ));
    }
    let groups = groups_of(encoded(codec, content), 5);
    assert(decoded(codec, encoded(codec, content)) =~= groups.map_values(
        |g: Seq<T>| group_letter(Version::First, g, a, b),
    ));
}

/// Round trip: a sequence of Latin letters, encoded and decoded again by a
/// codec of the second version whose two substitution values differ, comes
/// back in capital letters.
pub proof fn law_round_trip_v2<T: Symbol>(codec: &CharCodecV2<T>, content: Seq<char>)
    requires
        codec.spec_a() != codec.spec_b(),
        all_letters(content),
    ensures
        decoded(codec, encoded(codec, content)) == upper_case(content),
{
    lemma_round_trip(Version::Second, content, codec.elem_a(), codec.elem_b());
    let a = codec.elem_a();
    let b = codec.elem_b();
    assert(encoded(codec, content) =~= content.flat_map(
        |c: char| char_group(Version::Second, c, a, b),
    )) by {
        assert(content.map_values(|c: char| codec.spec_encode_elem(c)) =~= content.map_values(
            |c: char| char_group(Version::Second, c, a, b),
        ));
    }
    let groups = groups_of(encoded(codec, content), 5);
    assert(decoded(codec, encoded(codec, content)) =~= groups.map_values(
        |g: Seq<T>| group_letter(Version::Second, g, a, b),
    ));
}

/// The round trip over the groups themselves, for either version.
pub proof fn lemma_round_trip<T>(version: Version, content: Seq<char>, a: T, b: T)
    requires
        a != b,
        all_letters(content),
    ensures
        groups_of(content.flat_map(|c: char| char_group(version, c, a, b)), 5).map_values(
            |g: Seq<T>| group_letter(version, g, a, b),
        ) == canonical(version, content),
        !has_shared_letter(version, content) ==> canonical(version, content) == upper_case(
            content,
        ),
{
    let groups = |c: char| char_group(version, c, a, b);
    assert forall|i: int| 0 <= i < content.len() implies (#[trigger] groups(content[i])).len()
        == 5 by {
        assert(letter_index(content[i]) is Some);
    }
    lemma_groups_of_flat_map(content, groups, 5);
    let read = content.map_values(groups).map_values(|g: Seq<T>| group_letter(version, g, a, b));
    assert forall|i: int| 0 <= i < content.len() implies read[i] == canonical(version, content)[i] by {
        assert(letter_index(content[i]) is Some);
        lemma_letter_round_trip(version, content[i], a, b);
    }
    assert(read =~= canonical(version, content));
    if !has_shared_letter(version, content) {
        assert forall|i: int| 0 <= i < content.len() implies canonical(version, content)[i]
            == upper_case(content)[i] by {
            assert(letter_index(content[i]) is Some);
            if version == Version::First {
                assert(!(letter_index(content[i]) == Some(9nat) || letter_index(content[i])
                    == Some(21nat)));
            }
        }
        assert(canonical(version, content) =~= upper_case(content));
    }
}

/// The groups of a content sequence, in order.
pub open spec fn content_groups<T>(version: Version, content: Seq<char>, a: T, b: T) -> Seq<T> {
    content.flat_map(|c: char| char_group(version, c, a, b))
}

/// The Latin letters of a content sequence, in order.
pub open spec fn letters_of(content: Seq<char>) -> Seq<char> {
    content.filter(|c: char| letter_index(c) is Some)
}

/// Only the Latin letters of a content sequence have groups: the sequence
/// and its letters have the same groups, five elements for each letter, each
/// element one of the two substitution values. There are no more letters than
/// alphabetic characters.
pub proof fn lemma_groups_of_letters<T>(version: Version, content: Seq<char>, a: T, b: T)
    ensures
        letters_of(content).len() <= alphabetic_count(content),
        all_letters(letters_of(content)),
        content_groups(version, content, a, b) == content_groups(
            version,
            letters_of(content),
            a,
            b,
        ),
        content_groups(version, content, a, b).len() == letters_of(content).len() * 5,
        forall|i: int|
            0 <= i < content_groups(version, content, a, b).len() ==> {
                let e = #[trigger] content_groups(version, content, a, b)[i];
                e == a || e == b
            },
    decreases content.len(),
{
    let groups = |c: char| char_group(version, c, a, b);
    let is_letter = |c: char| letter_index(c) is Some;
    reveal(Seq::filter);
    if content.len() == 0 {
        assert(content.flat_map(groups) =~= Seq::empty());
        assert(letters_of(content).flat_map(groups) =~= Seq::empty());
    } else {
        let front = content.drop_last();
        let last = content.last();
        lemma_groups_of_letters(version, front, a, b);
        front.lemma_flat_map_push(groups, last);
        assert(front.push(last) =~= content);
        front.lemma_filter_push(last, is_letter);
        if letter_index(last) is Some {
            letters_of(front).lemma_flat_map_push(groups, last);
            assert(groups(last).len() == 5);
            assert(alphabetic(last));
        } else {
            assert(groups(last) =~= Seq::empty());
        }
        let all = content_groups(version, content, a, b);
        let most = content_groups(version, front, a, b);
        assert(all == most + groups(last));
        assert forall|i: int| 0 <= i < all.len() implies ({
            let e = #[trigger] content_groups(version, content, a, b)[i];
            e == a || e == b
        }) by {
            if i < most.len() {
                assert(all[i] == content_groups(version, front, a, b)[i]);
            } else {
                let j = i - most.len();
                assert(all[i] == groups(last)[j]);
            }
        }
        assert forall|i: int| 0 <= i < letters_of(content).len() implies (#[trigger] letter_index(
            letters_of(content)[i],
        )) is Some by {
            if i < letters_of(front).len() {
                assert(letters_of(content)[i] == letters_of(front)[i]);
            }
        }
    }
}

/// Whether a codec gives every character the group of one version of the
/// cipher, written with its two substitution values.
pub open spec fn follows<C: BaconCodec<CONTENT = char>>(codec: &C, version: Version) -> bool {
    &&& codec.spec_encoded_group_size() == 5
    &&& forall|c: char|
        #[trigger] codec.spec_encode_elem(c) == char_group(
            version,
            c,
            codec.spec_a(),
            codec.spec_b(),
        )
}

/// What a codec of one version encodes a content sequence to: the groups of
/// its Latin letters, five elements for each, every element one of the two
/// substitution values.
pub proof fn lemma_encoded_shape<C: BaconCodec<CONTENT = char>>(
    codec: &C,
    version: Version,
    content: Seq<char>,
)
    requires
        follows(codec, version),
    ensures
        all_letters(letters_of(content)),
        letters_of(content).len() <= alphabetic_count(content),
        encoded(codec, content) == encoded(codec, letters_of(content)),
        encoded(codec, content).len() == letters_of(content).len() * 5,
        forall|i: int|
            0 <= i < encoded(codec, content).len() ==> #[trigger] encoded(codec, content)[i]
                == codec.spec_a() || encoded(codec, content)[i] == codec.spec_b(),
{
    let a = codec.spec_a();
    let b = codec.spec_b();
    let letters = letters_of(content);
    lemma_groups_of_letters(version, content, a, b);
    assert(encoded(codec, content) =~= content_groups(version, content, a, b)) by {
        assert(content.map_values(|c: char| codec.spec_encode_elem(c)) =~= content.map_values(
            |c: char| char_group(version, c, a, b),
        ));
    }
    assert(encoded(codec, letters) =~= content_groups(version, letters, a, b)) by {
        assert(letters.map_values(|c: char| codec.spec_encode_elem(c)) =~= letters.map_values(
            |c: char| char_group(version, c, a, b),
        ));
    }
    assert forall|i: int| 0 <= i < encoded(codec, content).len() implies #[trigger] encoded(
        codec,
        content,
    )[i] == a || encoded(codec, content)[i] == b by {
        let e = content_groups(version, content, a, b)[i];
        assert(e == a || e == b);
    }
}

/// Values that start with an encoded content sequence decode to a sequence
/// that starts with what the Latin letters of the content decode to.
pub proof fn lemma_read_back<C: BaconCodec<CONTENT = char>>(
    codec: &C,
    version: Version,
    content: Seq<char>,
    read: Seq<C::ABTYPE>,
)
    requires
        follows(codec, version),
        read.len() >= encoded(codec, content).len(),
        read.take(encoded(codec, content).len() as int) == encoded(codec, content),
    ensures
        decoded(codec, read).len() >= letters_of(content).len(),
        decoded(codec, read).take(letters_of(content).len() as int) == decoded(
            codec,
            encoded(codec, letters_of(content)),
        ),
{
    let symbols = encoded(codec, content);
    lemma_encoded_shape(codec, version, content);
    let count = symbols.len() as int;
    assert(read =~= read.take(count) + read.skip(count));
    lemma_decoded_prefix(codec, symbols, read.skip(count), letters_of(content).len());
}

/// Alphabet independence: what a codec of the first version encodes a content
/// sequence to is the digit sequence of that content, which no substitution
/// value enters, written with the codec's two values. Two codecs over
/// different alphabets therefore give the same length, and at every position
/// the one gives its `A` value exactly where the digit is 0, as the other
/// does.
pub proof fn law_alphabet_independence<T: Symbol, U: Symbol>(
    first: &CharCodec<T>,
    second: &CharCodec<U>,
    content: Seq<char>,
)
    ensures
        encoded(first, content) == render(
            digits_of(Version::First, content),
            first.spec_a(),
            first.spec_b(),
        ),
        encoded(second, content) == render(
            digits_of(Version::First, content),
            second.spec_a(),
            second.spec_b(),
        ),
        encoded(first, content).len() == encoded(second, content).len(),
{
    lemma_encoding_renders_digits(Version::First, content, first.elem_a(), first.elem_b());
    lemma_encoding_renders_digits(Version::First, content, second.elem_a(), second.elem_b());
    let (a, b) = (first.elem_a(), first.elem_b());
    assert(content.map_values(|c: char| first.spec_encode_elem(c)) =~= content.map_values(
        |c: char| char_group(Version::First, c, a, b),
    ));
    let (a2, b2) = (second.elem_a(), second.elem_b());
    assert(content.map_values(|c: char| second.spec_encode_elem(c)) =~= content.map_values(
        |c: char| char_group(Version::First, c, a2, b2),
    ));
}

/// Alphabet independence for the second version of the cipher.
pub proof fn law_alphabet_independence_v2<T: Symbol, U: Symbol>(
    first: &CharCodecV2<T>,
    second: &CharCodecV2<U>,
    content: Seq<char>,
)
    ensures
        encoded(first, content) == render(
            digits_of(Version::Second, content),
            first.spec_a(),
            first.spec_b(),
        ),
        encoded(second, content) == render(
            digits_of(Version::Second, content),
            second.spec_a(),
            second.spec_b(),
        ),
        encoded(first, content).len() == encoded(second, content).len(),
{
    lemma_encoding_renders_digits(Version::Second, content, first.elem_a(), first.elem_b());
    lemma_encoding_renders_digits(Version::Second, content, second.elem_a(), second.elem_b());
    let (a, b) = (first.elem_a(), first.elem_b());
    assert(content.map_values(|c: char| first.spec_encode_elem(c)) =~= content.map_values(
        |c: char| char_group(Version::Second, c, a, b),
    ));
    let (a2, b2) = (second.elem_a(), second.elem_b());
    assert(content.map_values(|c: char| second.spec_encode_elem(c)) =~= content.map_values(
        |c: char| char_group(Version::Second, c, a2, b2),
    ));
}

} // verus!
