//! Bacon's cipher: codecs that turn letters into groups over a two-valued
//! alphabet, and steganographers that hide such groups in ordinary text.

use vstd::prelude::*;
use vstd::slice::slice_subrange;
use crate::errors::BaconError;

pub mod chars;
pub mod codecs;
pub mod errors;
pub mod stega;
pub mod text;

verus! {

/// A value of a two-valued alphabet. Two symbols are the same exactly when
/// they are equal as values.
pub trait Symbol: Copy {
    /// Tests whether `self` and `other` are the same symbol.
    fn same(&self, other: &Self) -> (r: bool)
        ensures
            r == (*self == *other),
    ;
}

impl Symbol for char {
    fn same(&self, other: &Self) -> (r: bool) {
        *self == *other
    }
}

impl Symbol for bool {
    fn same(&self, other: &Self) -> (r: bool) {
        *self == *other
    }
}

impl Symbol for u8 {
    fn same(&self, other: &Self) -> (r: bool) {
        *self == *other
    }
}

/// The consecutive groups of `size` elements that `s` splits into. The last
/// group is shorter when `size` does not divide the length of `s`.
pub open spec fn groups_of<A>(s: Seq<A>, size: nat) -> Seq<Seq<A>>
    recommends
        size > 0,
{
    Seq::new(
        ((s.len() + size - 1) / (size as int)) as nat,
        |k: int|
            s.subrange(
                k * size,
                if (k + 1) * size <= s.len() {
                    (k + 1) * size
                } else {
                    s.len() as int
                },
            ),
    )
}

/// A codec of Bacon's cipher: content units become groups of a fixed length
/// over the two values `a` and `b`, and groups become content units again.
pub trait BaconCodec {
    /// The type of the two substitution values.
    type ABTYPE;

    /// The type of the content that is encoded and decoded.
    type CONTENT;

    /// The `A` substitution value.
    spec fn spec_a(&self) -> Self::ABTYPE;

    /// The `B` substitution value.
    spec fn spec_b(&self) -> Self::ABTYPE;

    /// The length of the group that stands for one content unit.
    spec fn spec_encoded_group_size(&self) -> nat;

    /// The group of one content unit; empty for a unit the codec does not know.
    spec fn spec_encode_elem(&self, elem: Self::CONTENT) -> Seq<Self::ABTYPE>;

    /// The content unit that a group stands for.
    spec fn spec_decode_elems(&self, elems: Seq<Self::ABTYPE>) -> Self::CONTENT;

    /// Encodes each content unit and concatenates the groups in order.
    fn encode(&self, input: &[Self::CONTENT]) -> (out: Vec<Self::ABTYPE>)
        ensures
            out@ == input@.flat_map(|c: Self::CONTENT| self.spec_encode_elem(c)),
    {
        let mut out: Vec<Self::ABTYPE> = Vec::new();
        let mut i: usize = 0;
        while i < input.len()
            invariant
                i <= input.len(),
                out@ == input@.take(i as int).flat_map(
                    |c: Self::CONTENT| self.spec_encode_elem(c),
                ),
            decreases input.len() - i,
        {
            let mut group = self.encode_elem(&input[i]);
            proof {
                input@.lemma_flat_map_take_append(
                    |c: Self::CONTENT| self.spec_encode_elem(c),
                    i as int,
                );
            }
            out.append(&mut group);
            i = i + 1;
        }
        proof {
            assert(input@.take(i as int) == input@);
        }
        out
    }

    /// Encodes a single content unit.
    fn encode_elem(&self, elem: &Self::CONTENT) -> (out: Vec<Self::ABTYPE>)
        ensures
            out@ == self.spec_encode_elem(*elem),
    ;

    /// Splits `input` into consecutive groups and decodes each of them.
    fn decode(&self, input: &[Self::ABTYPE]) -> (out: Vec<Self::CONTENT>)
        requires
            self.spec_encoded_group_size() > 0,
        ensures
            out@ == groups_of(input@, self.spec_encoded_group_size()).map_values(
                |g: Seq<Self::ABTYPE>| self.spec_decode_elems(g),
            ),
    {
        let size = self.encoded_group_size();
        let ghost groups = groups_of(input@, size as nat);
        let mut out: Vec<Self::CONTENT> = Vec::new();
        let mut start: usize = 0;
        proof {
            lemma_group_count_empty(size as nat);
        }
        while start < input.len()
            invariant
                size > 0,
                size == self.spec_encoded_group_size(),
                groups == groups_of(input@, size as nat),
                start <= input.len(),
                start < input.len() ==> start == out.len() * size,
                out.len() <= groups.len(),
                start == input.len() ==> out.len() == groups.len(),
                out@ == groups.take(out.len() as int).map_values(
                    |g: Seq<Self::ABTYPE>| self.spec_decode_elems(g),
                ),
            decreases input.len() - start,
        {
            let end = if input.len() - start < size {
                input.len()
            } else {
                start + size
            };
            let ghost k = out.len() as int;
            proof {
                lemma_group_count(input@.len(), size as nat, k);
                assert(k * size == start);
                assert((k + 1) * size == start + size) by (nonlinear_arith)
                    requires
                        k * size == start,
                ;
                assert(groups[k] == input@.subrange(start as int, end as int));
            }
            let unit = self.decode_elems(slice_subrange(input, start, end));
            out.push(unit);
            proof {
                assert(groups.take(k + 1).map_values(
                    |g: Seq<Self::ABTYPE>| self.spec_decode_elems(g),
                ) =~= groups.take(k).map_values(
                    |g: Seq<Self::ABTYPE>| self.spec_decode_elems(g),
                ).push(unit));
                if end == input.len() {
                    lemma_group_count_at_end(input@.len(), size as nat, k);
                }
            }
            start = end;
        }
        proof {
            assert(groups.take(out.len() as int) == groups);
        }
        out
    }

    /// Decodes one group.
    fn decode_elems(&self, elems: &[Self::ABTYPE]) -> (unit: Self::CONTENT)
        ensures
            unit == self.spec_decode_elems(elems@),
    ;

    /// Returns the `A` substitution value.
    fn a(&self) -> (r: Self::ABTYPE)
        ensures
            r == self.spec_a(),
    ;

    /// Returns the `B` substitution value.
    fn b(&self) -> (r: Self::ABTYPE)
        ensures
            r == self.spec_b(),
    ;

    /// Returns the length of the group that stands for one content unit.
    fn encoded_group_size(&self) -> (n: usize)
        ensures
            n == self.spec_encoded_group_size(),
    ;

    /// Tests whether `elem` is the `A` substitution value.
    fn is_a(&self, elem: &Self::ABTYPE) -> (r: bool)
        ensures
            r == (*elem == self.spec_a()),
    ;

    /// Tests whether `elem` is the `B` substitution value.
    fn is_b(&self, elem: &Self::ABTYPE) -> (r: bool)
        ensures
            r == (*elem == self.spec_b()),
    ;
}

/// What `codec` encodes `content` to: the groups of its units, in order.
pub open spec fn encoded<C: BaconCodec>(codec: &C, content: Seq<C::CONTENT>) -> Seq<C::ABTYPE> {
    content.flat_map(|c: C::CONTENT| codec.spec_encode_elem(c))
}

/// What `codec` decodes `input` to: one content unit for each consecutive
/// group, the last of which may be short.
pub open spec fn decoded<C: BaconCodec>(codec: &C, input: Seq<C::ABTYPE>) -> Seq<C::CONTENT> {
    groups_of(input, codec.spec_encoded_group_size()).map_values(
        |g: Seq<C::ABTYPE>| codec.spec_decode_elems(g),
    )
}

/// With `k` whole groups of `size` elements before position `k * size < len`,
/// group `k` exists.
pub proof fn lemma_group_count(len: nat, size: nat, k: int)
    requires
        size > 0,
        0 <= k,
        k * size < len,
    ensures
        k < (len + size - 1) / (size as int),
        k * size >= 0,
{
    assert(k < (len + size - 1) / (size as int) && k * size >= 0) by (nonlinear_arith)
        requires
            size > 0,
            0 <= k,
            k * size < len,
    ;
}

/// An empty sequence has no groups.
pub proof fn lemma_group_count_empty(size: nat)
    requires
        size > 0,
    ensures
        (0 + size - 1) / (size as int) == 0,
        0 * size == 0,
{
    assert((0 + size - 1) / (size as int) == 0) by (nonlinear_arith)
        requires
            size > 0,
    ;
}

/// The group that reaches the end of the sequence is the last one.
pub proof fn lemma_group_count_at_end(len: nat, size: nat, k: int)
    requires
        size > 0,
        0 <= k,
        k * size < len,
        len <= (k + 1) * size,
    ensures
        k + 1 == (len + size - 1) / (size as int),
{
    assert(k + 1 == (len + size - 1) / (size as int)) by (nonlinear_arith)
        requires
            size > 0,
            0 <= k,
            k * size < len,
            len <= (k + 1) * size,
    ;
}

/// A sequence that splits into whole groups keeps those groups when more
/// elements follow it.
pub proof fn lemma_groups_of_prefix<A>(front: Seq<A>, more: Seq<A>, size: nat, count: nat)
    requires
        size > 0,
        front.len() == count * size,
    ensures
        groups_of(front, size).len() == count,
        groups_of(front + more, size).len() >= count,
        groups_of(front + more, size).take(count as int) == groups_of(front, size),
{
    let whole = front + more;
    assert(groups_of(front, size).len() == count && groups_of(whole, size).len() >= count)
        by (nonlinear_arith)
        requires
            size > 0,
            front.len() == count * size,
            whole.len() >= front.len(),
            groups_of(front, size).len() == (front.len() + size - 1) / (size as int),
            groups_of(whole, size).len() == (whole.len() + size - 1) / (size as int),
    ;
    assert forall|k: int| 0 <= k < count implies groups_of(whole, size)[k] == groups_of(
        front,
        size,
    )[k] by {
        let from = k * size;
        let to = (k + 1) * size;
        assert(0 <= from <= to && to <= count * size) by (nonlinear_arith)
            requires
                0 <= k < count,
                size > 0,
                from == k * size,
                to == (k + 1) * size,
        ;
        assert(groups_of(whole, size)[k] == whole.subrange(from, to));
        assert(groups_of(front, size)[k] == front.subrange(from, to));
        assert(whole.subrange(from, to) =~= front.subrange(from, to));
    }
    assert(groups_of(whole, size).take(count as int) =~= groups_of(front, size));
}

/// What a sequence of whole groups decodes to stands first in what any
/// longer sequence that starts with it decodes to.
pub proof fn lemma_decoded_prefix<C: BaconCodec>(
    codec: &C,
    front: Seq<C::ABTYPE>,
    more: Seq<C::ABTYPE>,
    count: nat,
)
    requires
        codec.spec_encoded_group_size() > 0,
        front.len() == count * codec.spec_encoded_group_size(),
    ensures
        decoded(codec, front).len() == count,
        decoded(codec, front + more).len() >= count,
        decoded(codec, front + more).take(count as int) == decoded(codec, front),
{
    lemma_groups_of_prefix(front, more, codec.spec_encoded_group_size(), count);
    assert(decoded(codec, front + more).take(count as int) =~= decoded(codec, front));
}

/// Hides a secret in a public text, and reveals it again, with the help of a
/// [`BaconCodec`].
pub trait Steganographer {
    /// The type of the elements of the texts.
    type T;

    /// Encodes `secret` with `codec` and writes the encoding into `public`.
    fn disguise<C: BaconCodec<CONTENT = Self::T>>(
        &self,
        secret: &[Self::T],
        public: &[Self::T],
        codec: &C,
    ) -> (r: Result<Vec<Self::T>, BaconError>)
    ;

    /// Reads the encoding that `input` carries and decodes it with `codec`.
    fn reveal_secret<C: BaconCodec<CONTENT = Self::T>>(&self, input: &[Self::T], codec: &C) -> (r: Result<
        Vec<Self::T>,
        BaconError,
    >)
        requires
            codec.spec_encoded_group_size() > 0,
    ;
}

} // verus!
