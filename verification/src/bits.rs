//! Trusted interface to the `bitvec` crate.
//!
//! Evaluation keeps the values of a total assignment in a bit-vector, one
//! bit per level. The vector is held in an opaque buffer; what it holds is
//! named by [`bit_vec_bits`], and the few methods the engine calls are
//! wrapped with contracts over that name.

use vstd::prelude::*;
use bitvec::vec::BitVec;

verus! {

/// A growable buffer of bits, backed by bitvec's `BitVec`.
#[verifier::external_body]
pub struct BitBuffer {
    bits: BitVec,
}

/// The sequence of bits the buffer holds.
pub uninterp spec fn bit_vec_bits(v: BitBuffer) -> Seq<bool>;

/// Relies on bitvec's `BitVec::new`: the empty bit-vector.
#[verifier::external_body]
pub(crate) fn bits_new() -> (r: BitBuffer)
    ensures
        bit_vec_bits(r) == Seq::<bool>::empty(),
{
    BitBuffer { bits: BitVec::new() }
}

/// Relies on bitvec's `BitVec::resize`: growing to a larger length appends
/// copies of the given bit.
#[verifier::external_body]
pub(crate) fn bits_resize(v: &mut BitBuffer, new_len: usize, value: bool)
    requires
        new_len >= bit_vec_bits(*old(v)).len(),
    ensures
        bit_vec_bits(*final(v)) == bit_vec_bits(*old(v)) + Seq::new(
            (new_len - bit_vec_bits(*old(v)).len()) as nat,
            |k: int| value,
        ),
{
    v.bits.resize(new_len, value)
}

/// Relies on bitvec's `BitSlice::set`: writes the bit at the index in
/// place.
#[verifier::external_body]
pub(crate) fn bits_set(v: &mut BitBuffer, index: usize, value: bool)
    requires
        index < bit_vec_bits(*old(v)).len(),
    ensures
        bit_vec_bits(*final(v)) == bit_vec_bits(*old(v)).update(index as int, value),
{
    v.bits.set(index, value)
}

/// Relies on bitvec's indexing through `BitSlice`: reads the bit at the
/// index.
#[verifier::external_body]
pub(crate) fn bits_get(v: &BitBuffer, index: usize) -> (r: bool)
    requires
        index < bit_vec_bits(*v).len(),
    ensures
        r == bit_vec_bits(*v)[index as int],
{
    v.bits[index]
}

} // verus!
