//! The packed bit buffer, held in a `bitvec` boxed bit-slice.
//!
//! Nothing here is proved: the contracts say what the `bitvec` crate does,
//! and everything else in the library is verified against them.

use bitvec::boxed::BitBox;
use bitvec::order::Lsb0;
use bitvec::vec::BitVec;
use vstd::prelude::*;

verus! {

/// A run of bits of fixed length, stored in a `bitvec::boxed::BitBox`. The
/// verifier does not look inside: it knows the buffer through [`bits_of`].
#[verifier::external_body]
pub struct BitBuf {
    bits: BitBox<usize, Lsb0>,
}

/// The bits that a buffer holds, in index order.
pub uninterp spec fn bits_of(buf: BitBuf) -> Seq<bool>;

/// The largest number of bits that one buffer can hold: `bitvec` keeps three
/// bits of the length word for itself.
pub open spec fn max_bits() -> int {
    usize::MAX as int / 8
}

/// `BitVec::repeat(bit, len)` and then `BitVec::into_boxed_bitslice`, which
/// is what `bitbox![bit; len]` stands for: a buffer of `len` bits, each of
/// them `bit`. `repeat` panics on a length above `BitSlice::MAX_BITS`, which
/// `requires` leaves out.
#[verifier::external_body]
pub(crate) fn repeated(bit: bool, len: usize) -> (buf: BitBuf)
    requires
        len <= max_bits(),
    ensures
        bits_of(buf) == Seq::new(len as nat, |i: int| bit),
{
    BitBuf { bits: BitVec::<usize, Lsb0>::repeat(bit, len).into_boxed_bitslice() }
}

/// Indexing a bit-slice, `bits[index]`: the bit at `index`. It panics on an
/// index past the end, which `requires` leaves out.
#[verifier::external_body]
pub(crate) fn bit_at(buf: &BitBuf, index: usize) -> (bit: bool)
    requires
        index < bits_of(*buf).len(),
    ensures
        bit == bits_of(*buf)[index as int],
{
    buf.bits[index]
}

/// `BitSlice::set`: writes `value` at `index` and leaves every other bit, and
/// the length, as they were. It panics only on an index past the end, which
/// `requires` leaves out.
#[verifier::external_body]
pub(crate) fn set_bit(buf: &mut BitBuf, index: usize, value: bool)
    requires
        index < bits_of(*old(buf)).len(),
    ensures
        bits_of(*final(buf)) == bits_of(*old(buf)).update(index as int, value),
    no_unwind
{
    buf.bits.set(index, value);
}

} // verus!
