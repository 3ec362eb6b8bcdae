//! Single-bit reads and writes on bytes.

use vstd::prelude::*;

verus! {

/// What bit `b` of byte `x` is, as a boolean.
pub open spec fn spec_bit(x: u8, b: u32) -> bool {
    (x >> (b as u8)) & 1 == 1
}

/// Byte `x` with bit `b` set to `v` and all other bits unchanged.
pub open spec fn spec_set_bit(x: u8, b: u32, v: bool) -> u8 {
    if v {
        (x | (1u8 << (b as u8))) as u8
    } else {
        (x & !(1u8 << (b as u8))) as u8
    }
}

proof fn lemma_set_bit_read(x: u8, b: u32, v: bool, o: u32)
    requires
        b < 8,
        o < 8,
    ensures
        spec_bit(spec_set_bit(x, b, v), b) == v,
        o != b ==> spec_bit(spec_set_bit(x, b, v), o) == spec_bit(x, o),
{
    let bb = b as u8;
    let ob = o as u8;
    assert(spec_bit(spec_set_bit(x, b, true), b) == true) by (bit_vector)
        requires bb < 8, bb == b as u8;
    assert(spec_bit(spec_set_bit(x, b, false), b) == false) by (bit_vector)
        requires bb < 8, bb == b as u8;
    if o != b {
        assert(spec_bit(spec_set_bit(x, b, v), o) == spec_bit(x, o)) by (bit_vector)
            requires bb < 8, ob < 8, bb != ob, bb == b as u8, ob == o as u8;
    }
}

/// Per-bit access for small words; the word's bits are those of the `u8`
/// returned by [`Bits::bits_view`].
pub trait Bits: Sized {
    /// The word's bits, seen as a `u8`.
    spec fn bits_view(&self) -> u8;

    /// What bit `b` holds.
    fn bit(&self, b: u32) -> (r: bool)
        requires
            b < 8,
        ensures
            r == spec_bit(self.bits_view(), b),
    ;

    /// Shorthand for [`Bits::bit`].
    fn b(&self, b: u32) -> (r: bool)
        requires
            b < 8,
        ensures
            r == spec_bit(self.bits_view(), b),
    ;

    /// Sets bit `b` to `v`, leaving every other bit unchanged.
    fn set_bit(&mut self, b: u32, v: bool)
        requires
            b < 8,
        ensures
            final(self).bits_view() == spec_set_bit(old(self).bits_view(), b, v),
            spec_bit(final(self).bits_view(), b) == v,
            forall|o: u32| o < 8 && o != b ==>
                spec_bit(final(self).bits_view(), o) == spec_bit(old(self).bits_view(), o),
    ;
}

impl Bits for u8 {
    open spec fn bits_view(&self) -> u8 {
        *self
    }

    fn bit(&self, b: u32) -> (r: bool) {
        ((*self >> (b as u8)) & 1) == 1
    }

    fn b(&self, b: u32) -> (r: bool) {
        self.bit(b)
    }

    fn set_bit(&mut self, b: u32, v: bool) {
        if v {
            *self = *self | (1u8 << (b as u8));
        } else {
            *self = *self & !(1u8 << (b as u8));
        }
        proof {
            lemma_set_bit_read(*old(self), b, v, 0);
            assert forall|o: u32| o < 8 && o != b implies
                spec_bit(*self, o) == spec_bit(*old(self), o) by {
                lemma_set_bit_read(*old(self), b, v, o);
            }
        }
    }
}

} // verus!
