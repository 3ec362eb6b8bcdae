//! A fixed-capacity bitmap stored over bytes.

use vstd::prelude::*;

use crate::bits::{spec_bit, spec_set_bit, Bits};

verus! {

/// How many of the booleans in `s` are set.
pub open spec fn count_set(s: Seq<bool>) -> nat
    decreases s.len(),
{
    if s.len() == 0 {
        0
    } else {
        count_set(s.drop_last()) + if s.last() { 1nat } else { 0nat }
    }
}

pub proof fn lemma_count_set_le_len(s: Seq<bool>)
    ensures
        count_set(s) <= s.len(),
    decreases s.len(),
{
    if s.len() > 0 {
        lemma_count_set_le_len(s.drop_last());
    }
}

pub proof fn lemma_count_set_update(s: Seq<bool>, i: int, v: bool)
    requires
        0 <= i < s.len(),
    ensures
        count_set(s.update(i, v)) ==
            count_set(s) - (if s[i] { 1int } else { 0int }) + (if v { 1int } else { 0int }),
    decreases s.len(),
{
    let t = s.update(i, v);
    if i == s.len() - 1 {
        assert(t.drop_last() =~= s.drop_last());
    } else {
        assert(t.drop_last() =~= s.drop_last().update(i, v));
        lemma_count_set_update(s.drop_last(), i, v);
    }
}

pub proof fn lemma_count_set_all(s: Seq<bool>)
    requires
        forall|i: int| 0 <= i < s.len() ==> s[i],
    ensures
        count_set(s) == s.len(),
    decreases s.len(),
{
    if s.len() > 0 {
        lemma_count_set_all(s.drop_last());
    }
}

/// A bitmap of a fixed number of bits, packed into bytes, together with a
/// count of the clear bits and a hint for finding the next clear bit.
pub struct BitMap {
    arr: Vec<u8>,
    length: usize,
    num_free_bits: usize,
    next_free: usize,
}

impl BitMap {
    /// The bits, in order.
    pub closed spec fn bits(&self) -> Seq<bool> {
        Seq::new(self.length as nat, |i: int| spec_bit(self.arr[i / 8], (i % 8) as u32))
    }

    /// The bitmap's internal consistency: enough backing bytes, an accurate
    /// free-bit count, and an in-range search hint.
    pub closed spec fn wf(&self) -> bool {
        &&& self.arr.len() == self.length / 8 + 1
        &&& self.num_free_bits == self.bits().len() - count_set(self.bits())
        &&& self.next_free < self.length || (self.length == 0 && self.next_free == 0)
        &&& self.length < usize::MAX
    }

    /// A bitmap of `length` bits, all clear.
    pub fn new(length: usize) -> (r: Self)
        requires
            length < usize::MAX,
        ensures
            r.wf(),
            r.bits().len() == length,
            forall|i: int| 0 <= i < length ==> !r.bits()[i],
    {
        let mut arr: Vec<u8> = Vec::new();
        let n = length / 8 + 1;
        let mut k: usize = 0;
        while k < n
            invariant
                arr.len() == k,
                k <= n,
                forall|i: int| 0 <= i < k ==> arr[i] == 0u8,
            decreases n - k,
        {
            arr.push(0u8);
            k = k + 1;
        }
        let r = BitMap { arr, length, num_free_bits: length, next_free: 0 };
        proof {
            assert forall|i: int| 0 <= i < length implies !r.bits()[i] by {
                assert(r.arr[i / 8] == 0u8);
                let off = (i % 8) as u32;
                assert(!spec_bit(0u8, off)) by (bit_vector)
                    requires off < 8;
            }
            assert forall|i: int| 0 <= i < r.bits().len() implies !r.bits()[i] by {}
            lemma_count_all_clear(r.bits());
        }
        r
    }

    /// The number of bits.
    pub fn length(&self) -> (r: usize)
        ensures
            r == self.bits().len(),
    {
        self.length
    }

    /// How many bits are clear.
    pub fn empty_bits(&self) -> (r: usize)
        requires
            self.wf(),
        ensures
            r == self.bits().len() - count_set(self.bits()),
    {
        self.num_free_bits
    }

    /// Clears every bit.
    pub fn clear_all(&mut self)
        requires
            old(self).wf(),
        ensures
            final(self).wf(),
            final(self).bits().len() == old(self).bits().len(),
            forall|i: int| 0 <= i < final(self).bits().len() ==> !final(self).bits()[i],
    {
        let mut b: usize = 0;
        let len = self.length;
        while b < len
            invariant
                self.wf(),
                self.length == len,
                self.bits().len() == len,
                b <= len,
                forall|i: int| 0 <= i < b ==> !self.bits()[i],
            decreases len - b,
        {
            let _ = self.set(b, false);
            b = b + 1;
        }
    }

    /// Whether `bit` is in bounds.
    fn in_bounds(&self, bit: usize) -> (r: Result<(), ()>)
        ensures
            r is Ok <==> bit < self.bits().len(),
    {
        if bit < self.length {
            Ok(())
        } else {
            Err(())
        }
    }

    /// The byte index and bit offset of `bit`, or `Err` when out of bounds.
    fn bit_to_idx(&self, bit: usize) -> (r: Result<(usize, usize), ()>)
        ensures
            r is Ok <==> bit < self.bits().len(),
            r matches Ok((idx, off)) ==> idx == bit / 8 && off == bit % 8,
    {
        match self.in_bounds(bit) {
            Ok(()) => Ok((bit / 8, bit % 8)),
            Err(()) => Err(()),
        }
    }

    /// The value of `bit`; `Err` when out of bounds.
    pub fn get(&self, bit: usize) -> (r: Result<bool, ()>)
        requires
            self.wf(),
        ensures
            r is Ok <==> bit < self.bits().len(),
            r matches Ok(v) ==> v == self.bits()[bit as int],
    {
        match self.bit_to_idx(bit) {
            Ok((idx, off)) => Ok(self.arr[idx].b(off as u32)),
            Err(()) => Err(()),
        }
    }

    /// Sets `bit` to `val` and returns its previous value; `Err` when out of
    /// bounds, with nothing changed.
    pub fn set(&mut self, bit: usize, val: bool) -> (r: Result<bool, ()>)
        requires
            old(self).wf(),
        ensures
            final(self).wf(),
            r is Ok <==> bit < old(self).bits().len(),
            final(self).bits().len() == old(self).bits().len(),
            r matches Ok(prev) ==> {
                &&& prev == old(self).bits()[bit as int]
                &&& final(self).bits() == old(self).bits().update(bit as int, val)
            },
            r is Err ==> *final(self) == *old(self),
    {
        match self.bit_to_idx(bit) {
            Ok((idx, off)) => {
                let prev: bool = self.arr[idx].b(off as u32);
                self.arr[idx].set_bit(off as u32, val);
                proof {
                    assert(self.bits() =~= old(self).bits().update(bit as int, val)) by {
                        assert forall|i: int| 0 <= i < self.length implies
                            self.bits()[i] == old(self).bits().update(bit as int, val)[i] by {
                            if i / 8 == bit as int / 8 {
                                if i == bit as int {
                                } else {
                                    assert(i % 8 != bit as int % 8);
                                }
                            } else {
                                assert(self.arr[i / 8] == old(self).arr[i / 8]);
                            }
                        }
                    }
                    lemma_count_set_update(old(self).bits(), bit as int, val);
                    lemma_count_set_le_len(old(self).bits());
                    lemma_count_set_le_len(old(self).bits().update(bit as int, val));
                }
                match (prev, val) {
                    (false, true) => {
                        self.num_free_bits = self.num_free_bits - 1;
                    },
                    (true, false) => {
                        self.num_free_bits = self.num_free_bits + 1;
                        self.next_free = bit;
                    },
                    _ => {},
                }
                Ok(prev)
            },
            Err(()) => Err(()),
        }
    }

    /// The index of some clear bit; `Err` exactly when every bit is set (or
    /// there are none).
    pub fn next_empty_bit(&mut self) -> (r: Result<usize, ()>)
        requires
            old(self).wf(),
        ensures
            final(self).wf(),
            final(self).bits() == old(self).bits(),
            r matches Ok(i) ==> i < final(self).bits().len() && !final(self).bits()[i as int],
            r is Err ==> count_set(final(self).bits()) == final(self).bits().len(),
    {
        proof {
            assert(self.bits() =~= old(self).bits());
        }
        if self.length == 0 {
            return Err(());
        }
        match self.get(self.next_free) {
            Ok(false) => {
                return Ok(self.next_free);
            },
            _ => {},
        }
        if self.num_free_bits == 0 {
            proof {
                lemma_count_set_le_len(self.bits());
            }
            return Err(());
        }
        // A clear bit exists; sweep the whole map for it, starting at the
        // hint and wrapping around.
        let start = self.next_free;
        let len = self.length;
        let mut b = start;
        while b < len
            invariant
                self.wf(),
                self.length == len,
                len > 0,
                start < len,
                start <= b,
                b <= len,
                *self == (BitMap { next_free: self.next_free, ..*old(self) }),
                forall|i: int| start <= i < b ==> self.bits()[i],
            decreases len - b,
        {
            if self.arr[b / 8].b((b % 8) as u32) == false {
                self.next_free = b;
                proof {
                    assert(self.bits() =~= old(self).bits());
                }
                return Ok(b);
            }
            b = b + 1;
        }
        let mut c: usize = 0;
        while c < start
            invariant
                self.wf(),
                self.length == len,
                start < len,
                c <= start,
                *self == (BitMap { next_free: self.next_free, ..*old(self) }),
                forall|i: int| start <= i < len ==> self.bits()[i],
                forall|i: int| 0 <= i < c ==> self.bits()[i],
            decreases start - c,
        {
            if self.arr[c / 8].b((c % 8) as u32) == false {
                self.next_free = c;
                proof {
                    assert(self.bits() =~= old(self).bits());
                }
                return Ok(c);
            }
            c = c + 1;
        }
        proof {
            assert(self.bits() =~= old(self).bits());
            lemma_count_set_all(self.bits());
        }
        Err(())
    }
}

/// A sequence of clear bits has no set bits to count.
proof fn lemma_count_all_clear(s: Seq<bool>)
    requires
        forall|i: int| 0 <= i < s.len() ==> !s[i],
    ensures
        count_set(s) == 0,
    decreases s.len(),
{
    if s.len() > 0 {
        lemma_count_all_clear(s.drop_last());
    }
}

} // verus!
