//! A fixed-size field of bits.

use vstd::prelude::*;
use crate::math::ceil_div;
use crate::math::spec_ceil_div;

verus! {

/// The number of `true` values in `s`.
pub open spec fn count_set(s: Seq<bool>) -> nat
    decreases s.len(),
{
    if s.len() == 0 {
        0
    } else {
        count_set(s.drop_last()) + if s.last() {
            1nat
        } else {
            0nat
        }
    }
}

/// There are at most as many set bits as bits.
pub proof fn lemma_count_bound(s: Seq<bool>)
    ensures
        count_set(s) <= s.len(),
    decreases s.len(),
{
    if s.len() > 0 {
        lemma_count_bound(s.drop_last());
    }
}

/// A sequence without a set bit counts zero.
pub proof fn lemma_count_none(s: Seq<bool>)
    requires
        forall|i: int| 0 <= i < s.len() ==> !s[i],
    ensures
        count_set(s) == 0,
    decreases s.len(),
{
    if s.len() > 0 {
        lemma_count_none(s.drop_last());
    }
}

/// Changing one bit changes the count by that bit's change.
pub proof fn lemma_count_update(s: Seq<bool>, i: int, v: bool)
    requires
        0 <= i < s.len(),
    ensures
        count_set(s.update(i, v)) + (if s[i] { 1nat } else { 0nat })
            == count_set(s) + (if v { 1nat } else { 0nat }),
    decreases s.len(),
{
    let t = s.update(i, v);
    if i == s.len() - 1 {
        assert(t.drop_last() =~= s.drop_last());
    } else {
        assert(t.drop_last() =~= s.drop_last().update(i, v));
        lemma_count_update(s.drop_last(), i, v);
    }
}

/// Bit `k` of the byte `b`.
pub open spec fn byte_bit(b: u8, k: nat) -> bool {
    (b >> (k as u8)) & 1u8 == 1u8
}

/// A field of bits. Each bit is either set or clear.
pub struct Bitfield {
    /// The bits, eight in each byte, the lowest bit first.
    data: Vec<u8>,
    /// The number of bits in the bitfield.
    len: usize,
    /// The number of set bits.
    set_count: usize,
}

impl View for Bitfield {
    type V = Seq<bool>;

    /// The bits in order: `true` for a set bit.
    closed spec fn view(&self) -> Seq<bool> {
        Seq::new(self.len as nat, |i: int| byte_bit(self.data@[i / 8], (i % 8) as nat))
    }
}

impl Bitfield {
    /// The representation is consistent: there is a byte for every eight bits,
    /// and the stored count is the number of set bits.
    pub closed spec fn wf(&self) -> bool {
        &&& self.data@.len() == spec_ceil_div(self.len as nat, 8)
        &&& self.set_count == count_set(self@)
    }

    /// Creates a new bitfield with the given number of bits `len`, all clear.
    pub fn new(len: usize) -> (r: Result<Self, ()>)
        ensures
            r is Ok,
            r->Ok_0.wf(),
            r->Ok_0@.len() == len,
            forall|i: int| 0 <= i < len ==> !r->Ok_0@[i],
    {
        let size: usize = ceil_div(len, 8);
        let mut data: Vec<u8> = Vec::new();
        let mut i: usize = 0;
        while i < size
            invariant
                i <= size,
                data@.len() == i,
                forall|j: int| 0 <= j < i ==> data@[j] == 0u8,
            decreases size - i,
        {
            data.push(0u8);
            i += 1;
        }
        let b = Bitfield { data, len, set_count: 0 };
        proof {
            assert forall|j: int| 0 <= j < len implies !b@[j] by {
                let k: u8 = (j % 8) as u8;
                assert(j / 8 < size);
                assert((0u8 >> k) & 1u8 != 1u8) by (bit_vector);
            }
            lemma_count_none(b@);
        }
        Ok(b)
    }

    /// Returns the number of bits in the bitfield.
    pub fn len(&self) -> (n: usize)
        ensures
            n == self@.len(),
    {
        self.len
    }

    /// Returns the size of the memory region of the bitfield in bytes.
    pub fn mem_size(&self) -> (n: usize)
        ensures
            n == spec_ceil_div(self@.len(), 8),
    {
        ceil_div(self.len, 8)
    }

    /// Returns the number of set bits.
    pub fn set_count(&self) -> (n: usize)
        requires
            self.wf(),
        ensures
            n == count_set(self@),
    {
        self.set_count
    }

    /// Tells whether bit `index` is set.
    pub fn is_set(&self, index: usize) -> (b: bool)
        requires
            self.wf(),
            index < self@.len(),
        ensures
            b == self@[index as int],
    {
        let unit: u8 = self.data[index / 8];
        let k: u8 = (index % 8) as u8;
        (unit >> k) & 1 == 1
    }

    /// Sets bit `index`.
    pub fn set(&mut self, index: usize)
        requires
            old(self).wf(),
            index < old(self)@.len(),
        ensures
            final(self).wf(),
            final(self)@ == old(self)@.update(index as int, true),
    {
        let was_set: bool = self.is_set(index);
        let unit: u8 = self.data[index / 8];
        let k: u8 = (index % 8) as u8;
        let updated: u8 = unit | (1u8 << k);
        self.data.set(index / 8, updated);
        proof {
            assert forall|j: u8| j < 8 implies #[trigger] byte_bit(updated, j as nat) == (if j == k {
                true
            } else {
                byte_bit(unit, j as nat)
            }) by {
                assert(k < 8 && j < 8 ==> (((unit | (1u8 << k)) >> j) & 1u8 == 1u8) == (if j == k {
                    true
                } else {
                    (unit >> j) & 1u8 == 1u8
                })) by (bit_vector);
            }
            assert forall|i: int| 0 <= i < self.len implies self@[i] == old(self)@.update(
                index as int,
                true,
            )[i] by {
                let j: u8 = (i % 8) as u8;
                assert(byte_bit(updated, j as nat) == (if j == k {
                    true
                } else {
                    byte_bit(unit, j as nat)
                }));
            }
            assert(self@ =~= old(self)@.update(index as int, true));
            lemma_count_update(old(self)@, index as int, true);
            lemma_count_bound(self@);
        }
        if !was_set {
            self.set_count = self.set_count + 1;
        }
    }

    /// Clears bit `index`.
    pub fn clear(&mut self, index: usize)
        requires
            old(self).wf(),
            index < old(self)@.len(),
        ensures
            final(self).wf(),
            final(self)@ == old(self)@.update(index as int, false),
    {
        let was_set: bool = self.is_set(index);
        let unit: u8 = self.data[index / 8];
        let k: u8 = (index % 8) as u8;
        let updated: u8 = unit & !(1u8 << k);
        self.data.set(index / 8, updated);
        proof {
            assert forall|j: u8| j < 8 implies #[trigger] byte_bit(updated, j as nat) == (if j == k {
                false
            } else {
                byte_bit(unit, j as nat)
            }) by {
                assert(k < 8 && j < 8 ==> (((unit & !(1u8 << k)) >> j) & 1u8 == 1u8) == (if j == k {
                    false
                } else {
                    (unit >> j) & 1u8 == 1u8
                })) by (bit_vector);
            }
            assert forall|i: int| 0 <= i < self.len implies self@[i] == old(self)@.update(
                index as int,
                false,
            )[i] by {
                let j: u8 = (i % 8) as u8;
                assert(byte_bit(updated, j as nat) == (if j == k {
                    false
                } else {
                    byte_bit(unit, j as nat)
                }));
            }
            assert(self@ =~= old(self)@.update(index as int, false));
            lemma_count_update(old(self)@, index as int, false);
        }
        if was_set {
            self.set_count = self.set_count - 1;
        }
    }
}

} // verus!
