use vstd::prelude::*;

use crate::bits::{
    lemma_u64_bits_inj, lemma_u64_high_bits_clear, lemma_u64_shr_zero_bits, lemma_zero_bit,
    u64_bit, u64_bit_at,
};

verus! {

/// Number of bits in the canonical little-endian encoding of a field element.
pub const FE_BITS: usize = 256;

/// A field element, held as four 64-bit limbs, least significant first.
///
/// The tree core only reads a field element through its canonical 256-bit
/// little-endian encoding; arithmetic on elements is the business of the
/// curve library behind the hasher, not of this type.
#[derive(Clone, Copy, PartialEq, Eq, Structural, Debug)]
pub struct Fe {
    pub l0: u64,
    pub l1: u64,
    pub l2: u64,
    pub l3: u64,
}

/// Bit `i` of the canonical 256-bit encoding of `x`.
pub open spec fn fe_bit(x: Fe, i: int) -> bool
    recommends
        0 <= i < 256,
{
    if i < 64 {
        u64_bit(x.l0, i)
    } else if i < 128 {
        u64_bit(x.l1, i - 64)
    } else if i < 192 {
        u64_bit(x.l2, i - 128)
    } else {
        u64_bit(x.l3, i - 192)
    }
}

impl View for Fe {
    type V = Seq<bool>;

    open spec fn view(&self) -> Seq<bool> {
        Seq::new(256, |i: int| fe_bit(*self, i))
    }
}

/// The value fits in `width` bits: every higher bit of the encoding is clear.
pub open spec fn fe_fits(x: Fe, width: int) -> bool {
    forall|i: int| width <= i < 256 ==> !fe_bit(x, i)
}

impl Fe {
    /// The all-zero element.
    pub open spec fn zero_spec() -> Fe {
        Fe { l0: 0, l1: 0, l2: 0, l3: 0 }
    }

    pub fn zero() -> (r: Fe)
        ensures
            r == Fe::zero_spec(),
    {
        Fe { l0: 0, l1: 0, l2: 0, l3: 0 }
    }

    pub fn one() -> (r: Fe)
        ensures
            r == (Fe { l0: 1, l1: 0, l2: 0, l3: 0 }),
    {
        Fe { l0: 1, l1: 0, l2: 0, l3: 0 }
    }

    pub fn from_u64(v: u64) -> (r: Fe)
        ensures
            r == (Fe { l0: v, l1: 0, l2: 0, l3: 0 }),
    {
        Fe { l0: v, l1: 0, l2: 0, l3: 0 }
    }

    pub fn from_limbs(l0: u64, l1: u64, l2: u64, l3: u64) -> (r: Fe)
        ensures
            r == (Fe { l0, l1, l2, l3 }),
    {
        Fe { l0, l1, l2, l3 }
    }

    /// Reads bit `i` of the canonical encoding.
    pub fn bit_at(&self, i: usize) -> (b: bool)
        requires
            i < 256,
        ensures
            b == self@[i as int],
    {
        if i < 64 {
            u64_bit_at(self.l0, i)
        } else if i < 128 {
            u64_bit_at(self.l1, i - 64)
        } else if i < 192 {
            u64_bit_at(self.l2, i - 128)
        } else {
            u64_bit_at(self.l3, i - 192)
        }
    }

    /// Whether the element fits in 128 bits.
    pub fn fits_128(&self) -> (b: bool)
        ensures
            b == fe_fits(*self, 128),
    {
        let b = self.l2 == 0 && self.l3 == 0;
        proof {
            if b {
                assert forall|i: int| 128 <= i < 256 implies !fe_bit(*self, i) by {
                    if i < 192 {
                        lemma_zero_bit(i - 128);
                    } else {
                        lemma_zero_bit(i - 192);
                    }
                }
            } else {
                if self.l2 != 0 {
                    if forall|i: int| 0 <= i < 64 ==> !u64_bit(self.l2, i) {
                        assert forall|i: int| 0 <= i < 64 implies u64_bit(self.l2, i) == u64_bit(
                            0u64,
                            i,
                        ) by {
                            lemma_zero_bit(i);
                        }
                        lemma_u64_bits_inj(self.l2, 0);
                    }
                    let j = choose|i: int| 0 <= i < 64 && u64_bit(self.l2, i);
                    assert(fe_bit(*self, j + 128));
                } else {
                    if forall|i: int| 0 <= i < 64 ==> !u64_bit(self.l3, i) {
                        assert forall|i: int| 0 <= i < 64 implies u64_bit(self.l3, i) == u64_bit(
                            0u64,
                            i,
                        ) by {
                            lemma_zero_bit(i);
                        }
                        lemma_u64_bits_inj(self.l3, 0);
                    }
                    let j = choose|i: int| 0 <= i < 64 && u64_bit(self.l3, i);
                    assert(fe_bit(*self, j + 192));
                }
            }
        }
        b
    }

    /// Whether the element fits in 32 bits.
    pub fn fits_32(&self) -> (b: bool)
        ensures
            b == fe_fits(*self, 32),
    {
        let b = (self.l0 >> 32u64) == 0 && self.l1 == 0 && self.l2 == 0 && self.l3 == 0;
        proof {
            if b {
                assert forall|i: int| 32 <= i < 256 implies !fe_bit(*self, i) by {
                    if i < 64 {
                        lemma_u64_shr_zero_bits(self.l0, 32, i);
                    } else if i < 128 {
                        lemma_zero_bit(i - 64);
                    } else if i < 192 {
                        lemma_zero_bit(i - 128);
                    } else {
                        lemma_zero_bit(i - 192);
                    }
                }
            } else {
                if fe_fits(*self, 32) {
                    assert forall|i: int| 32 <= i < 64 implies !u64_bit(self.l0, i) by {
                        assert(!fe_bit(*self, i));
                    }
                    lemma_u64_high_bits_clear(self.l0, 32);
                    assert forall|i: int| 0 <= i < 64 implies u64_bit(self.l1, i) == u64_bit(
                        0u64,
                        i,
                    ) && u64_bit(self.l2, i) == u64_bit(0u64, i) && u64_bit(self.l3, i) == u64_bit(
                        0u64,
                        i,
                    ) by {
                        lemma_zero_bit(i);
                        assert(!fe_bit(*self, i + 64));
                        assert(!fe_bit(*self, i + 128));
                        assert(!fe_bit(*self, i + 192));
                    }
                    lemma_u64_bits_inj(self.l1, 0);
                    lemma_u64_bits_inj(self.l2, 0);
                    lemma_u64_bits_inj(self.l3, 0);
                }
            }
        }
        b
    }
}

/// Two elements with the same canonical encoding are the same element.
pub proof fn lemma_fe_bits_inj(x: Fe, y: Fe)
    requires
        x@ == y@,
    ensures
        x == y,
{
    assert forall|i: int| 0 <= i < 64 implies u64_bit(x.l0, i) == u64_bit(y.l0, i) by {
        assert(x@[i] == fe_bit(x, i));
        assert(y@[i] == fe_bit(y, i));
    }
    assert forall|i: int| 0 <= i < 64 implies u64_bit(x.l1, i) == u64_bit(y.l1, i) by {
        assert(x@[i + 64] == fe_bit(x, i + 64));
        assert(y@[i + 64] == fe_bit(y, i + 64));
    }
    assert forall|i: int| 0 <= i < 64 implies u64_bit(x.l2, i) == u64_bit(y.l2, i) by {
        assert(x@[i + 128] == fe_bit(x, i + 128));
        assert(y@[i + 128] == fe_bit(y, i + 128));
    }
    assert forall|i: int| 0 <= i < 64 implies u64_bit(x.l3, i) == u64_bit(y.l3, i) by {
        assert(x@[i + 192] == fe_bit(x, i + 192));
        assert(y@[i + 192] == fe_bit(y, i + 192));
    }
    lemma_u64_bits_inj(x.l0, y.l0);
    lemma_u64_bits_inj(x.l1, y.l1);
    lemma_u64_bits_inj(x.l2, y.l2);
    lemma_u64_bits_inj(x.l3, y.l3);
}

/// The all-zero element fits in any width.
pub proof fn lemma_zero_fits(width: int)
    requires
        0 <= width,
    ensures
        fe_fits(Fe::zero_spec(), width),
{
    assert forall|i: int| width <= i < 256 implies !fe_bit(Fe::zero_spec(), i) by {
        if i < 64 {
            lemma_zero_bit(i);
        } else if i < 128 {
            lemma_zero_bit(i - 64);
        } else if i < 192 {
            lemma_zero_bit(i - 128);
        } else {
            lemma_zero_bit(i - 192);
        }
    }
}

} // verus!
