use vstd::prelude::*;

verus! {

/// Bit `i` (little-endian) of a 64-bit limb.
pub open spec fn u64_bit(x: u64, i: int) -> bool
    recommends
        0 <= i < 64,
{
    (x >> (i as u64)) & 1 == 1
}

/// Reads bit `i` of a limb; agrees with `u64_bit`.
pub fn u64_bit_at(x: u64, i: usize) -> (b: bool)
    requires
        i < 64,
    ensures
        b == u64_bit(x, i as int),
{
    (x >> (i as u64)) & 1 == 1
}

/// Every bit of zero is clear.
pub proof fn lemma_zero_bit(i: int)
    requires
        0 <= i < 64,
    ensures
        !u64_bit(0u64, i),
{
    let iu = i as u64;
    assert((0u64 >> iu) & 1 == 0) by (bit_vector)
        requires
            iu < 64,
    ;
}

/// If two limbs agree on every bit at or above `n`, their shifts by `n` agree.
proof fn lemma_u64_shr_eq(x: u64, y: u64, n: u64)
    requires
        n < 64,
        forall|i: int| n <= i < 64 ==> u64_bit(x, i) == u64_bit(y, i),
    ensures
        (x >> n) == (y >> n),
    decreases 64 - n,
{
    assert(u64_bit(x, n as int) == u64_bit(y, n as int));
    if n == 63 {
        assert((x >> 63u64) == (y >> 63u64)) by (bit_vector)
            requires
                ((x >> 63u64) & 1 == 1) == ((y >> 63u64) & 1 == 1),
        ;
    } else {
        let n1: u64 = (n + 1) as u64;
        lemma_u64_shr_eq(x, y, n1);
        assert((x >> n) == (y >> n)) by (bit_vector)
            requires
                n < 63,
                n1 == n + 1,
                (x >> n1) == (y >> n1),
                ((x >> n) & 1 == 1) == ((y >> n) & 1 == 1),
        ;
    }
}

/// A limb is determined by its bits.
pub proof fn lemma_u64_bits_inj(x: u64, y: u64)
    requires
        forall|i: int| 0 <= i < 64 ==> u64_bit(x, i) == u64_bit(y, i),
    ensures
        x == y,
{
    lemma_u64_shr_eq(x, y, 0);
    assert(x >> 0u64 == x) by (bit_vector);
    assert(y >> 0u64 == y) by (bit_vector);
}

/// If bits `n` and above of a limb are clear, the limb shifted by `n` is zero.
pub proof fn lemma_u64_high_bits_clear(x: u64, n: u64)
    requires
        n < 64,
        forall|i: int| n <= i < 64 ==> !u64_bit(x, i),
    ensures
        (x >> n) == 0,
{
    assert forall|i: int| n <= i < 64 implies u64_bit(x, i) == u64_bit(0u64, i) by {
        lemma_zero_bit(i);
    }
    lemma_u64_shr_eq(x, 0u64, n);
    assert(0u64 >> n == 0) by (bit_vector);
}

/// Conversely, if the limb shifted by `n` is zero, bits `n` and above are clear.
pub proof fn lemma_u64_shr_zero_bits(x: u64, n: u64, i: int)
    requires
        n < 64,
        (x >> n) == 0,
        n <= i < 64,
    ensures
        !u64_bit(x, i),
{
    let iu = i as u64;
    assert((x >> iu) & 1 == 0) by (bit_vector)
        requires
            n < 64,
            (x >> n) == 0,
            n <= iu < 64,
    ;
}

/// Setting bit `i` leaves every other bit as it was.
pub proof fn lemma_u64_set_bit(x: u64, i: u64, k: int)
    requires
        i < 64,
        0 <= k < 64,
    ensures
        u64_bit(x | (1u64 << i), k) == if k == i { true } else { u64_bit(x, k) },
{
    let ku = k as u64;
    if ku == i {
        assert(((x | (1u64 << i)) >> ku) & 1 == 1) by (bit_vector)
            requires
                i < 64,
                ku == i,
        ;
    } else {
        assert(((x | (1u64 << i)) >> ku) & 1 == (x >> ku) & 1) by (bit_vector)
            requires
                i < 64,
                ku < 64,
                ku != i,
        ;
    }
}

} // verus!
