use vstd::prelude::*;

use crate::account::Account;
use crate::bits::{lemma_u64_set_bit, lemma_zero_bit, u64_bit};
use crate::errors::{LeafField, SmtError};
use crate::field::{fe_bit, fe_fits, lemma_fe_bits_inj, Fe};

verus! {

/// Declared width of the balance field, in bits.
pub const BALANCE_BITS: usize = 128;

/// Declared width of the nonce field, in bits.
pub const NONCE_BITS: usize = 32;

/// Declared width of each public-key coordinate, in bits: the full element
/// width, so a coordinate can never overflow it.
pub const COORD_BITS: usize = crate::field::FE_BITS;

/// Total length of the canonical leaf encoding:
/// `balance || nonce || pub_x || pub_y`, each little-endian and zero-padded
/// to its declared width. This layout is the frozen contract with the
/// external proving circuit.
pub const LEAF_BITS: usize = BALANCE_BITS + NONCE_BITS + COORD_BITS + COORD_BITS;

/// Every field of the account fits its declared width.
/// The coordinate width equals the full element width, so only the balance
/// and the nonce can overflow.
pub open spec fn leaf_fits(a: Account) -> bool {
    &&& fe_fits(a.balance, BALANCE_BITS as int)
    &&& fe_fits(a.nonce, NONCE_BITS as int)
}

/// The canonical bit sequence of an account, meaningful when `leaf_fits(a)`.
pub open spec fn encode_spec(a: Account) -> Seq<bool> {
    a.balance@.take(BALANCE_BITS as int) + a.nonce@.take(NONCE_BITS as int) + a.pub_x@ + a.pub_y@
}

/// The error that encoding an unfit account reports: the first field, in
/// encoding order, whose value exceeds its declared width.
pub open spec fn encode_err_spec(a: Account) -> SmtError {
    if !fe_fits(a.balance, BALANCE_BITS as int) {
        SmtError::EncodingOverflow { field: LeafField::Balance }
    } else {
        SmtError::EncodingOverflow { field: LeafField::Nonce }
    }
}

/// Appends the low `width` bits of `x` to `out`.
fn push_fe_bits(out: &mut Vec<bool>, x: &Fe, width: usize)
    requires
        width <= 256,
    ensures
        final(out)@ == old(out)@ + x@.take(width as int),
{
    let mut i: usize = 0;
    while i < width
        invariant
            width <= 256,
            i <= width,
            out@ == old(out)@ + x@.take(i as int),
        decreases width - i,
    {
        let b = x.bit_at(i);
        out.push(b);
        proof {
            assert(x@.take(i + 1) =~= x@.take(i as int).push(x@[i as int]));
            assert(old(out)@ + x@.take(i + 1) =~= (old(out)@ + x@.take(i as int)).push(
                x@[i as int],
            ));
        }
        i += 1;
    }
}

/// Encodes an account into its canonical bit sequence, or reports the first
/// field whose value overflows its declared width. Nothing is ever silently
/// truncated.
pub fn encode_account(a: &Account) -> (r: Result<Vec<bool>, SmtError>)
    ensures
        leaf_fits(*a) ==> (r matches Ok(bits) && bits@ == encode_spec(*a) && bits@.len()
            == LEAF_BITS),
        !leaf_fits(*a) ==> r == Err::<Vec<bool>, SmtError>(encode_err_spec(*a)),
{
    if !a.balance.fits_128() {
        return Err(SmtError::EncodingOverflow { field: LeafField::Balance });
    }
    if !a.nonce.fits_32() {
        return Err(SmtError::EncodingOverflow { field: LeafField::Nonce });
    }
    let mut out: Vec<bool> = Vec::new();
    push_fe_bits(&mut out, &a.balance, BALANCE_BITS);
    push_fe_bits(&mut out, &a.nonce, NONCE_BITS);
    push_fe_bits(&mut out, &a.pub_x, COORD_BITS);
    push_fe_bits(&mut out, &a.pub_y, COORD_BITS);
    proof {
        assert(a.pub_x@.take(COORD_BITS as int) =~= a.pub_x@);
        assert(a.pub_y@.take(COORD_BITS as int) =~= a.pub_y@);
        assert(out@ =~= encode_spec(*a));
    }
    Ok(out)
}

/// What decoding promises of its result: each field's low bits equal the
/// matching slice of the input, and each field fits its declared width.
/// For a given bit sequence exactly one account satisfies this.
pub open spec fn decode_rel(bits: Seq<bool>, a: Account) -> bool {
    &&& a.balance@.take(BALANCE_BITS as int) == bits.subrange(0, 128)
    &&& fe_fits(a.balance, BALANCE_BITS as int)
    &&& a.nonce@.take(NONCE_BITS as int) == bits.subrange(128, 160)
    &&& fe_fits(a.nonce, NONCE_BITS as int)
    &&& a.pub_x@ == bits.subrange(160, 416)
    &&& a.pub_y@ == bits.subrange(416, 672)
}

/// Builds a limb whose bits `0..n` come from `bits[off..off+n]` and whose
/// higher bits are clear.
fn limb_from_bits(bits: &Vec<bool>, off: usize, n: usize) -> (x: u64)
    requires
        n <= 64,
        off + n <= bits@.len(),
    ensures
        forall|k: int| 0 <= k < n ==> u64_bit(x, k) == bits@[off + k],
        forall|k: int| n <= k < 64 ==> !u64_bit(x, k),
{
    let total = bits.len();
    let mut x: u64 = 0;
    proof {
        assert forall|k: int| 0 <= k < 64 implies !u64_bit(0u64, k) by {
            lemma_zero_bit(k);
        }
    }
    let mut i: usize = 0;
    while i < n
        invariant
            n <= 64,
            off + n <= bits@.len(),
            total == bits@.len(),
            i <= n,
            forall|k: int| 0 <= k < i ==> u64_bit(x, k) == bits@[off + k],
            forall|k: int| i <= k < 64 ==> !u64_bit(x, k),
        decreases n - i,
    {
        if bits[off + i] {
            let ghost x0 = x;
            x = x | (1u64 << (i as u64));
            proof {
                assert forall|k: int| 0 <= k < 64 implies u64_bit(x, k) == if k == i {
                    true
                } else {
                    u64_bit(x0, k)
                } by {
                    lemma_u64_set_bit(x0, i as u64, k);
                }
            }
        }
        i += 1;
    }
    x
}

/// Decodes a canonical leaf encoding back into an account; the inverse of
/// `encode_account`, used for testing and debugging. Returns `None` exactly
/// when the input does not have the canonical length.
pub fn decode_account(bits: &Vec<bool>) -> (r: Option<Account>)
    ensures
        bits@.len() == LEAF_BITS ==> (r matches Some(a) && decode_rel(bits@, a)),
        bits@.len() != LEAF_BITS ==> r is None,
{
    if bits.len() != LEAF_BITS {
        return None;
    }
    let balance = Fe::from_limbs(limb_from_bits(bits, 0, 64), limb_from_bits(bits, 64, 64), 0, 0);
    let nonce = Fe::from_limbs(limb_from_bits(bits, 128, 32), 0, 0, 0);
    let pub_x = Fe::from_limbs(
        limb_from_bits(bits, 160, 64),
        limb_from_bits(bits, 224, 64),
        limb_from_bits(bits, 288, 64),
        limb_from_bits(bits, 352, 64),
    );
    let pub_y = Fe::from_limbs(
        limb_from_bits(bits, 416, 64),
        limb_from_bits(bits, 480, 64),
        limb_from_bits(bits, 544, 64),
        limb_from_bits(bits, 608, 64),
    );
    let a = Account { balance, nonce, pub_x, pub_y };
    proof {
        assert forall|k: int| 0 <= k < 64 implies !u64_bit(0u64, k) by {
            lemma_zero_bit(k);
        }
        assert(a.balance@.take(BALANCE_BITS as int) =~= bits@.subrange(0, 128)) by {
            assert forall|k: int| 0 <= k < 128 implies fe_bit(a.balance, k) == bits@[k] by {}
        }
        assert(a.nonce@.take(NONCE_BITS as int) =~= bits@.subrange(128, 160)) by {
            assert forall|k: int| 0 <= k < 32 implies fe_bit(a.nonce, k) == bits@[128 + k] by {}
        }
        assert(a.pub_x@ =~= bits@.subrange(160, 416)) by {
            assert forall|k: int| 0 <= k < 256 implies fe_bit(a.pub_x, k) == bits@[160 + k] by {}
        }
        assert(a.pub_y@ =~= bits@.subrange(416, 672)) by {
            assert forall|k: int| 0 <= k < 256 implies fe_bit(a.pub_y, k) == bits@[416 + k] by {}
        }
    }
    Some(a)
}

/// Law: decoding the canonical encoding of a fitting account returns that
/// account unchanged — the codec round-trips.
pub proof fn lemma_codec_round_trip(a: Account, d: Account)
    requires
        leaf_fits(a),
        decode_rel(encode_spec(a), d),
    ensures
        d == a,
{
    let bits = encode_spec(a);
    assert(bits.subrange(0, 128) =~= a.balance@.take(BALANCE_BITS as int));
    assert(bits.subrange(128, 160) =~= a.nonce@.take(NONCE_BITS as int));
    assert(bits.subrange(160, 416) =~= a.pub_x@);
    assert(bits.subrange(416, 672) =~= a.pub_y@);
    assert(d.balance@ =~= a.balance@) by {
        assert forall|i: int| 0 <= i < 256 implies d.balance@[i] == a.balance@[i] by {
            if i < 128 {
                assert(d.balance@.take(128)[i] == a.balance@.take(128)[i]);
            } else {
                assert(!fe_bit(d.balance, i));
                assert(!fe_bit(a.balance, i));
            }
        }
    }
    assert(d.nonce@ =~= a.nonce@) by {
        assert forall|i: int| 0 <= i < 256 implies d.nonce@[i] == a.nonce@[i] by {
            if i < 32 {
                assert(d.nonce@.take(32)[i] == a.nonce@.take(32)[i]);
            } else {
                assert(!fe_bit(d.nonce, i));
                assert(!fe_bit(a.nonce, i));
            }
        }
    }
    lemma_fe_bits_inj(d.balance, a.balance);
    lemma_fe_bits_inj(d.nonce, a.nonce);
    lemma_fe_bits_inj(d.pub_x, a.pub_x);
    lemma_fe_bits_inj(d.pub_y, a.pub_y);
}

} // verus!
