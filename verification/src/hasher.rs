use vstd::prelude::*;

use crate::account::Account;
use crate::errors::{LeafField, SmtError};

verus! {

/// Bit `i` (little-endian) of one byte.
pub open spec fn byte_bit(b: u8, i: int) -> bool
    recommends
        0 <= i < 8,
{
    (b >> (i as u8)) & 1 == 1
}

/// The little-endian bit sequence of a byte sequence.
pub open spec fn bytes_to_bits(s: Seq<u8>) -> Seq<bool> {
    Seq::new(s.len() * 8, |i: int| byte_bit(s[i / 8], i % 8))
}

/// A hash value: the canonical 32-byte little-endian encoding of a field
/// element produced by a hasher.
#[derive(PartialEq, Eq, Debug)]
pub struct Digest {
    pub(crate) bytes: Vec<u8>,
}

impl View for Digest {
    type V = Seq<u8>;

    closed spec fn view(&self) -> Seq<u8> {
        self.bytes@
    }
}

impl Digest {
    /// A digest always carries exactly 32 bytes.
    pub open spec fn wf(&self) -> bool {
        self@.len() == 32
    }

    pub(crate) fn from_vec(bytes: Vec<u8>) -> (r: Digest)
        ensures
            r@ == bytes@,
    {
        Digest { bytes }
    }

    /// A fresh digest with the same bytes.
    pub fn duplicate(&self) -> (r: Digest)
        ensures
            r@ == self@,
    {
        let mut bytes: Vec<u8> = Vec::new();
        let mut i: usize = 0;
        let n = self.bytes.len();
        while i < n
            invariant
                n == self@.len(),
                i <= n,
                bytes@ == self@.take(i as int),
            decreases n - i,
        {
            bytes.push(self.bytes[i]);
            proof {
                assert(self@.take(i + 1) =~= self@.take(i as int).push(self@[i as int]));
            }
            i += 1;
        }
        proof {
            assert(self@.take(n as int) =~= self@);
        }
        Digest { bytes }
    }

    /// The digest's bytes, for callers that hand the root onward.
    pub fn to_bytes(&self) -> (r: Vec<u8>)
        ensures
            r@ == self@,
    {
        let d = self.duplicate();
        d.bytes
    }

    /// Byte-for-byte equality.
    pub fn eq_bytes(&self, other: &Digest) -> (r: bool)
        ensures
            r == (self@ == other@),
    {
        if self.bytes.len() != other.bytes.len() {
            proof {
                assert(self@.len() != other@.len());
            }
            return false;
        }
        let n = self.bytes.len();
        let mut i: usize = 0;
        while i < n
            invariant
                n == self@.len(),
                n == other@.len(),
                i <= n,
                forall|k: int| 0 <= k < i ==> self@[k] == other@[k],
            decreases n - i,
        {
            if self.bytes[i] != other.bytes[i] {
                return false;
            }
            i += 1;
        }
        proof {
            assert(self@ =~= other@);
        }
        true
    }

    /// The 256 bits of the digest, little-endian, byte by byte; the
    /// fixed-width encoding that `compress` concatenates.
    pub fn to_bits(&self) -> (r: Vec<bool>)
        requires
            self.wf(),
        ensures
            r@ == bytes_to_bits(self@),
            r@.len() == 256,
    {
        let mut r: Vec<bool> = Vec::new();
        let mut i: usize = 0;
        while i < 256
            invariant
                self@.len() == 32,
                i <= 256,
                r@.len() == i,
                forall|k: int| 0 <= k < i ==> r@[k] == bytes_to_bits(self@)[k],
            decreases 256 - i,
        {
            let byte = self.bytes[i / 8];
            let b = (byte >> ((i % 8) as u8)) & 1 == 1;
            r.push(b);
            i += 1;
        }
        proof {
            assert(r@ =~= bytes_to_bits(self@));
        }
        r
    }
}

/// The hashing capability the tree is built over.
///
/// A hasher is a stateless strategy: the same leaf and the same child pair
/// always produce the same digest, described exactly by the spec functions.
/// `hash` refuses a leaf it cannot encode, naming the offending field.
pub trait Hasher: Sized {
    /// Whether the hasher can encode and hash this leaf.
    spec fn hashable(&self, a: Account) -> bool;

    /// The error reported for a leaf that cannot be hashed.
    spec fn hash_err(&self, a: Account) -> SmtError;

    /// The digest of one leaf.
    spec fn leaf_hash_spec(&self, a: Account) -> Seq<u8>;

    /// The digest of a pair of child digests.
    spec fn compress_spec(&self, l: Seq<u8>, r: Seq<u8>) -> Seq<u8>;

    /// Hashes one account leaf.
    fn hash(&self, a: &Account) -> (r: Result<Digest, SmtError>)
        ensures
            self.hashable(*a) ==> (r matches Ok(d) && d.wf() && d@ == self.leaf_hash_spec(*a)),
            !self.hashable(*a) ==> r == Err::<Digest, SmtError>(self.hash_err(*a)),
    ;

    /// Combines two child digests into their parent's digest.
    fn compress(&self, l: &Digest, r: &Digest) -> (d: Digest)
        requires
            l.wf(),
            r.wf(),
        ensures
            d.wf(),
            d@ == self.compress_spec(l@, r@),
    ;

    /// The digest of the default (all-zero) leaf; equals `hash` of it.
    fn empty_hash(&self) -> (d: Digest)
        ensures
            self.hashable(Account::default_spec()),
            d.wf(),
            d@ == self.leaf_hash_spec(Account::default_spec()),
    ;
}

/// The little-endian bytes of one limb.
pub open spec fn u64_le_bytes(x: u64) -> Seq<u8> {
    Seq::new(8, |i: int| (x >> ((8 * i) as u64)) as u8)
}

/// A cheap, non-cryptographic hasher for tests: it mixes only the low limb
/// of each account field and adds digests byte by byte. It accepts every
/// leaf and substitutes for the Pedersen hasher wherever a test does not
/// care about collision resistance.
#[derive(Clone, Copy, PartialEq, Eq, Structural, Debug)]
pub struct TestFastHasher;

impl TestFastHasher {
    pub fn new() -> (r: TestFastHasher)
        ensures
            r == TestFastHasher,
    {
        TestFastHasher
    }
}

/// Appends the little-endian bytes of `x`.
fn push_u64_le(out: &mut Vec<u8>, x: u64)
    ensures
        final(out)@ == old(out)@ + u64_le_bytes(x),
{
    let mut i: usize = 0;
    while i < 8
        invariant
            i <= 8,
            out@ == old(out)@ + u64_le_bytes(x).take(i as int),
        decreases 8 - i,
    {
        let b = #[verifier::truncate] ((x >> ((8 * i) as u64)) as u8);
        out.push(b);
        proof {
            assert(u64_le_bytes(x).take(i + 1) =~= u64_le_bytes(x).take(i as int).push(
                u64_le_bytes(x)[i as int],
            ));
            assert(old(out)@ + u64_le_bytes(x).take(i + 1) =~= (old(out)@ + u64_le_bytes(x).take(
                i as int,
            )).push(u64_le_bytes(x)[i as int]));
        }
        i += 1;
    }
    proof {
        assert(u64_le_bytes(x).take(8) =~= u64_le_bytes(x));
    }
}

impl Hasher for TestFastHasher {
    open spec fn hashable(&self, a: Account) -> bool {
        true
    }

    // Never reported: this hasher accepts every leaf.
    open spec fn hash_err(&self, a: Account) -> SmtError {
        SmtError::EncodingOverflow { field: LeafField::Balance }
    }

    open spec fn leaf_hash_spec(&self, a: Account) -> Seq<u8> {
        u64_le_bytes(a.balance.l0) + u64_le_bytes(a.nonce.l0) + u64_le_bytes(a.pub_x.l0)
            + u64_le_bytes(a.pub_y.l0)
    }

    open spec fn compress_spec(&self, l: Seq<u8>, r: Seq<u8>) -> Seq<u8> {
        Seq::new(32, |j: int| ((l[j] + r[j] + j) % 256) as u8)
    }

    fn hash(&self, a: &Account) -> (r: Result<Digest, SmtError>) {
        let mut bytes: Vec<u8> = Vec::new();
        push_u64_le(&mut bytes, a.balance.l0);
        push_u64_le(&mut bytes, a.nonce.l0);
        push_u64_le(&mut bytes, a.pub_x.l0);
        push_u64_le(&mut bytes, a.pub_y.l0);
        proof {
            assert(bytes@ =~= self.leaf_hash_spec(*a));
        }
        Ok(Digest { bytes })
    }

    fn compress(&self, l: &Digest, r: &Digest) -> (d: Digest) {
        let mut bytes: Vec<u8> = Vec::new();
        let mut j: usize = 0;
        while j < 32
            invariant
                l@.len() == 32,
                r@.len() == 32,
                j <= 32,
                bytes@.len() == j,
                forall|k: int| 0 <= k < j ==> bytes@[k] == self.compress_spec(l@, r@)[k],
            decreases 32 - j,
        {
            let sum: usize = l.bytes[j] as usize + r.bytes[j] as usize + j;
            let b = #[verifier::truncate] ((sum % 256) as u8);
            bytes.push(b);
            j += 1;
        }
        proof {
            assert(bytes@ =~= self.compress_spec(l@, r@));
        }
        Digest { bytes }
    }

    fn empty_hash(&self) -> (d: Digest) {
        match self.hash(&Account::default()) {
            Ok(d) => d,
            Err(_) => {
                proof {
                    assert(false);
                }
                Digest::from_vec(Vec::new())
            },
        }
    }
}

} // verus!
