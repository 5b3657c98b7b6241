use vstd::prelude::*;

use crate::hasher::Digest;

verus! {

/// Longest bit string the Pedersen hash accepts: its fixed generator table
/// has 6 generators of 63 chunks of 3 bits, 6 of which the personalization
/// tag uses up.
pub const PEDERSEN_MAX_BITS: usize = 1128;

/// The Pedersen digest of a leaf's bit string, under the leaf tag.
/// A function of the bits alone; its value is fixed by the curve constants
/// of the hashing library and is not restated here.
pub uninterp spec fn pedersen_leaf_of(bits: Seq<bool>) -> Seq<u8>;

/// The Pedersen digest of an internal node's bit string, under the node
/// tag, which is distinct from the leaf tag.
pub uninterp spec fn pedersen_node_of(bits: Seq<bool>) -> Seq<u8>;

/// Relies on `sapling_crypto::pedersen_hash::pedersen_hash` with the
/// `NoteCommitment` personalization: a deterministic, domain-separated hash
/// of the given bits to a curve point. The point's affine `u` coordinate,
/// as its canonical 32-byte little-endian encoding, is the digest. The
/// library panics only when the bits outrun its generator table, which the
/// length bound rules out.
#[verifier::external_body]
pub(crate) fn pedersen_hash_leaf_bits(bits: &Vec<bool>) -> (d: Digest)
    requires
        bits@.len() <= PEDERSEN_MAX_BITS,
    ensures
        d.wf(),
        d@ == pedersen_leaf_of(bits@),
{
    let point = sapling_crypto::pedersen_hash::pedersen_hash(
        sapling_crypto::pedersen_hash::Personalization::NoteCommitment,
        bits.iter().copied(),
    );
    let affine = jubjub::AffinePoint::from(jubjub::ExtendedPoint::from(point));
    Digest { bytes: affine.get_u().to_bytes().to_vec() }
}

/// Relies on `sapling_crypto::pedersen_hash::pedersen_hash` with the
/// `MerkleTree(0)` personalization, whose six tag bits differ from
/// `NoteCommitment`'s, so node digests never collide with leaf digests of
/// the same bits. Result encoded as in `pedersen_hash_leaf_bits`.
#[verifier::external_body]
pub(crate) fn pedersen_hash_node_bits(bits: &Vec<bool>) -> (d: Digest)
    requires
        bits@.len() <= PEDERSEN_MAX_BITS,
    ensures
        d.wf(),
        d@ == pedersen_node_of(bits@),
{
    let point = sapling_crypto::pedersen_hash::pedersen_hash(
        sapling_crypto::pedersen_hash::Personalization::MerkleTree(0),
        bits.iter().copied(),
    );
    let affine = jubjub::AffinePoint::from(jubjub::ExtendedPoint::from(point));
    Digest { bytes: affine.get_u().to_bytes().to_vec() }
}

} // verus!
