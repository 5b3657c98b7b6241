use vstd::prelude::*;

use std::collections::HashMap;

use crate::account::Account;
use crate::errors::SmtError;
use crate::hasher::{Digest, Hasher};
use vstd::arithmetic::div_mod::{
    lemma_basic_div, lemma_div_basics, lemma_div_denominator, lemma_div_pos_is_pos,
    lemma_fundamental_div_mod, lemma_fundamental_div_mod_converse, lemma_mod_bound,
};
use vstd::arithmetic::mul::lemma_mul_inequality;
use vstd::arithmetic::power2::{
    lemma2_to64, lemma2_to64_rest, lemma_pow2_adds, lemma_pow2_pos, lemma_pow2_strictly_increases,
    pow2,
};
use vstd::bits::{lemma_u64_pow2_no_overflow, lemma_u64_shl_is_mul};

verus! {

broadcast use vstd::std_specs::hash::group_hash_axioms;

/// Deepest tree this implementation carries: node ids at depth `d` run up
/// to `2^(d+1)`, which must fit in a `u64` index.
pub const MAX_DEPTH: usize = 62;

/// The leaf standing at index `i`: the stored account, or the default
/// account at any index never inserted.
pub open spec fn leaf_at_spec(m: Map<u64, Account>, i: int) -> Account {
    if 0 <= i <= u64::MAX && m.contains_key(i as u64) {
        m[i as u64]
    } else {
        Account::default_spec()
    }
}

/// The node on a leaf's path at a given level: level 0 is the leaf itself,
/// each level up halves the position.
pub open spec fn node_of(i: int, level: nat) -> int {
    i / pow2(level) as int
}

/// The other child of a node's parent.
pub open spec fn sibling_of(p: int) -> int {
    if p % 2 == 0 {
        p + 1
    } else {
        p - 1
    }
}

/// The digest of the subtree rooted at position `pos` of `level`, over the
/// leaves of `m`: a pure function of the leaf map, and the meaning of every
/// cached hash in the tree.
pub open spec fn subtree_hash<H: Hasher>(h: H, m: Map<u64, Account>, level: nat, pos: int) -> Seq<
    u8,
>
    decreases level,
{
    if level == 0 {
        h.leaf_hash_spec(leaf_at_spec(m, pos))
    } else {
        h.compress_spec(
            subtree_hash(h, m, (level - 1) as nat, 2 * pos),
            subtree_hash(h, m, (level - 1) as nat, 2 * pos + 1),
        )
    }
}

/// The digest of a subtree all of whose leaves are the default account;
/// one constant per level.
pub open spec fn empty_subtree_hash<H: Hasher>(h: H, level: nat) -> Seq<u8>
    decreases level,
{
    if level == 0 {
        h.leaf_hash_spec(Account::default_spec())
    } else {
        h.compress_spec(
            empty_subtree_hash(h, (level - 1) as nat),
            empty_subtree_hash(h, (level - 1) as nat),
        )
    }
}

/// The cache key of the node at `(level, pos)`: heap numbering, so distinct
/// nodes of distinct levels get distinct keys.
spec fn node_id(depth: int, level: int, pos: int) -> u64 {
    (pow2((depth - level) as nat) + pos) as u64
}

/// A position on a leaf's path halves when the level goes up by one.
proof fn lemma_node_of_step(i: int, level: nat)
    requires
        0 <= i,
    ensures
        node_of(i, level) / 2 == node_of(i, level + 1),
{
    lemma_pow2_pos(level);
    lemma_div_denominator(i, pow2(level) as int, 2);
    lemma_pow2_adds(level, 1);
    lemma2_to64();
}

/// A leaf whose level-`level` node is a child of `p` has `p` as its node
/// one level up.
proof fn lemma_node_of_child(i: int, level: nat, p: int)
    requires
        0 <= i,
        node_of(i, level) == 2 * p || node_of(i, level) == 2 * p + 1,
    ensures
        node_of(i, level + 1) == p,
{
    lemma_node_of_step(i, level);
    if node_of(i, level) == 2 * p {
        lemma_fundamental_div_mod_converse(2 * p, 2, p, 0);
    } else {
        lemma_fundamental_div_mod_converse(2 * p + 1, 2, p, 1);
    }
}

/// A leaf's node at level 0 is the leaf index itself.
proof fn lemma_node_of_zero(i: int)
    requires
        0 <= i,
    ensures
        node_of(i, 0) == i,
{
    lemma2_to64();
    lemma_div_basics(i);
}

/// Within the index domain, path positions stay inside each level's width.
proof fn lemma_node_of_bound(i: int, level: nat, depth: nat)
    requires
        0 <= i < pow2(depth),
        level <= depth,
    ensures
        0 <= node_of(i, level) < pow2((depth - level) as nat),
{
    lemma_pow2_pos(level);
    lemma_div_pos_is_pos(i, pow2(level) as int);
    lemma_pow2_adds(level, (depth - level) as nat);
    if node_of(i, level) >= pow2((depth - level) as nat) {
        lemma_fundamental_div_mod(i, pow2(level) as int);
        lemma_mod_bound(i, pow2(level) as int);
        let q = i / pow2(level) as int;
        let a = pow2(level) as int;
        let b = pow2((depth - level) as nat) as int;
        let p = pow2(depth) as int;
        assert(i >= a * q);
        lemma_mul_inequality(b, q, a);
        assert(b * a <= q * a);
        assert(a * b == p);
        assert(false) by (nonlinear_arith)
            requires
                i >= a * q,
                b * a <= q * a,
                a * b == p,
                i < p,
        ;
    }
}

/// Node ids are injective over the valid `(level, pos)` pairs of one tree.
proof fn lemma_node_id_inj(depth: int, l1: int, p1: int, l2: int, p2: int)
    requires
        0 <= depth <= 62,
        0 <= l1 <= depth,
        0 <= p1 < pow2((depth - l1) as nat),
        0 <= l2 <= depth,
        0 <= p2 < pow2((depth - l2) as nat),
        node_id(depth, l1, p1) == node_id(depth, l2, p2),
    ensures
        l1 == l2,
        p1 == p2,
{
    let k1 = (depth - l1) as nat;
    let k2 = (depth - l2) as nat;
    lemma2_to64();
    lemma2_to64_rest();
    lemma_pow2_strictly_increases(k1, 63);
    lemma_pow2_strictly_increases(k2, 63);
    assert(pow2(k1) + p1 < 0x10000000000000000);
    assert(pow2(k2) + p2 < 0x10000000000000000);
    assert(pow2(k1) + p1 == pow2(k2) + p2);
    if k1 < k2 {
        lemma_pow2_adds(k1, 1);
        if k1 + 1 < k2 {
            lemma_pow2_strictly_increases((k1 + 1) as nat, k2);
        }
        assert(false);
    }
    if k2 < k1 {
        lemma_pow2_adds(k2, 1);
        if k2 + 1 < k1 {
            lemma_pow2_strictly_increases((k2 + 1) as nat, k1);
        }
        assert(false);
    }
}

/// Inserting a leaf outside a subtree leaves that subtree's digest as it
/// was.
proof fn lemma_subtree_frame<H: Hasher>(
    h: H,
    m: Map<u64, Account>,
    j: u64,
    v: Account,
    level: nat,
    pos: int,
)
    requires
        node_of(j as int, level) != pos,
    ensures
        subtree_hash(h, m.insert(j, v), level, pos) == subtree_hash(h, m, level, pos),
    decreases level,
{
    if level == 0 {
        lemma_node_of_zero(j as int);
        assert(leaf_at_spec(m.insert(j, v), pos) == leaf_at_spec(m, pos));
    } else {
        let lo = (level - 1) as nat;
        if node_of(j as int, lo) == 2 * pos {
            lemma_node_of_child(j as int, lo, pos);
            assert(false);
        }
        if node_of(j as int, lo) == 2 * pos + 1 {
            lemma_node_of_child(j as int, lo, pos);
            assert(false);
        }
        lemma_subtree_frame(h, m, j, v, lo, 2 * pos);
        lemma_subtree_frame(h, m, j, v, lo, 2 * pos + 1);
    }
}

/// A subtree containing no inserted leaf hashes to the per-level empty
/// constant.
proof fn lemma_subtree_empty<H: Hasher>(h: H, m: Map<u64, Account>, level: nat, pos: int)
    requires
        forall|i: u64| m.contains_key(i) ==> node_of(i as int, level) != pos,
    ensures
        subtree_hash(h, m, level, pos) == empty_subtree_hash(h, level),
    decreases level,
{
    if level == 0 {
        if 0 <= pos <= u64::MAX && m.contains_key(pos as u64) {
            lemma_node_of_zero(pos);
            assert(node_of(pos as u64 as int, 0) == pos);
            assert(false);
        }
        assert(leaf_at_spec(m, pos) == Account::default_spec());
    } else {
        let lo = (level - 1) as nat;
        assert forall|i: u64| m.contains_key(i) implies node_of(i as int, lo) != 2 * pos by {
            if node_of(i as int, lo) == 2 * pos {
                lemma_node_of_child(i as int, lo, pos);
            }
        }
        assert forall|i: u64| m.contains_key(i) implies node_of(i as int, lo) != 2 * pos + 1 by {
            if node_of(i as int, lo) == 2 * pos + 1 {
                lemma_node_of_child(i as int, lo, pos);
            }
        }
        lemma_subtree_empty(h, m, lo, 2 * pos);
        lemma_subtree_empty(h, m, lo, 2 * pos + 1);
    }
}

/// One level of the upward walk: compressing a node with its sibling, in
/// index-bit order, gives the parent's digest.
proof fn lemma_parent_step<H: Hasher>(h: H, m: Map<u64, Account>, level: nat, p: int)
    requires
        0 <= p,
    ensures
        subtree_hash(h, m, level + 1, p / 2) == if p % 2 == 0 {
            h.compress_spec(subtree_hash(h, m, level, p), subtree_hash(h, m, level, p + 1))
        } else {
            h.compress_spec(subtree_hash(h, m, level, p - 1), subtree_hash(h, m, level, p))
        },
{
    lemma_fundamental_div_mod(p, 2);
    lemma_mod_bound(p, 2);
    assert(subtree_hash(h, m, level + 1, p / 2) == h.compress_spec(
        subtree_hash(h, m, level, 2 * (p / 2)),
        subtree_hash(h, m, level, 2 * (p / 2) + 1),
    ));
}

/// `2^k` as a machine word.
fn pow2_u64(k: usize) -> (r: u64)
    requires
        k <= 63,
    ensures
        r == pow2(k as nat),
{
    proof {
        lemma_u64_pow2_no_overflow(k as nat);
        lemma_u64_shl_is_mul(1u64, k as u64);
    }
    1u64 << (k as u64)
}

/// The cache key of the node at `(level, pos)`, as stored.
fn node_id_exec(depth: usize, level: usize, pos: u64) -> (id: u64)
    requires
        depth <= 62,
        level <= depth,
        pos < pow2((depth - level) as nat),
    ensures
        id == node_id(depth as int, level as int, pos as int),
{
    proof {
        lemma_u64_pow2_no_overflow((depth - level) as nat);
        lemma_u64_shl_is_mul(1u64, (depth - level) as u64);
        lemma2_to64_rest();
        lemma_pow2_strictly_increases((depth - level) as nat, 63);
    }
    (1u64 << ((depth - level) as u64)) + pos
}

/// Folding a leaf digest up an authentication path: at each level the
/// accumulator is compressed with the next sibling, on the side the
/// position's low bit picks, exactly as an external verifier recomputes a
/// root from a membership witness.
pub open spec fn path_fold<H: Hasher>(h: H, acc: Seq<u8>, pos: int, sibs: Seq<Seq<u8>>) -> Seq<u8>
    decreases sibs.len(),
{
    if sibs.len() == 0 {
        acc
    } else {
        let next = if pos % 2 == 0 {
            h.compress_spec(acc, sibs[0])
        } else {
            h.compress_spec(sibs[0], acc)
        };
        path_fold(h, next, pos / 2, sibs.drop_first())
    }
}

/// The views of a sequence of digests.
pub open spec fn digest_views(s: Seq<Digest>) -> Seq<Seq<u8>> {
    s.map_values(|d: Digest| d@)
}

/// Folding a node's digest with the sibling digests above it climbs the
/// tree: the result is the digest of the ancestor `sibs.len()` levels up.
proof fn lemma_path_fold_subtree<H: Hasher>(
    h: H,
    m: Map<u64, Account>,
    level: nat,
    pos: int,
    sibs: Seq<Seq<u8>>,
)
    requires
        0 <= pos,
        forall|k: int|
            0 <= k < sibs.len() ==> sibs[k] == subtree_hash(
                h,
                m,
                (level + k) as nat,
                sibling_of(pos / pow2(k as nat) as int),
            ),
    ensures
        path_fold(h, subtree_hash(h, m, level, pos), pos, sibs) == subtree_hash(
            h,
            m,
            (level + sibs.len()) as nat,
            pos / pow2(sibs.len()) as int,
        ),
    decreases sibs.len(),
{
    lemma2_to64();
    lemma_div_basics(pos);
    if sibs.len() != 0 {
        lemma_parent_step(h, m, level, pos);
        assert(sibs[0] == subtree_hash(h, m, level, sibling_of(pos)));
        let sibs1 = sibs.drop_first();
        assert forall|k: int| 0 <= k < sibs1.len() implies sibs1[k] == subtree_hash(
            h,
            m,
            ((level + 1) + k) as nat,
            sibling_of((pos / 2) / pow2(k as nat) as int),
        ) by {
            lemma_pow2_pos(k as nat);
            lemma_div_denominator(pos, 2, pow2(k as nat) as int);
            lemma_pow2_adds(1, k as nat);
            assert(sibs1[k] == sibs[k + 1]);
        }
        lemma_div_pos_is_pos(pos, 2);
        lemma_path_fold_subtree(h, m, (level + 1) as nat, pos / 2, sibs1);
        lemma_pow2_pos((sibs.len() - 1) as nat);
        lemma_div_denominator(pos, 2, pow2((sibs.len() - 1) as nat) as int);
        lemma_pow2_adds(1, (sibs.len() - 1) as nat);
    }
}

/// Law: authentication-path consistency. Hashing the leaf standing at
/// `index` and folding it with the tree's sibling digests, in index-bit
/// order, reproduces the root digest.
pub proof fn lemma_auth_path_consistency<H: Hasher>(
    h: H,
    m: Map<u64, Account>,
    depth: nat,
    index: u64,
    sibs: Seq<Seq<u8>>,
)
    requires
        index < pow2(depth),
        sibs.len() == depth,
        forall|k: int|
            0 <= k < depth ==> sibs[k] == subtree_hash(
                h,
                m,
                k as nat,
                sibling_of(node_of(index as int, k as nat)),
            ),
    ensures
        path_fold(h, h.leaf_hash_spec(leaf_at_spec(m, index as int)), index as int, sibs)
            == subtree_hash(h, m, depth, 0),
{
    lemma_node_of_zero(index as int);
    lemma_path_fold_subtree(h, m, 0, index as int, sibs);
    lemma_pow2_pos(depth);
    lemma_basic_div(index as int, pow2(depth) as int);
}

/// Recomputes a root from one leaf and an authentication path, exactly as
/// an external verifier of a membership witness would: hash the leaf, then
/// compress upward with each sibling on the side the index's bits pick.
pub fn recompute_root<H: Hasher>(
    hasher: &H,
    index: u64,
    leaf: &Account,
    path: &Vec<Digest>,
) -> (r: Result<Digest, SmtError>)
    requires
        path@.len() <= MAX_DEPTH,
        forall|k: int| 0 <= k < path@.len() ==> (#[trigger] path@[k]).wf(),
    ensures
        index < pow2(path@.len() as nat) && hasher.hashable(*leaf) ==> (r matches Ok(d) && d.wf()
            && d@ == path_fold(
            *hasher,
            hasher.leaf_hash_spec(*leaf),
            index as int,
            digest_views(path@),
        )),
        index >= pow2(path@.len() as nat) ==> r == Err::<Digest, SmtError>(
            SmtError::IndexOutOfRange,
        ),
        index < pow2(path@.len() as nat) && !hasher.hashable(*leaf) ==> r == Err::<
            Digest,
            SmtError,
        >(hasher.hash_err(*leaf)),
{
    let depth = path.len();
    let cap = pow2_u64(depth);
    if index >= cap {
        return Err(SmtError::IndexOutOfRange);
    }
    let mut cur = match hasher.hash(leaf) {
        Ok(d) => d,
        Err(e) => {
            return Err(e);
        },
    };
    let ghost ms = digest_views(path@);
    let ghost acc0 = cur@;
    proof {
        assert(ms.skip(0) =~= ms);
    }
    let mut pos: u64 = index;
    let mut l: usize = 0;
    while l < depth
        invariant
            depth == path@.len(),
            depth <= MAX_DEPTH,
            ms == digest_views(path@),
            forall|k: int| 0 <= k < path@.len() ==> (#[trigger] path@[k]).wf(),
            l <= depth,
            cur.wf(),
            path_fold(*hasher, acc0, index as int, ms) == path_fold(
                *hasher,
                cur@,
                pos as int,
                ms.skip(l as int),
            ),
        decreases depth - l,
    {
        let ghost tail = ms.skip(l as int);
        proof {
            assert(tail[0] == path@[l as int]@);
            assert(tail.drop_first() =~= ms.skip(l as int + 1));
        }
        let sib: &Digest = &path[l];
        cur = if pos % 2 == 0 {
            hasher.compress(&cur, sib)
        } else {
            hasher.compress(sib, &cur)
        };
        pos = pos / 2;
        l += 1;
    }
    proof {
        assert(ms.skip(depth as int).len() == 0);
    }
    Ok(cur)
}

/// Law: determinism. The root is a function of the tree's depth, hasher
/// and leaf map alone; two trees that agree on those — for instance, two
/// trees built by the same sequence of inserts — have the same root.
pub proof fn lemma_root_deterministic<H: Hasher>(t1: &SparseMerkleTree<H>, t2: &SparseMerkleTree<H>)
    requires
        t1.spec_depth() == t2.spec_depth(),
        t1.spec_hasher() == t2.spec_hasher(),
        t1.leaves_map() == t2.leaves_map(),
    ensures
        t1.root_spec() == t2.root_spec(),
{
}

/// Law: the empty-tree constant. A tree with no inserted leaves has as its
/// root the `depth`-fold self-compression of the default leaf's digest.
pub proof fn lemma_empty_tree_root<H: Hasher>(t: &SparseMerkleTree<H>)
    requires
        t.leaves_map() == Map::<u64, Account>::empty(),
    ensures
        t.root_spec() == empty_subtree_hash(t.spec_hasher(), t.spec_depth() as nat),
{
    lemma_subtree_empty(t.spec_hasher(), t.leaves_map(), t.spec_depth() as nat, 0);
}

/// Law: overwrite correctness. Inserting at an index twice leaves the leaf
/// map — and with it the root — exactly as inserting only the second
/// value: no residue of the first remains.
pub proof fn lemma_overwrite_no_residue(m: Map<u64, Account>, i: u64, a: Account, b: Account)
    ensures
        m.insert(i, a).insert(i, b) == m.insert(i, b),
{
    assert(m.insert(i, a).insert(i, b) =~= m.insert(i, b));
}

/// The leaf map that a sequence of insert operations builds, first
/// operation first.
pub open spec fn apply_inserts(m: Map<u64, Account>, ops: Seq<(u64, Account)>) -> Map<u64, Account>
    decreases ops.len(),
{
    if ops.len() == 0 {
        m
    } else {
        apply_inserts(m.insert(ops[0].0, ops[0].1), ops.drop_first())
    }
}

/// No two operations address the same index.
pub open spec fn distinct_indices(ops: Seq<(u64, Account)>) -> bool {
    forall|i: int, j: int| 0 <= i < j < ops.len() ==> (#[trigger] ops[i]).0 != (#[trigger] ops[j]).0
}

/// Some operation addresses index `k`.
pub open spec fn ops_has_index(ops: Seq<(u64, Account)>, k: u64) -> bool {
    exists|j: int| 0 <= j < ops.len() && (#[trigger] ops[j]).0 == k
}

/// What a distinct-index insert sequence builds: untouched keys keep their
/// binding, and each operation's value is the final one at its index.
proof fn lemma_apply_inserts_char(m: Map<u64, Account>, ops: Seq<(u64, Account)>)
    requires
        distinct_indices(ops),
    ensures
        forall|k: u64|
            !ops_has_index(ops, k) ==> (#[trigger] apply_inserts(m, ops).contains_key(k)
                == m.contains_key(k) && (m.contains_key(k) ==> apply_inserts(m, ops)[k] == m[k])),
        forall|j: int|
            0 <= j < ops.len() ==> apply_inserts(m, ops).contains_key((#[trigger] ops[j]).0)
                && apply_inserts(m, ops)[ops[j].0] == ops[j].1,
    decreases ops.len(),
{
    if ops.len() != 0 {
        let m1 = m.insert(ops[0].0, ops[0].1);
        let tail = ops.drop_first();
        assert forall|i: int, j: int| 0 <= i < j < tail.len() implies (#[trigger] tail[i]).0 != (
        #[trigger] tail[j]).0 by {
            assert(tail[i] == ops[i + 1]);
            assert(tail[j] == ops[j + 1]);
        }
        lemma_apply_inserts_char(m1, tail);
        assert(apply_inserts(m, ops) == apply_inserts(m1, tail));
        assert forall|j: int| 0 <= j < ops.len() implies apply_inserts(m, ops).contains_key(
            (#[trigger] ops[j]).0,
        ) && apply_inserts(m, ops)[ops[j].0] == ops[j].1 by {
            if j == 0 {
                let k = ops[0].0;
                assert(!ops_has_index(tail, k)) by {
                    if ops_has_index(tail, k) {
                        let j2 = choose|j2: int| 0 <= j2 < tail.len() && (#[trigger] tail[j2]).0
                            == k;
                        assert(tail[j2] == ops[j2 + 1]);
                        assert(ops[0].0 == ops[j2 + 1].0);
                        assert(false);
                    }
                }
                assert(m1.contains_key(k) && m1[k] == ops[0].1);
                assert(apply_inserts(m1, tail).contains_key(k) == m1.contains_key(k));
                assert(apply_inserts(m1, tail)[k] == m1[k]);
            } else {
                assert(tail[j - 1] == ops[j]);
                assert(apply_inserts(m1, tail).contains_key((tail[j - 1]).0));
                assert(apply_inserts(m1, tail)[(tail[j - 1]).0] == (tail[j - 1]).1);
            }
        }
        assert forall|k: u64| !ops_has_index(ops, k) implies (
        #[trigger] apply_inserts(m, ops).contains_key(k) == m.contains_key(k) && (m.contains_key(k)
            ==> apply_inserts(m, ops)[k] == m[k])) by {
            assert(ops[0].0 != k) by {
                if ops[0].0 == k {
                    assert(ops_has_index(ops, k));
                }
            }
            assert(!ops_has_index(tail, k)) by {
                if ops_has_index(tail, k) {
                    let j2 = choose|j2: int| 0 <= j2 < tail.len() && (#[trigger] tail[j2]).0 == k;
                    assert(tail[j2] == ops[j2 + 1]);
                    assert(ops_has_index(ops, k));
                }
            }
            assert(apply_inserts(m1, tail).contains_key(k) == m1.contains_key(k));
            assert(m1.contains_key(k) == m.contains_key(k));
            if m.contains_key(k) {
                assert(apply_inserts(m1, tail)[k] == m1[k]);
                assert(m1[k] == m[k]);
            }
        }
    }
}

/// Law: order independence. Two insert sequences over distinct indices
/// that are permutations of each other build the same leaf map from any
/// starting map — and so, by determinism, the same root.
pub proof fn lemma_insert_order_independent(
    m: Map<u64, Account>,
    ops1: Seq<(u64, Account)>,
    ops2: Seq<(u64, Account)>,
)
    requires
        distinct_indices(ops1),
        ops1.to_multiset() == ops2.to_multiset(),
    ensures
        distinct_indices(ops2),
        apply_inserts(m, ops1) == apply_inserts(m, ops2),
{
    ops1.to_multiset_ensures();
    ops2.to_multiset_ensures();
    assert(ops1.no_duplicates()) by {
        assert forall|i: int, j: int|
            0 <= i < ops1.len() && 0 <= j < ops1.len() && i != j implies ops1[i] != ops1[j] by {
            if i < j {
                assert(ops1[i].0 != ops1[j].0);
            } else {
                assert(ops1[j].0 != ops1[i].0);
            }
        }
    }
    ops1.lemma_multiset_has_no_duplicates();
    ops2.lemma_multiset_has_no_duplicates_conv();
    assert forall|i: int, j: int| 0 <= i < j < ops2.len() implies (#[trigger] ops2[i]).0 != (
    #[trigger] ops2[j]).0 by {
        if ops2[i].0 == ops2[j].0 {
            assert(ops2[i] != ops2[j]);
            assert(ops2.contains(ops2[i]));
            assert(ops2.contains(ops2[j]));
            assert(ops2.to_multiset().count(ops2[i]) > 0);
            assert(ops2.to_multiset().count(ops2[j]) > 0);
            assert(ops1.to_multiset().count(ops2[i]) > 0);
            assert(ops1.to_multiset().count(ops2[j]) > 0);
            assert(ops1.contains(ops2[i]));
            assert(ops1.contains(ops2[j]));
            let i1 = choose|i1: int| 0 <= i1 < ops1.len() && ops1[i1] == ops2[i];
            let j1 = choose|j1: int| 0 <= j1 < ops1.len() && ops1[j1] == ops2[j];
            assert(i1 != j1);
            assert(ops1[i1].0 == ops1[j1].0);
            assert(false);
        }
    }
    lemma_apply_inserts_char(m, ops1);
    lemma_apply_inserts_char(m, ops2);
    assert(apply_inserts(m, ops1) =~= apply_inserts(m, ops2)) by {
        assert forall|k: u64| ops_has_index(ops1, k) implies ops_has_index(ops2, k) by {
            let j1 = choose|j1: int| 0 <= j1 < ops1.len() && (#[trigger] ops1[j1]).0 == k;
            assert(ops1.contains(ops1[j1]));
            assert(ops1.to_multiset().count(ops1[j1]) > 0);
            assert(ops2.to_multiset().count(ops1[j1]) > 0);
            assert(ops2.contains(ops1[j1]));
            let j2 = choose|j2: int| 0 <= j2 < ops2.len() && ops2[j2] == ops1[j1];
            assert((ops2[j2]).0 == k);
        }
        assert forall|k: u64| ops_has_index(ops2, k) implies ops_has_index(ops1, k) by {
            let j2 = choose|j2: int| 0 <= j2 < ops2.len() && (#[trigger] ops2[j2]).0 == k;
            assert(ops2.contains(ops2[j2]));
            assert(ops2.to_multiset().count(ops2[j2]) > 0);
            assert(ops1.to_multiset().count(ops2[j2]) > 0);
            assert(ops1.contains(ops2[j2]));
            let j1 = choose|j1: int| 0 <= j1 < ops1.len() && ops1[j1] == ops2[j2];
            assert((ops1[j1]).0 == k);
        }
        assert forall|k: u64| #[trigger] apply_inserts(m, ops1).contains_key(k)
            == apply_inserts(m, ops2).contains_key(k) && (apply_inserts(m, ops1).contains_key(k)
            ==> apply_inserts(m, ops1)[k] == apply_inserts(m, ops2)[k]) by {
            if ops_has_index(ops1, k) {
                let j1 = choose|j1: int| 0 <= j1 < ops1.len() && (#[trigger] ops1[j1]).0 == k;
                assert(ops1.contains(ops1[j1]));
                assert(ops1.to_multiset().count(ops1[j1]) > 0);
                assert(ops2.to_multiset().count(ops1[j1]) > 0);
                assert(ops2.contains(ops1[j1]));
                let j2 = choose|j2: int| 0 <= j2 < ops2.len() && ops2[j2] == ops1[j1];
                assert(apply_inserts(m, ops1)[k] == ops1[j1].1);
                assert(apply_inserts(m, ops2)[ops2[j2].0] == ops2[j2].1);
            } else {
                assert(!ops_has_index(ops2, k));
            }
        }
    }
}

/// Law: two trees of the same depth and hasher whose leaf maps were built
/// by permuted distinct-index insert sequences have the same root.
pub proof fn lemma_root_order_independent<H: Hasher>(
    t1: &SparseMerkleTree<H>,
    t2: &SparseMerkleTree<H>,
    ops1: Seq<(u64, Account)>,
    ops2: Seq<(u64, Account)>,
)
    requires
        t1.spec_depth() == t2.spec_depth(),
        t1.spec_hasher() == t2.spec_hasher(),
        distinct_indices(ops1),
        ops1.to_multiset() == ops2.to_multiset(),
        t1.leaves_map() == apply_inserts(Map::<u64, Account>::empty(), ops1),
        t2.leaves_map() == apply_inserts(Map::<u64, Account>::empty(), ops2),
    ensures
        t1.root_spec() == t2.root_spec(),
{
    lemma_insert_order_independent(Map::<u64, Account>::empty(), ops1, ops2);
    lemma_root_deterministic(t1, t2);
}

/// A fixed-depth sparse Merkle tree over account leaves.
///
/// Only explicitly inserted leaves are stored; every other index holds the
/// default account. A per-level table of empty-subtree digests and a cache
/// of recomputed path digests let `insert` touch O(depth) nodes. The root
/// is a pure function of the leaf map.
pub struct SparseMerkleTree<H: Hasher> {
    tree_depth: usize,
    hasher: H,
    leaves: HashMap<u64, Account>,
    cache: HashMap<u64, Digest>,
    empties: Vec<Digest>,
}

impl<H: Hasher> SparseMerkleTree<H> {
    /// The tree's depth: indices run over `[0, 2^depth)`.
    pub closed spec fn spec_depth(&self) -> int {
        self.tree_depth as int
    }

    /// The hasher the tree was built with.
    pub closed spec fn spec_hasher(&self) -> H {
        self.hasher
    }

    /// The tree's one piece of externally visible state: which account
    /// stands at which index.
    pub closed spec fn leaves_map(&self) -> Map<u64, Account> {
        self.leaves@
    }

    /// The root digest the tree is committed to.
    pub open spec fn root_spec(&self) -> Seq<u8> {
        subtree_hash(self.spec_hasher(), self.leaves_map(), self.spec_depth() as nat, 0)
    }

    /// Internal consistency: the empty-hash table and every cached digest
    /// agree with `subtree_hash`, and every stored leaf's whole path is
    /// cached.
    pub closed spec fn wf(&self) -> bool {
        &&& self.tree_depth <= MAX_DEPTH
        &&& self.empties@.len() == self.tree_depth + 1
        &&& (forall|l: int|
            0 <= l <= self.tree_depth ==> (#[trigger] self.empties@[l]).wf() && self.empties@[l]@
                == empty_subtree_hash(self.hasher, l as nat))
        &&& (forall|i: u64| #[trigger]
            self.leaves@.contains_key(i) ==> i < pow2(self.tree_depth as nat)
                && self.hasher.hashable(self.leaves@[i]))
        &&& (forall|l: int, p: int|
            0 <= l <= self.tree_depth && 0 <= p < pow2((self.tree_depth - l) as nat)
                && #[trigger] self.cache@.contains_key(node_id(self.tree_depth as int, l, p)) ==> {
                &&& self.cache@[node_id(self.tree_depth as int, l, p)].wf()
                &&& self.cache@[node_id(self.tree_depth as int, l, p)]@ == subtree_hash(
                    self.hasher,
                    self.leaves@,
                    l as nat,
                    p,
                )
            })
        &&& (forall|i: u64, l: int|
            self.leaves@.contains_key(i) && 0 <= l <= self.tree_depth
                ==> #[trigger] self.path_entry_cached(i, l))
    }

    /// Whether the cache holds the node on leaf `i`'s path at level `l`.
    closed spec fn path_entry_cached(&self, i: u64, l: int) -> bool {
        self.cache@.contains_key(node_id(self.tree_depth as int, l, node_of(i as int, l as nat)))
    }

    /// The tree's depth.
    pub fn depth(&self) -> (d: usize)
        ensures
            d == self.spec_depth(),
    {
        self.tree_depth
    }

    /// Builds an empty tree of the given depth: precomputes the `depth + 1`
    /// empty-subtree digests bottom-up, with `O(depth)` hash operations.
    /// Depth 0 is the permitted degenerate single-leaf tree; a depth whose
    /// index domain outruns `u64` is refused.
    pub fn new(depth: usize, hasher: H) -> (r: Result<SparseMerkleTree<H>, SmtError>)
        ensures
            depth <= MAX_DEPTH ==> (r matches Ok(t) && t.wf() && t.spec_depth() == depth
                && t.spec_hasher() == hasher && t.leaves_map() == Map::<u64, Account>::empty()),
            depth > MAX_DEPTH ==> r == Err::<SparseMerkleTree<H>, SmtError>(
                SmtError::DepthOutOfRange,
            ),
    {
        if depth > MAX_DEPTH {
            return Err(SmtError::DepthOutOfRange);
        }
        let e = hasher.empty_hash();
        let mut empties: Vec<Digest> = Vec::new();
        empties.push(e);
        let mut l: usize = 1;
        while l <= depth
            invariant
                depth <= MAX_DEPTH,
                1 <= l <= depth + 1,
                empties@.len() == l,
                forall|k: int|
                    0 <= k < l ==> (#[trigger] empties@[k]).wf() && empties@[k]@
                        == empty_subtree_hash(hasher, k as nat),
            decreases depth + 1 - l,
        {
            let prev: &Digest = &empties[l - 1];
            let next = hasher.compress(prev, prev);
            empties.push(next);
            l += 1;
        }
        let t = SparseMerkleTree {
            tree_depth: depth,
            hasher,
            leaves: HashMap::new(),
            cache: HashMap::new(),
            empties,
        };
        Ok(t)
    }

    /// The digest of the node at `(level, pos)`: the cached value where one
    /// exists, else the empty-subtree constant — correct either way.
    fn node_hash(&self, level: usize, pos: u64) -> (d: Digest)
        requires
            self.wf(),
            level <= self.spec_depth(),
            pos < pow2((self.spec_depth() - level) as nat),
        ensures
            d.wf(),
            d@ == subtree_hash(self.spec_hasher(), self.leaves_map(), level as nat, pos as int),
    {
        let id = node_id_exec(self.tree_depth, level, pos);
        match self.cache.get(&id) {
            Some(d) => {
                proof {
                    assert(self.cache@.contains_key(
                        node_id(self.tree_depth as int, level as int, pos as int),
                    ));
                }
                d.duplicate()
            },
            None => {
                proof {
                    assert forall|i: u64| self.leaves@.contains_key(i) implies node_of(
                        i as int,
                        level as nat,
                    ) != pos as int by {
                        if node_of(i as int, level as nat) == pos as int {
                            assert(self.path_entry_cached(i, level as int));
                        }
                    }
                    lemma_subtree_empty(self.hasher, self.leaves@, level as nat, pos as int);
                }
                let d: &Digest = &self.empties[level];
                d.duplicate()
            },
        }
    }

    /// The root: the digest of the whole index domain. The precomputed
    /// empty-tree constant before any insert, the cached root after.
    pub fn root_hash(&self) -> (d: Digest)
        requires
            self.wf(),
        ensures
            d.wf(),
            d@ == self.root_spec(),
    {
        proof {
            lemma2_to64();
        }
        self.node_hash(self.tree_depth, 0)
    }

    /// The digests of the `depth` sibling nodes along a leaf's path, leaf
    /// to root.
    fn sibling_hashes(&self, index: u64) -> (r: Vec<Digest>)
        requires
            self.wf(),
            index < pow2(self.spec_depth() as nat),
        ensures
            r@.len() == self.spec_depth(),
            forall|k: int|
                0 <= k < self.spec_depth() ==> (#[trigger] r@[k]).wf() && r@[k]@ == subtree_hash(
                    self.spec_hasher(),
                    self.leaves_map(),
                    k as nat,
                    sibling_of(node_of(index as int, k as nat)),
                ),
    {
        let depth = self.tree_depth;
        let mut sibs: Vec<Digest> = Vec::new();
        let mut pos: u64 = index;
        let mut l: usize = 0;
        proof {
            lemma_node_of_zero(index as int);
        }
        while l < depth
            invariant
                self.wf(),
                depth == self.spec_depth(),
                index < pow2(depth as nat),
                l <= depth,
                pos as int == node_of(index as int, l as nat),
                pos < pow2((depth - l) as nat),
                sibs@.len() == l,
                forall|k: int|
                    0 <= k < l ==> (#[trigger] sibs@[k]).wf() && sibs@[k]@ == subtree_hash(
                        self.spec_hasher(),
                        self.leaves_map(),
                        k as nat,
                        sibling_of(node_of(index as int, k as nat)),
                    ),
            decreases depth - l,
        {
            proof {
                lemma_pow2_adds((depth - l - 1) as nat, 1);
                lemma2_to64();
                lemma2_to64_rest();
                if depth - l < 62 {
                    lemma_pow2_strictly_increases((depth - l) as nat, 62);
                }
                assert(pow2((depth - l) as nat) == 2 * pow2((depth - l - 1) as nat));
            }
            let sib_pos = if pos % 2 == 0 {
                pos + 1
            } else {
                pos - 1
            };
            let s = self.node_hash(l, sib_pos);
            sibs.push(s);
            proof {
                lemma_node_of_step(index as int, l as nat);
                lemma_node_of_bound(index as int, (l + 1) as nat, depth as nat);
            }
            pos = pos / 2;
            l += 1;
        }
        sibs
    }

    /// Inserts (or overwrites) the leaf at `index` and recomputes the
    /// digests along its path, reusing cached or empty-subtree digests for
    /// every untouched sibling: `O(depth)` hash operations, never `2^depth`.
    /// Fails, leaving the tree unchanged, on an index outside the domain or
    /// a leaf whose encoding overflows a declared width.
    pub fn insert(&mut self, index: u64, leaf: Account) -> (r: Result<(), SmtError>)
        requires
            old(self).wf(),
        ensures
            final(self).wf(),
            final(self).spec_depth() == old(self).spec_depth(),
            final(self).spec_hasher() == old(self).spec_hasher(),
            index < pow2(old(self).spec_depth() as nat) && old(self).spec_hasher().hashable(leaf)
                ==> r == Ok::<(), SmtError>(()) && final(self).leaves_map() == old(
                self,
            ).leaves_map().insert(index, leaf),
            index >= pow2(old(self).spec_depth() as nat) ==> r == Err::<(), SmtError>(
                SmtError::IndexOutOfRange,
            ) && *final(self) == *old(self),
            index < pow2(old(self).spec_depth() as nat) && !old(self).spec_hasher().hashable(leaf)
                ==> r == Err::<(), SmtError>(old(self).spec_hasher().hash_err(leaf)) && *final(self)
                == *old(self),
    {
        let cap = pow2_u64(self.tree_depth);
        if index >= cap {
            return Err(SmtError::IndexOutOfRange);
        }
        let h = match self.hasher.hash(&leaf) {
            Ok(d) => d,
            Err(e) => {
                return Err(e);
            },
        };
        let sibs = self.sibling_hashes(index);
        let depth = self.tree_depth;
        let ghost d = depth as int;
        let ghost h_spec = self.hasher;
        let ghost m_old = self.leaves@;
        let _ = self.leaves.insert(index, leaf);
        let ghost m_new = self.leaves@;
        proof {
            assert(m_new == m_old.insert(index, leaf));
            // The sibling digests still stand: this insert touches no
            // sibling subtree.
            assert forall|k: int| 0 <= k < depth implies (#[trigger] sibs@[k])@ == subtree_hash(
                h_spec,
                m_new,
                k as nat,
                sibling_of(node_of(index as int, k as nat)),
            ) by {
                lemma_subtree_frame(
                    h_spec,
                    m_old,
                    index,
                    leaf,
                    k as nat,
                    sibling_of(node_of(index as int, k as nat)),
                );
            }
            // Cached digests off the new leaf's path still stand.
            assert forall|lv: int, p: int|
                0 <= lv <= d && 0 <= p < pow2((d - lv) as nat) && #[trigger] self.cache@.contains_key(
                    node_id(d, lv, p),
                ) && p != node_of(index as int, lv as nat) implies self.cache@[node_id(d, lv, p)]@
                == subtree_hash(h_spec, m_new, lv as nat, p) by {
                lemma_subtree_frame(h_spec, m_old, index, leaf, lv as nat, p);
            }
            lemma_node_of_zero(index as int);
            // Every stored leaf's path entry survives: the cache has not
            // changed yet.
            assert forall|i: u64, lv: int|
                m_old.contains_key(i) && 0 <= lv <= d implies #[trigger] self.cache@.contains_key(
                node_id(d, lv, node_of(i as int, lv as nat)),
            ) by {
                assert(old(self).path_entry_cached(i, lv));
            }
        }
        let mut cur = h;
        let mut pos2: u64 = index;
        let mut l2: usize = 0;
        while l2 < depth
            invariant
                old(self).wf(),
                depth == old(self).tree_depth,
                self.tree_depth == depth,
                depth <= MAX_DEPTH,
                d == depth as int,
                self.hasher == h_spec,
                h_spec == old(self).hasher,
                self.empties == old(self).empties,
                self.leaves@ == m_new,
                m_new == m_old.insert(index, leaf),
                m_old == old(self).leaves@,
                index < pow2(depth as nat),
                h_spec.hashable(leaf),
                l2 <= depth,
                pos2 as int == node_of(index as int, l2 as nat),
                pos2 < pow2((depth - l2) as nat),
                cur.wf(),
                cur@ == subtree_hash(h_spec, m_new, l2 as nat, pos2 as int),
                sibs@.len() == depth,
                forall|k: int|
                    0 <= k < depth ==> (#[trigger] sibs@[k]).wf() && sibs@[k]@ == subtree_hash(
                        h_spec,
                        m_new,
                        k as nat,
                        sibling_of(node_of(index as int, k as nat)),
                    ),
                forall|lv: int, p: int|
                    0 <= lv <= d && 0 <= p < pow2((d - lv) as nat)
                        && #[trigger] self.cache@.contains_key(node_id(d, lv, p)) ==> {
                        &&& self.cache@[node_id(d, lv, p)].wf()
                        &&& (!(p == node_of(index as int, lv as nat) && lv >= l2)
                            ==> self.cache@[node_id(d, lv, p)]@ == subtree_hash(
                            h_spec,
                            m_new,
                            lv as nat,
                            p,
                        ))
                    },
                forall|lv: int|
                    0 <= lv < l2 ==> #[trigger] self.cache@.contains_key(
                        node_id(d, lv, node_of(index as int, lv as nat)),
                    ),
                forall|i: u64, lv: int|
                    m_old.contains_key(i) && 0 <= lv <= d ==> #[trigger] self.cache@.contains_key(
                        node_id(d, lv, node_of(i as int, lv as nat)),
                    ),
            decreases depth - l2,
        {
            let id = node_id_exec(depth, l2, pos2);
            let dup = cur.duplicate();
            let ghost cache_before = self.cache@;
            let _ = self.cache.insert(id, dup);
            proof {
                assert forall|lv: int, p: int|
                    0 <= lv <= d && 0 <= p < pow2((d - lv) as nat)
                        && #[trigger] self.cache@.contains_key(node_id(d, lv, p)) implies {
                    &&& self.cache@[node_id(d, lv, p)].wf()
                    &&& (!(p == node_of(index as int, lv as nat) && lv >= l2 + 1)
                        ==> self.cache@[node_id(d, lv, p)]@ == subtree_hash(
                        h_spec,
                        m_new,
                        lv as nat,
                        p,
                    ))
                } by {
                    if node_id(d, lv, p) == id {
                        lemma_node_id_inj(d, lv, p, l2 as int, pos2 as int);
                    } else {
                        assert(cache_before.contains_key(node_id(d, lv, p)));
                    }
                }
                assert forall|i: u64, lv: int|
                    m_old.contains_key(i) && 0 <= lv <= d implies
                #[trigger] self.cache@.contains_key(
                    node_id(d, lv, node_of(i as int, lv as nat)),
                ) by {
                    assert(cache_before.contains_key(node_id(d, lv, node_of(i as int, lv as nat))));
                }
            }
            let sib: &Digest = &sibs[l2];
            proof {
                lemma_parent_step(h_spec, m_new, l2 as nat, pos2 as int);
                lemma_node_of_step(index as int, l2 as nat);
                lemma_node_of_bound(index as int, (l2 + 1) as nat, depth as nat);
            }
            cur = if pos2 % 2 == 0 {
                self.hasher.compress(&cur, sib)
            } else {
                self.hasher.compress(sib, &cur)
            };
            pos2 = pos2 / 2;
            l2 += 1;
        }
        proof {
            lemma_basic_div(index as int, pow2(depth as nat) as int);
        }
        let root_id = node_id_exec(depth, depth, pos2);
        let ghost cache_before = self.cache@;
        let _ = self.cache.insert(root_id, cur);
        proof {
            assert forall|lv: int, p: int|
                0 <= lv <= d && 0 <= p < pow2((d - lv) as nat)
                    && #[trigger] self.cache@.contains_key(node_id(d, lv, p)) implies {
                &&& self.cache@[node_id(d, lv, p)].wf()
                &&& self.cache@[node_id(d, lv, p)]@ == subtree_hash(h_spec, m_new, lv as nat, p)
            } by {
                if node_id(d, lv, p) == node_id(d, d, 0) {
                    lemma_node_id_inj(d, lv, p, d, 0);
                } else {
                    assert(cache_before.contains_key(node_id(d, lv, p)));
                    if p == node_of(index as int, lv as nat) && lv >= depth {
                        assert(lv == d && p == 0);
                        assert(false);
                    }
                }
            }
            assert forall|i: u64, lv: int|
                m_new.contains_key(i) && 0 <= lv <= self.tree_depth implies
                #[trigger] self.path_entry_cached(i, lv) by {
                if i == index {
                    if lv < depth {
                        assert(cache_before.contains_key(
                            node_id(d, lv, node_of(index as int, lv as nat)),
                        ));
                    }
                    assert(self.cache@.contains_key(node_id(d, lv, node_of(i as int, lv as nat))));
                } else {
                    assert(m_old.contains_key(i));
                    assert(cache_before.contains_key(node_id(d, lv, node_of(i as int, lv as nat))));
                    assert(self.cache@.contains_key(node_id(d, lv, node_of(i as int, lv as nat))));
                }
            }
            assert forall|i: u64| #[trigger] m_new.contains_key(i) implies i < pow2(
                depth as nat,
            ) && h_spec.hashable(m_new[i]) by {
                if i != index {
                    assert(m_old.contains_key(i));
                }
            }
            assert(self.wf());
        }
        Ok(())
    }

    /// The ordered sibling digests from `index`'s leaf to the root, each
    /// sourced exactly as `insert` sources them; the membership witness an
    /// external proof generator consumes. Mutates nothing.
    pub fn authentication_path(&self, index: u64) -> (r: Result<Vec<Digest>, SmtError>)
        requires
            self.wf(),
        ensures
            index < pow2(self.spec_depth() as nat) ==> (r matches Ok(path) && path@.len()
                == self.spec_depth() && forall|k: int|
                0 <= k < self.spec_depth() ==> (#[trigger] path@[k]).wf() && path@[k]@
                    == subtree_hash(
                    self.spec_hasher(),
                    self.leaves_map(),
                    k as nat,
                    sibling_of(node_of(index as int, k as nat)),
                )),
            index >= pow2(self.spec_depth() as nat) ==> r == Err::<Vec<Digest>, SmtError>(
                SmtError::IndexOutOfRange,
            ),
    {
        let cap = pow2_u64(self.tree_depth);
        if index >= cap {
            return Err(SmtError::IndexOutOfRange);
        }
        Ok(self.sibling_hashes(index))
    }

    /// The account at `index`: the stored leaf, or the default account at
    /// an index never inserted. Fails only on an index outside the domain.
    pub fn get(&self, index: u64) -> (r: Result<Account, SmtError>)
        requires
            self.wf(),
        ensures
            index < pow2(self.spec_depth() as nat) ==> r == Ok::<Account, SmtError>(
                leaf_at_spec(self.leaves_map(), index as int),
            ),
            index >= pow2(self.spec_depth() as nat) ==> r == Err::<Account, SmtError>(
                SmtError::IndexOutOfRange,
            ),
    {
        let cap = pow2_u64(self.tree_depth);
        if index >= cap {
            return Err(SmtError::IndexOutOfRange);
        }
        match self.leaves.get(&index) {
            Some(a) => Ok(*a),
            None => Ok(Account::default()),
        }
    }
}

} // verus!
