use plasma::account::{Account, AccountHasher};
use plasma::errors::SmtError;
use plasma::field::Fe;
use plasma::hasher::{Hasher, TestFastHasher};
use plasma::tree::{recompute_root, SparseMerkleTree};

fn hasher() -> AccountHasher {
    AccountHasher::new()
}

fn new_tree(depth: usize) -> SparseMerkleTree<AccountHasher> {
    SparseMerkleTree::new(depth, hasher()).unwrap()
}

fn leaf_with_nonce(n: u64) -> Account {
    Account {
        balance: Fe::zero(),
        nonce: Fe::from_u64(n),
        pub_x: Fe::zero(),
        pub_y: Fe::zero(),
    }
}

#[test]
fn test_account_merkle_tree() {
    let mut tree = new_tree(3);
    let acc = Account {
        balance: Fe::zero(),
        nonce: Fe::one(),
        pub_x: Fe::one(),
        pub_y: Fe::one(),
    };
    tree.insert(0, acc).unwrap();
}

#[test]
fn empty_tree_root_is_three_fold_self_compression() {
    let tree = new_tree(3);
    let h = hasher();
    let e = h.hash(&Account::default()).unwrap();
    let l1 = h.compress(&e, &e);
    let l2 = h.compress(&l1, &l1);
    let l3 = h.compress(&l2, &l2);
    assert_eq!(tree.root_hash(), l3);
}

#[test]
fn empty_hash_equals_hash_of_default_leaf() {
    let h = hasher();
    assert_eq!(h.empty_hash(), h.hash(&Account::default()).unwrap());
}

#[test]
fn digest_bytes_and_equality_agree() {
    let h = hasher();
    let e = h.empty_hash();
    let d = h.hash(&leaf_with_nonce(1)).unwrap();
    assert!(e.eq_bytes(&h.empty_hash()));
    assert!(!e.eq_bytes(&d));
    assert_eq!(e.to_bytes().len(), 32);
    assert_eq!(e.to_bytes(), h.empty_hash().to_bytes());
    assert_ne!(e.to_bytes(), d.to_bytes());
}

#[test]
fn single_insert_changes_root_and_depends_on_index() {
    let empty_root = new_tree(3).root_hash();

    let mut t0 = new_tree(3);
    t0.insert(0, leaf_with_nonce(1)).unwrap();
    let r0 = t0.root_hash();

    let mut t1 = new_tree(3);
    t1.insert(1, leaf_with_nonce(1)).unwrap();
    let r1 = t1.root_hash();

    assert_ne!(r0, empty_root);
    assert_ne!(r1, empty_root);
    assert_ne!(r0, r1);
}

#[test]
fn same_insert_sequence_gives_same_root() {
    let mut t1 = new_tree(4);
    let mut t2 = new_tree(4);
    for (i, n) in [(0u64, 7u64), (5, 9), (3, 11)] {
        t1.insert(i, leaf_with_nonce(n)).unwrap();
        t2.insert(i, leaf_with_nonce(n)).unwrap();
    }
    assert_eq!(t1.root_hash(), t2.root_hash());
}

#[test]
fn insert_order_does_not_matter() {
    let ops = [(0u64, 7u64), (5, 9), (3, 11), (15, 2)];
    let mut t1 = new_tree(4);
    for (i, n) in ops {
        t1.insert(i, leaf_with_nonce(n)).unwrap();
    }
    let mut t2 = new_tree(4);
    for (i, n) in ops.iter().rev() {
        t2.insert(*i, leaf_with_nonce(*n)).unwrap();
    }
    assert_eq!(t1.root_hash(), t2.root_hash());
}

#[test]
fn overwrite_leaves_no_residue() {
    let mut t1 = new_tree(3);
    t1.insert(2, leaf_with_nonce(1)).unwrap();
    t1.insert(2, leaf_with_nonce(2)).unwrap();

    let mut t2 = new_tree(3);
    t2.insert(2, leaf_with_nonce(2)).unwrap();

    assert_eq!(t1.root_hash(), t2.root_hash());
}

#[test]
fn overwriting_with_default_restores_empty_root() {
    let empty_root = new_tree(3).root_hash();
    let mut t = new_tree(3);
    t.insert(4, leaf_with_nonce(5)).unwrap();
    assert_ne!(t.root_hash(), empty_root);
    t.insert(4, Account::default()).unwrap();
    assert_eq!(t.root_hash(), empty_root);
}

#[test]
fn get_returns_stored_leaf_or_default() {
    let mut t = new_tree(3);
    let leaf = leaf_with_nonce(42);
    t.insert(6, leaf).unwrap();
    assert_eq!(t.get(6).unwrap(), leaf);
    assert_eq!(t.get(1).unwrap(), Account::default());
    assert_eq!(t.get(8), Err(SmtError::IndexOutOfRange));
}

#[test]
fn insert_rejects_index_outside_domain() {
    let before = new_tree(3).root_hash();
    let mut t = new_tree(3);
    assert_eq!(t.insert(8, leaf_with_nonce(1)), Err(SmtError::IndexOutOfRange));
    assert_eq!(t.root_hash(), before);
}

#[test]
fn new_rejects_oversized_depth() {
    assert!(matches!(
        SparseMerkleTree::new(63, hasher()),
        Err(SmtError::DepthOutOfRange)
    ));
}

#[test]
fn depth_zero_tree_root_is_leaf_hash() {
    let mut t = new_tree(0);
    assert_eq!(t.root_hash(), hasher().hash(&Account::default()).unwrap());
    let leaf = leaf_with_nonce(3);
    t.insert(0, leaf).unwrap();
    assert_eq!(t.root_hash(), hasher().hash(&leaf).unwrap());
}

#[test]
fn authentication_path_recomputes_root() {
    let mut t = new_tree(3);
    t.insert(0, leaf_with_nonce(7)).unwrap();
    t.insert(5, leaf_with_nonce(9)).unwrap();
    t.insert(3, leaf_with_nonce(11)).unwrap();
    let root = t.root_hash();
    for index in 0u64..8 {
        let path = t.authentication_path(index).unwrap();
        assert_eq!(path.len(), 3);
        let leaf = t.get(index).unwrap();
        let recomputed = recompute_root(&hasher(), index, &leaf, &path).unwrap();
        assert_eq!(recomputed, root);
    }
}

#[test]
fn authentication_path_rejects_index_outside_domain() {
    let t = new_tree(3);
    assert!(matches!(
        t.authentication_path(8),
        Err(SmtError::IndexOutOfRange)
    ));
}

#[test]
fn tree_accepts_a_substitute_hasher() {
    let mut t1 = SparseMerkleTree::new(16, TestFastHasher::new()).unwrap();
    let mut t2 = SparseMerkleTree::new(16, TestFastHasher::new()).unwrap();
    for i in 0u64..200 {
        t1.insert(i * 37 % 65536, leaf_with_nonce(i)).unwrap();
    }
    for i in (0u64..200).rev() {
        t2.insert(i * 37 % 65536, leaf_with_nonce(i)).unwrap();
    }
    assert_eq!(t1.root_hash(), t2.root_hash());

    let root = t1.root_hash();
    let index = 37u64;
    let path = t1.authentication_path(index).unwrap();
    let leaf = t1.get(index).unwrap();
    let h = TestFastHasher::new();
    assert_eq!(recompute_root(&h, index, &leaf, &path).unwrap(), root);
}

#[test]
fn insert_rejects_overflowing_leaf_and_keeps_root() {
    let mut t = new_tree(3);
    t.insert(1, leaf_with_nonce(5)).unwrap();
    let before = t.root_hash();
    let bad = Account {
        balance: Fe::from_limbs(0, 0, 1, 0),
        nonce: Fe::zero(),
        pub_x: Fe::zero(),
        pub_y: Fe::zero(),
    };
    let r = t.insert(2, bad);
    assert!(matches!(
        r,
        Err(SmtError::EncodingOverflow { field: plasma::errors::LeafField::Balance })
    ));
    assert_eq!(t.root_hash(), before);
}
