use vstd::prelude::*;

use crate::codec::{encode_account, encode_err_spec, encode_spec, leaf_fits};
use crate::errors::SmtError;
use crate::field::{lemma_zero_fits, Fe};
use crate::hasher::{bytes_to_bits, Digest, Hasher};
use crate::pedersen::{pedersen_hash_leaf_bits, pedersen_hash_node_bits, pedersen_leaf_of,
    pedersen_node_of};

verus! {

/// One account leaf: the record committed at a tree index.
///
/// Every field must fit its declared width (`BALANCE_BITS`, `NONCE_BITS`,
/// `COORD_BITS`) before it can be encoded and hashed.
#[derive(Clone, Copy, PartialEq, Eq, Structural, Debug)]
pub struct Account {
    pub balance: Fe,
    pub nonce: Fe,
    pub pub_x: Fe,
    pub pub_y: Fe,
}

impl Account {
    /// The all-zero account, standing at every index never inserted.
    pub open spec fn default_spec() -> Account {
        Account {
            balance: Fe::zero_spec(),
            nonce: Fe::zero_spec(),
            pub_x: Fe::zero_spec(),
            pub_y: Fe::zero_spec(),
        }
    }

    pub fn new(balance: Fe, nonce: Fe, pub_x: Fe, pub_y: Fe) -> (r: Account)
        ensures
            r == (Account { balance, nonce, pub_x, pub_y }),
    {
        Account { balance, nonce, pub_x, pub_y }
    }
}

impl Default for Account {
    fn default() -> (r: Self)
        ensures
            r == Account::default_spec(),
    {
        Account {
            balance: Fe::zero(),
            nonce: Fe::zero(),
            pub_x: Fe::zero(),
            pub_y: Fe::zero(),
        }
    }
}

/// The default account can always be encoded and hashed.
pub proof fn lemma_default_leaf_fits()
    ensures
        leaf_fits(Account::default_spec()),
{
    lemma_zero_fits(crate::codec::BALANCE_BITS as int);
    lemma_zero_fits(crate::codec::NONCE_BITS as int);
}

/// The production hasher: Pedersen hashing of the canonical leaf encoding,
/// with one domain tag for leaves and another for internal nodes.
#[derive(Clone, Copy, PartialEq, Eq, Structural, Debug)]
pub struct AccountHasher;

impl AccountHasher {
    pub fn new() -> (r: AccountHasher)
        ensures
            r == AccountHasher,
    {
        AccountHasher
    }
}

impl Hasher for AccountHasher {
    open spec fn hashable(&self, a: Account) -> bool {
        leaf_fits(a)
    }

    open spec fn hash_err(&self, a: Account) -> SmtError {
        encode_err_spec(a)
    }

    open spec fn leaf_hash_spec(&self, a: Account) -> Seq<u8> {
        pedersen_leaf_of(encode_spec(a))
    }

    open spec fn compress_spec(&self, l: Seq<u8>, r: Seq<u8>) -> Seq<u8> {
        pedersen_node_of(bytes_to_bits(l) + bytes_to_bits(r))
    }

    fn hash(&self, a: &Account) -> (r: Result<Digest, SmtError>) {
        match encode_account(a) {
            Ok(bits) => Ok(pedersen_hash_leaf_bits(&bits)),
            Err(e) => Err(e),
        }
    }

    fn compress(&self, l: &Digest, r: &Digest) -> (d: Digest) {
        let mut bits = l.to_bits();
        let mut right_bits = r.to_bits();
        bits.append(&mut right_bits);
        pedersen_hash_node_bits(&bits)
    }

    fn empty_hash(&self) -> (d: Digest) {
        proof {
            lemma_default_leaf_fits();
        }
        let a = Account::default();
        match self.hash(&a) {
            Ok(d) => d,
            Err(_) => {
                proof {
                    assert(false);
                }
                Digest::from_vec(Vec::new())
            },
        }
    }
}

} // verus!
