use plasma::account::Account;
use plasma::codec::{decode_account, encode_account, BALANCE_BITS, COORD_BITS, LEAF_BITS,
    NONCE_BITS};
use plasma::errors::{LeafField, SmtError};
use plasma::field::Fe;

#[test]
fn declared_widths_are_the_frozen_layout() {
    assert_eq!(BALANCE_BITS, 128);
    assert_eq!(NONCE_BITS, 32);
    assert_eq!(COORD_BITS, 256);
    assert_eq!(LEAF_BITS, 672);
}

#[test]
fn encoding_layout_is_little_endian_and_ordered() {
    let a = Account {
        balance: Fe::from_u64(5),
        nonce: Fe::from_u64(3),
        pub_x: Fe::zero(),
        pub_y: Fe::from_u64(1),
    };
    let bits = encode_account(&a).unwrap();
    assert_eq!(bits.len(), 672);
    // balance = 5: bits 0 and 2 of the first field
    assert!(bits[0] && !bits[1] && bits[2] && !bits[3]);
    // nonce = 3: bits 0 and 1 of the second field, at offset 128
    assert!(bits[128] && bits[129] && !bits[130]);
    // pub_x all zero at offset 160
    assert!(bits[160..416].iter().all(|b| !b));
    // pub_y = 1: lowest bit of the fourth field, at offset 416
    assert!(bits[416]);
    assert!(bits[417..672].iter().all(|b| !b));
}

#[test]
fn codec_round_trips_representable_accounts() {
    let cases = [
        Account::default(),
        Account {
            // The widest representable balance and nonce.
            balance: Fe::from_limbs(u64::MAX, u64::MAX, 0, 0),
            nonce: Fe::from_u64(u32::MAX as u64),
            pub_x: Fe::from_limbs(1, 2, 3, 4),
            pub_y: Fe::from_limbs(u64::MAX, u64::MAX, u64::MAX, u64::MAX),
        },
        Account {
            balance: Fe::from_limbs(0xdead_beef, 0x1234_5678_9abc_def0, 0, 0),
            nonce: Fe::from_u64(1),
            pub_x: Fe::from_limbs(7, 0, 0, 9),
            pub_y: Fe::from_u64(2),
        },
    ];
    for a in cases {
        let bits = encode_account(&a).unwrap();
        let back = decode_account(&bits).unwrap();
        assert_eq!(back, a);
    }
}

#[test]
fn decode_rejects_wrong_length() {
    assert_eq!(decode_account(&vec![false; 671]), None);
    assert_eq!(decode_account(&vec![false; 673]), None);
    assert_eq!(decode_account(&Vec::new()), None);
}

#[test]
fn balance_overflow_is_detected_not_truncated() {
    // 2^128 needs BALANCE_BITS + 1 bits.
    let a = Account {
        balance: Fe::from_limbs(0, 0, 1, 0),
        nonce: Fe::zero(),
        pub_x: Fe::zero(),
        pub_y: Fe::zero(),
    };
    assert_eq!(
        encode_account(&a),
        Err(SmtError::EncodingOverflow { field: LeafField::Balance })
    );
}

#[test]
fn nonce_overflow_is_detected() {
    // 2^32 needs NONCE_BITS + 1 bits.
    let a = Account {
        balance: Fe::zero(),
        nonce: Fe::from_u64(1u64 << 32),
        pub_x: Fe::zero(),
        pub_y: Fe::zero(),
    };
    assert_eq!(
        encode_account(&a),
        Err(SmtError::EncodingOverflow { field: LeafField::Nonce })
    );
    // The widest representable nonce still encodes.
    let ok = Account {
        balance: Fe::zero(),
        nonce: Fe::from_u64(u32::MAX as u64),
        pub_x: Fe::zero(),
        pub_y: Fe::zero(),
    };
    assert!(encode_account(&ok).is_ok());
}

#[test]
fn balance_overflow_reported_before_nonce() {
    let a = Account {
        balance: Fe::from_limbs(0, 0, 0, 1),
        nonce: Fe::from_u64(1u64 << 32),
        pub_x: Fe::zero(),
        pub_y: Fe::zero(),
    };
    assert_eq!(
        encode_account(&a),
        Err(SmtError::EncodingOverflow { field: LeafField::Balance })
    );
}
