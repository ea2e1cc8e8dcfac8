use blockchain_rust::block::Block;
use blockchain_rust::crypto::{
    base58_decode, base58_encode, ecdsa_p256_sha256_sign_digest, ecdsa_p256_sha256_sign_verify,
    new_key_pair, ripemd160_digest, sha256_digest,
};
use blockchain_rust::encoding::{hex_decode, hex_encode};
use blockchain_rust::error::ChainError;
use blockchain_rust::transaction::{hash_pub_key, TXInput, TXOutput, Transaction};

fn sample_tx() -> Transaction {
    Transaction {
        id: vec![1, 2],
        vin: vec![TXInput { txid: vec![3], vout: 1, signature: vec![], pub_key: vec![4] }],
        vout: vec![TXOutput { value: -1, pub_key_hash: vec![5] }],
    }
}

fn sample_tx_tuple() -> (Vec<u8>, Vec<(Vec<u8>, u64, Vec<u8>, Vec<u8>)>, Vec<(i32, Vec<u8>)>) {
    (vec![1, 2], vec![(vec![3], 1, vec![], vec![4])], vec![(-1, vec![5])])
}

#[test]
fn transaction_bytes_exact() {
    let expected: Vec<u8> = vec![
        2, 0, 0, 0, 0, 0, 0, 0, 1, 2, // id
        1, 0, 0, 0, 0, 0, 0, 0, // one input
        1, 0, 0, 0, 0, 0, 0, 0, 3, // txid
        1, 0, 0, 0, 0, 0, 0, 0, // vout
        0, 0, 0, 0, 0, 0, 0, 0, // signature
        1, 0, 0, 0, 0, 0, 0, 0, 4, // public key
        1, 0, 0, 0, 0, 0, 0, 0, // one output
        0xff, 0xff, 0xff, 0xff, // value -1
        1, 0, 0, 0, 0, 0, 0, 0, 5, // public-key hash
    ];
    assert_eq!(sample_tx().serialize(), expected);
}

#[test]
fn transaction_bytes_match_bincode() {
    let reference = bincode::serialize(&sample_tx_tuple()).unwrap();
    assert_eq!(sample_tx().serialize(), reference);
}

#[test]
fn transaction_round_trip() {
    let bytes = sample_tx().serialize();
    let back = Transaction::deserialize(&bytes).unwrap();
    assert_eq!(back.serialize(), bytes);
    assert_eq!(back.vout[0].value, -1);
    assert_eq!(back.vin[0].vout, 1);
}

#[test]
fn transaction_rejects_truncated_and_trailing_bytes() {
    let bytes = sample_tx().serialize();
    assert_eq!(
        Transaction::deserialize(&bytes[..bytes.len() - 1]).unwrap_err(),
        ChainError::Malformed
    );
    let mut longer = bytes.clone();
    longer.push(0);
    assert_eq!(Transaction::deserialize(&longer).unwrap_err(), ChainError::Malformed);
    assert_eq!(Transaction::deserialize(&[]).unwrap_err(), ChainError::Malformed);
}

#[test]
fn block_bytes_match_bincode() {
    let block = Block {
        timestamp: 1_700_000_000,
        pre_block_hash: String::from("None"),
        hash: String::from("00ab"),
        transactions: vec![sample_tx()],
        nonce: 42,
        height: 3,
    };
    let reference = bincode::serialize(&(
        1_700_000_000i64,
        String::from("None"),
        String::from("00ab"),
        vec![sample_tx_tuple()],
        42i64,
        3u64,
    ))
    .unwrap();
    let bytes = block.serialize();
    assert_eq!(bytes, reference);
    let back = Block::deserialize(&bytes).unwrap();
    assert_eq!(back.get_hash(), "00ab");
    assert_eq!(back.get_pre_block_hash(), "None");
    assert_eq!(back.get_height(), 3);
    assert_eq!(back.nonce, 42);
    assert_eq!(back.get_transactions().len(), 1);
}

#[test]
fn block_rejects_bad_utf8() {
    let block = Block {
        timestamp: 0,
        pre_block_hash: String::from("ab"),
        hash: String::from("cd"),
        transactions: vec![],
        nonce: 0,
        height: 0,
    };
    let mut bytes = block.serialize();
    bytes[16] = 0xff;
    assert_eq!(Block::deserialize(&bytes).unwrap_err(), ChainError::Malformed);
}

#[test]
fn hex_of_bytes() {
    assert_eq!(hex_encode(&[0xde, 0xad, 0xbe, 0xef]), "deadbeef");
    assert_eq!(hex_encode(&[]), "");
    assert_eq!(hex_decode("00ff10"), Some(vec![0x00, 0xff, 0x10]));
    assert_eq!(hex_decode("0g"), None);
    assert_eq!(hex_decode("abc"), None);
}

#[test]
fn sha256_known_vector() {
    assert_eq!(
        hex_encode(&sha256_digest(b"abc")),
        "ba7816bf8f01cfea414140de5dae2223b00361a396177a9cb410ff61f20015ad"
    );
}

#[test]
fn ripemd160_known_vector() {
    assert_eq!(hex_encode(&ripemd160_digest(b"abc")), "8eb208f7e05d987a9b044a8e98c6b087f15a0bfc");
}

#[test]
fn pub_key_hash_is_ripemd_of_sha() {
    let h = hash_pub_key(b"key");
    assert_eq!(h.len(), 20);
    assert_eq!(h, ripemd160_digest(&sha256_digest(b"key")));
}

#[test]
fn base58_known_values() {
    assert_eq!(base58_encode(&[0, 0, 1]), "112");
    assert_eq!(base58_decode("112"), vec![0, 0, 1]);
    assert_eq!(base58_decode("0OIl"), Vec::<u8>::new());
}

#[test]
fn base58_round_trip_examples() {
    for x in [vec![], vec![0u8], vec![0, 0, 255, 7], vec![1, 2, 3, 4, 5, 6, 7, 8, 9]] {
        assert_eq!(base58_decode(&base58_encode(&x)), x);
    }
}

#[test]
fn ecdsa_sign_and_verify() {
    let (pkcs8, public_key) = new_key_pair().unwrap();
    let sig = ecdsa_p256_sha256_sign_digest(&pkcs8, b"message").unwrap();
    assert!(ecdsa_p256_sha256_sign_verify(&public_key, &sig, b"message"));
    assert!(!ecdsa_p256_sha256_sign_verify(&public_key, &sig, b"messagf"));
}
