//! Round trips of the canonical encodings and the crypto glue.

use blockchain_rust::address::decode_address;
use blockchain_rust::block::Block;
use blockchain_rust::codec::{read_i32, read_u128, read_u64, write_i32, write_u128, write_u64};
use blockchain_rust::transaction::{
    tx_decoding, tx_encoding, TXInput, TXOutput, Transaction,
};
use blockchain_rust::wallets::{hash_pub_key, Wallet};

fn sample_tx() -> Transaction {
    let mut tx = Transaction {
        id: String::new(),
        vin: vec![
            TXInput {
                txid: "00aa".to_string(),
                vout: 1,
                signature: vec![1, 2, 3],
                pub_key: vec![4, 5],
            },
            TXInput { txid: String::new(), vout: -1, signature: Vec::new(), pub_key: vec![9] },
        ],
        vout: vec![
            TXOutput { value: 10, pub_key_hash: vec![7; 20] },
            TXOutput { value: -3, pub_key_hash: Vec::new() },
        ],
    };
    tx.set_id();
    tx
}

#[test]
fn integer_round_trips() {
    let mut buf: Vec<u8> = Vec::new();
    write_u64(&mut buf, 0xdead_beef_0102_0304);
    write_u128(&mut buf, 0x1122_3344_5566_7788_99aa_bbcc_ddee_ff00);
    write_i32(&mut buf, -7);
    let (a, p1) = read_u64(&buf, 0).unwrap();
    let (b, p2) = read_u128(&buf, p1).unwrap();
    let (c, p3) = read_i32(&buf, p2).unwrap();
    assert_eq!(a, 0xdead_beef_0102_0304);
    assert_eq!(b, 0x1122_3344_5566_7788_99aa_bbcc_ddee_ff00);
    assert_eq!(c, -7);
    assert_eq!(p3, buf.len());
}

#[test]
fn transaction_round_trip_preserves_id() {
    let tx = sample_tx();
    let encoded = tx_encoding(&tx);
    let back = tx_decoding(&encoded).expect("decode");
    assert_eq!(back.id, tx.id);
    assert_eq!(back.vin.len(), 2);
    assert_eq!(back.vin[0].txid, "00aa");
    assert_eq!(back.vin[0].vout, 1);
    assert_eq!(back.vin[0].signature, vec![1, 2, 3]);
    assert_eq!(back.vin[1].vout, -1);
    assert_eq!(back.vout[0].value, 10);
    assert_eq!(back.vout[1].value, -3);
    // the id of the decoded copy hashes to the same digest
    assert_eq!(back.hash(), tx.hash());
    assert_eq!(back.id, back.hash());
}

#[test]
fn transaction_id_matches_external_digest() {
    let tx = sample_tx();
    let cleared = Transaction { id: String::new(), vin: tx.vin.clone(), vout: tx.vout.clone() };
    let data = tx_encoding(&cleared);
    let digest = sha256::digest(data);
    assert_eq!(tx.id, digest);
}

#[test]
fn trimmed_copy_clears_witnesses() {
    let tx = sample_tx();
    let trimmed = tx.trimmed_copy();
    assert_eq!(trimmed.id, tx.id);
    assert_eq!(trimmed.vin.len(), tx.vin.len());
    for vin in &trimmed.vin {
        assert!(vin.signature.is_empty());
        assert!(vin.pub_key.is_empty());
    }
    assert_eq!(trimmed.vout.len(), tx.vout.len());
}

fn hex_to_bytes(hex: &str) -> Vec<u8> {
    let digits: Vec<u8> = hex
        .bytes()
        .map(|b| if b >= b'a' { b - b'a' + 10 } else { b - b'0' })
        .collect();
    digits.chunks(2).map(|p| p[0] * 16 + p[1]).collect()
}

#[test]
fn hash_pub_key_matches_external_digests() {
    let pk: Vec<u8> = vec![1, 2, 3, 4];
    let h = hash_pub_key(&pk);
    assert_eq!(h.len(), 20);
    // recompute with the outside crates directly: RIPEMD-160 of the raw
    // 32-byte SHA-256 digest
    let raw = hex_to_bytes(&sha256::digest(&pk));
    assert_eq!(raw.len(), 32);
    let mut hasher = <ripemd::Ripemd160 as ripemd::Digest>::new();
    ripemd::Digest::update(&mut hasher, &raw);
    let expect = ripemd::Digest::finalize(hasher).to_vec();
    assert_eq!(h, expect);
}

#[test]
fn address_round_trip() {
    let w = Wallet::new();
    let addr = w.get_address();
    let body = decode_address(addr.as_str()).expect("address decodes");
    assert_eq!(body, hash_pub_key(&w.public_key));
    // and via the outside codec directly
    let parsed = bitcoincash_addr::Address::decode(&addr).unwrap();
    assert_eq!(parsed.body, body);
}

#[test]
fn block_round_trip() {
    let w = Wallet::new();
    let addr = w.get_address();
    let cb = Transaction::new_coinbase(addr, "note".to_string()).unwrap();
    let genesis = Block::new_genesis_block(cb).unwrap();
    let data = genesis.block_encoding();
    let back = Block::block_decoding(&data).expect("decode");
    assert_eq!(back.get_hash(), genesis.get_hash());
    assert_eq!(back.get_prev_hash(), String::new());
    assert_eq!(back.get_height(), 0);
    assert_eq!(back.get_transaction().len(), 1);
}

#[test]
fn block_hash_meets_difficulty_and_matches_digest() {
    let w = Wallet::new();
    let addr = w.get_address();
    let cb = Transaction::new_coinbase(addr, String::new()).unwrap();
    let genesis = Block::new_genesis_block(cb).unwrap();
    let hash = genesis.get_hash();
    assert!(hash.starts_with("0000"));
    assert_eq!(hash.len(), 64);
    // the stored hash is the digest of the proof-of-work pre-image
    let data = genesis.prepare_hash_data();
    assert_eq!(sha256::digest(data), hash);
    assert!(genesis.validate());
}

#[test]
fn coinbase_default_payload_names_payee() {
    let w = Wallet::new();
    let addr = w.get_address();
    let cb = Transaction::new_coinbase(addr.clone(), String::new()).unwrap();
    assert!(cb.is_coinbase());
    let expect = format!("Reward to {}", addr);
    assert_eq!(cb.vin[0].pub_key, expect.as_bytes().to_vec());
    assert_eq!(cb.vout[0].value, 10);
}

#[test]
fn bad_address_is_refused() {
    let r = TXOutput::new(5, "not-an-address".to_string());
    assert!(matches!(r, Err(blockchain_rust::errors::ChainError::CryptoError)));
}
