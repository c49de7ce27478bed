//! End-to-end scenarios over a temporary store: balances, transfers,
//! signatures and the UTXO index.

use blockchain_rust::address::decode_address;
use blockchain_rust::blockchain::Blockchain;
use blockchain_rust::errors::ChainError;
use blockchain_rust::store::Store;
use blockchain_rust::transaction::{PrevTxs, Transaction};
use blockchain_rust::utxoset::UTXOSet;
use blockchain_rust::wallets::Wallets;

fn fresh_wallets() -> Wallets {
    Wallets { wallets: Vec::new() }
}

fn setup(founder: &str, wallets: &Wallets) -> UTXOSet {
    let _ = wallets;
    let store = Store::temporary().unwrap();
    let bc = Blockchain::create_blockchain(store, founder.to_string()).ok().unwrap();
    let ustore = Store::temporary().unwrap();
    let mut utxo = UTXOSet::new(bc, ustore).unwrap();
    utxo.reindex().unwrap();
    utxo
}

fn send_mine(
    utxo: &mut UTXOSet,
    wallets: &Wallets,
    from: &str,
    to: &str,
    amount: i32,
) -> Result<(), ChainError> {
    let tx = Transaction::new_UTXO(from, to, amount, utxo, wallets)?;
    let cbtx = Transaction::new_coinbase(from.to_string(), "reward".to_string())?;
    let block = utxo.blockchain.mine_block(vec![cbtx, tx])?;
    utxo.update(&block)?;
    Ok(())
}

fn balance(utxo: &UTXOSet, addr: &str) -> i64 {
    let pkh = decode_address(addr).unwrap();
    utxo.get_balance(&pkh).unwrap()
}

#[test]
fn genesis_pays_the_founder() {
    let mut wallets = fresh_wallets();
    let a = wallets.create_wallet();
    let utxo = setup(&a, &wallets);
    assert_eq!(balance(&utxo, &a), 10);
    assert_eq!(utxo.count_transactions(), 1);
}

#[test]
fn mined_transfer_moves_funds_and_pays_reward() {
    let mut wallets = fresh_wallets();
    let a = wallets.create_wallet();
    let b = wallets.create_wallet();
    let mut utxo = setup(&a, &wallets);
    send_mine(&mut utxo, &wallets, &a, &b, 4).unwrap();
    assert_eq!(balance(&utxo, &a), 16);
    assert_eq!(balance(&utxo, &b), 4);
}

#[test]
fn overdraft_reports_insufficient_funds() {
    let mut wallets = fresh_wallets();
    let a = wallets.create_wallet();
    let b = wallets.create_wallet();
    let mut utxo = setup(&a, &wallets);
    let r = send_mine(&mut utxo, &wallets, &a, &b, 11);
    assert!(matches!(r, Err(ChainError::InsufficientFunds { accumulated: 10, requested: 11 })));
    assert_eq!(balance(&utxo, &a), 10);
    assert_eq!(balance(&utxo, &b), 0);
}

#[test]
fn chained_transfers_balance_out() {
    let mut wallets = fresh_wallets();
    let a = wallets.create_wallet();
    let b = wallets.create_wallet();
    let c = wallets.create_wallet();
    let mut utxo = setup(&a, &wallets);
    send_mine(&mut utxo, &wallets, &a, &b, 3).unwrap();
    send_mine(&mut utxo, &wallets, &b, &c, 2).unwrap();
    // each sender mines its own block and collects the 10-coin reward:
    // a: 10 - 3 + 10, b: 3 - 2 + 10, c: 2
    assert_eq!(balance(&utxo, &a), 17);
    assert_eq!(balance(&utxo, &b), 11);
    assert_eq!(balance(&utxo, &c), 2);
}

#[test]
fn chain_walk_counts_heights_and_difficulty() {
    let mut wallets = fresh_wallets();
    let a = wallets.create_wallet();
    let mut utxo = setup(&a, &wallets);
    send_mine(&mut utxo, &wallets, &a, &a, 1).unwrap();
    send_mine(&mut utxo, &wallets, &a, &a, 1).unwrap();
    assert_eq!(utxo.blockchain.get_height(), 2);
    let mut it = utxo.blockchain.iter();
    let mut heights: Vec<i32> = Vec::new();
    let mut prev_link: Option<String> = None;
    while let Some(b) = it.next_block() {
        if let Some(expect) = prev_link {
            assert_eq!(expect, b.get_hash());
        }
        assert!(b.get_hash().starts_with("0000"));
        prev_link = Some(b.get_prev_hash());
        heights.push(b.get_height());
    }
    assert_eq!(heights, vec![2, 1, 0]);
    assert_eq!(prev_link, Some(String::new()));
}

#[test]
fn conservation_of_value() {
    let mut wallets = fresh_wallets();
    let a = wallets.create_wallet();
    let b = wallets.create_wallet();
    let mut utxo = setup(&a, &wallets);
    send_mine(&mut utxo, &wallets, &a, &b, 7).unwrap();
    send_mine(&mut utxo, &wallets, &b, &a, 2).unwrap();
    // three blocks mined, one coinbase each: total value is 3 * 10
    let total = balance(&utxo, &a) + balance(&utxo, &b);
    assert_eq!(total, 30);
}

#[test]
fn reindex_agrees_with_incremental_updates() {
    let mut wallets = fresh_wallets();
    let a = wallets.create_wallet();
    let b = wallets.create_wallet();
    let mut utxo = setup(&a, &wallets);
    send_mine(&mut utxo, &wallets, &a, &b, 4).unwrap();
    send_mine(&mut utxo, &wallets, &b, &a, 1).unwrap();
    // snapshot the incrementally updated index
    let incr_count = utxo.count_transactions();
    let incr_a = balance(&utxo, &a);
    let incr_b = balance(&utxo, &b);
    let mut incr_entries: Vec<(String, Vec<(i32, i32)>)> = Vec::new();
    for (k, outs) in &utxo.cache.entries {
        let mut pairs: Vec<(i32, i32)> = Vec::new();
        for (idx, o) in &outs.outputs {
            pairs.push((*idx, o.value));
        }
        incr_entries.push((k.clone(), pairs));
    }
    // rebuild from scratch
    utxo.reindex().unwrap();
    assert_eq!(utxo.count_transactions(), incr_count);
    assert_eq!(balance(&utxo, &a), incr_a);
    assert_eq!(balance(&utxo, &b), incr_b);
    let mut scan_entries: Vec<(String, Vec<(i32, i32)>)> = Vec::new();
    for (k, outs) in &utxo.cache.entries {
        let mut pairs: Vec<(i32, i32)> = Vec::new();
        for (idx, o) in &outs.outputs {
            pairs.push((*idx, o.value));
        }
        scan_entries.push((k.clone(), pairs));
    }
    incr_entries.sort();
    scan_entries.sort();
    assert_eq!(incr_entries, scan_entries);
}

#[test]
fn signed_transfer_verifies_and_mutations_break_it() {
    let mut wallets = fresh_wallets();
    let a = wallets.create_wallet();
    let b = wallets.create_wallet();
    let mut utxo = setup(&a, &wallets);
    let tx = Transaction::new_UTXO(&a, &b, 4, &utxo, &wallets).unwrap();
    assert_eq!(utxo.blockchain.verify_transaction(&tx).unwrap(), true);

    // flip a byte of a signature: verification must say no
    let mut bad_sig = tx.clone();
    bad_sig.vin[0].signature[0] ^= 1;
    assert_eq!(utxo.blockchain.verify_transaction(&bad_sig).unwrap(), false);

    // flip a byte of the public key: verification must not say yes
    let mut bad_key = tx.clone();
    bad_key.vin[0].pub_key[0] ^= 1;
    match utxo.blockchain.verify_transaction(&bad_key) {
        Ok(ok) => assert!(!ok),
        Err(_) => {},
    }

    // tamper with the referenced previous output: the message changes
    let genesis_id = tx.vin[0].txid.clone();
    let prev = utxo.blockchain.find_transaction(&genesis_id).unwrap();
    let mut forged_prev = prev.clone();
    forged_prev.vout[0].pub_key_hash[0] ^= 1;
    let prevs = PrevTxs { txs: vec![forged_prev] };
    assert_eq!(tx.verify(&prevs).unwrap(), false);

    // the untampered transaction still mines
    send_mine(&mut utxo, &wallets, &a, &b, 4).unwrap();
    assert_eq!(balance(&utxo, &b), 4);
}

#[test]
fn tampered_transaction_is_rejected_by_mining() {
    let mut wallets = fresh_wallets();
    let a = wallets.create_wallet();
    let b = wallets.create_wallet();
    let mut utxo = setup(&a, &wallets);
    let mut tx = Transaction::new_UTXO(&a, &b, 4, &utxo, &wallets).unwrap();
    tx.vout[0].value = 9;
    let r = utxo.blockchain.mine_block(vec![tx]);
    assert!(matches!(r, Err(ChainError::InvalidTransaction)));
}

#[test]
fn creating_over_an_existing_chain_is_refused() {
    let mut wallets = fresh_wallets();
    let a = wallets.create_wallet();
    let b = wallets.create_wallet();
    let store = Store::temporary().unwrap();
    let bc = Blockchain::create_blockchain(store, a.clone()).ok().unwrap();
    let tip = bc.get_tip_hash();
    // a second create over the same database is refused and hands the
    // store back untouched
    match Blockchain::create_blockchain(bc.into_store(), b) {
        Err((kept, ChainError::AlreadyInitialized)) => {
            let reopened = Blockchain::new(kept).unwrap();
            assert_eq!(reopened.get_tip_hash(), tip);
            assert_eq!(reopened.get_height(), 0);
        }
        _ => panic!("expected AlreadyInitialized"),
    }
}

#[test]
fn missing_chain_reports_store_missing() {
    let store = Store::temporary().unwrap();
    let r = Blockchain::new(store);
    assert!(matches!(r, Err(ChainError::StoreMissing)));
}

#[test]
fn lookup_misses_report_not_found() {
    let mut wallets = fresh_wallets();
    let a = wallets.create_wallet();
    let utxo = setup(&a, &wallets);
    let r = utxo.blockchain.find_transaction("deadbeef");
    assert!(matches!(r, Err(ChainError::NotFound { .. })));
}

#[test]
fn unknown_sender_reports_wallet_missing() {
    let mut wallets = fresh_wallets();
    let a = wallets.create_wallet();
    let utxo = setup(&a, &wallets);
    let mut other_wallets = fresh_wallets();
    let stranger = other_wallets.create_wallet();
    let r = Transaction::new_UTXO(&stranger, &a, 1, &utxo, &wallets);
    assert!(matches!(r, Err(ChainError::WalletMissing { .. })));
}

#[test]
fn non_positive_amounts_are_invalid() {
    let mut wallets = fresh_wallets();
    let a = wallets.create_wallet();
    let utxo = setup(&a, &wallets);
    let r = Transaction::new_UTXO(&a, &a, 0, &utxo, &wallets);
    assert!(matches!(r, Err(ChainError::InvalidTransaction)));
}

#[test]
fn wallet_store_round_trip() {
    let mut wallets = fresh_wallets();
    let a = wallets.create_wallet();
    let b = wallets.create_wallet();
    let mut store = Store::temporary().unwrap();
    wallets.save_all(&mut store).unwrap();
    let loaded = Wallets::new(&store).unwrap();
    let mut addrs = loaded.get_all_addresses();
    let mut expect = vec![a.clone(), b.clone()];
    addrs.sort();
    expect.sort();
    assert_eq!(addrs, expect);
    let wa = loaded.get_wallet(&a).unwrap();
    assert_eq!(wa.public_key, wallets.get_wallet(&a).unwrap().public_key);
    assert_eq!(wa.secret_key, wallets.get_wallet(&a).unwrap().secret_key);
}

#[test]
fn corrupt_wallet_record_is_refused() {
    let mut store = Store::temporary().unwrap();
    let junk: Vec<u8> = vec![1, 2, 3];
    store.put("somekey", &junk).unwrap();
    let r = Wallets::new(&store);
    assert!(matches!(r, Err(ChainError::SerializationError)));
}

#[test]
fn reopening_the_chain_preserves_it() {
    let mut wallets = fresh_wallets();
    let a = wallets.create_wallet();
    let b = wallets.create_wallet();
    let mut utxo = setup(&a, &wallets);
    send_mine(&mut utxo, &wallets, &a, &b, 4).unwrap();
    let tip = utxo.blockchain.get_tip_hash();
    let height = utxo.blockchain.get_height();
    // reopen over the same database: the walk re-validates every block
    let store = utxo.blockchain.into_store();
    let reopened = Blockchain::new(store).unwrap();
    assert_eq!(reopened.get_tip_hash(), tip);
    assert_eq!(reopened.get_height(), height);
}
