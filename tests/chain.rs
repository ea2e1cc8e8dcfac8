use blockchain_rust::block::Block;
use blockchain_rust::blockchain::Blockchain;
use blockchain_rust::error::ChainError;
use blockchain_rust::proof_of_work::ProofOfWork;
use blockchain_rust::transaction::{TXOutput, Transaction};
use blockchain_rust::utxo_set::UTXOSet;
use blockchain_rust::wallets::{convert_address, validate_address, Wallet, Wallets};

fn wallets_with(n: usize) -> (Wallets, Vec<String>) {
    let mut wallets = Wallets::new();
    let mut addrs = Vec::new();
    for _ in 0..n {
        addrs.push(wallets.create_wallet().unwrap());
    }
    (wallets, addrs)
}

fn genesis_set(address: &str) -> UTXOSet {
    let chain = Blockchain::create_blockchain(address).unwrap();
    let mut utxo = UTXOSet::new(chain);
    utxo.reindex();
    utxo
}

#[test]
fn genesis_balance() {
    let (_wallets, addrs) = wallets_with(1);
    let utxo = genesis_set(&addrs[0]);
    assert_eq!(utxo.balance_of_address(&addrs[0]), Ok(10));
    assert_eq!(utxo.count_transactions(), 1);
    let chain = utxo.get_blockchain();
    assert_eq!(chain.get_best_height(), Ok(0));
    let genesis = chain.chain_blocks();
    assert_eq!(genesis.len(), 1);
    assert_eq!(genesis[0].get_pre_block_hash(), "None");
    assert!(genesis[0].get_hash().starts_with("00"));
}

#[test]
fn send_with_local_mining() {
    let (wallets, addrs) = wallets_with(2);
    let (a, b) = (&addrs[0], &addrs[1]);
    let mut utxo = genesis_set(a);
    let tx = Transaction::new_utxo_transaction(a, b, 3, &utxo, &wallets).unwrap();
    assert_eq!(tx.get_vout().len(), 2);
    assert_eq!(tx.get_vout()[0].get_value(), 3);
    assert_eq!(tx.get_vout()[1].get_value(), 7);
    let coinbase = Transaction::new_coinbase_tx(a).unwrap();
    let block = utxo.blockchain.mine_block(&[tx, coinbase]).unwrap();
    assert_eq!(block.get_height(), 1);
    utxo.update(&block).unwrap();
    assert_eq!(utxo.balance_of_address(a), Ok(17));
    assert_eq!(utxo.balance_of_address(b), Ok(3));
    assert_eq!(utxo.blockchain.get_best_height(), Ok(1));
    let mut fresh = UTXOSet::new(Blockchain::new_blockchain(
        utxo.blockchain.chain_blocks(),
        Some(utxo.blockchain.get_tip_hash()),
    )
    .unwrap());
    fresh.reindex();
    assert_eq!(fresh.balance_of_address(a), Ok(17));
    assert_eq!(fresh.balance_of_address(b), Ok(3));
}

#[test]
fn signed_transaction_verifies_and_tampering_fails() {
    let (wallets, addrs) = wallets_with(2);
    let utxo = genesis_set(&addrs[0]);
    let tx = Transaction::new_utxo_transaction(&addrs[0], &addrs[1], 4, &utxo, &wallets).unwrap();
    assert_eq!(tx.verify(&utxo.blockchain), Ok(true));
    let mut bad = tx.clone();
    bad.vout[0].value = 9;
    assert_eq!(bad.verify(&utxo.blockchain), Ok(false));
    let mut missing = tx.clone();
    missing.vin[0].txid = vec![9; 32];
    assert_eq!(missing.verify(&utxo.blockchain), Err(ChainError::PreviousTransactionMissing));
    let mut chain = utxo.blockchain;
    assert_eq!(chain.mine_block(&[bad]).unwrap_err(), ChainError::InvalidTransaction);
    assert_eq!(chain.get_best_height(), Ok(0));
}

#[test]
fn insufficient_funds() {
    let (wallets, addrs) = wallets_with(2);
    let utxo = genesis_set(&addrs[0]);
    let tip = utxo.blockchain.get_tip_hash();
    let r = Transaction::new_utxo_transaction(&addrs[0], &addrs[1], 11, &utxo, &wallets);
    assert_eq!(r.unwrap_err(), ChainError::NotEnoughFunds);
    assert_eq!(utxo.blockchain.get_tip_hash(), tip);
    assert_eq!(utxo.balance_of_address(&addrs[0]), Ok(10));
}

#[test]
fn unknown_sender_and_bad_addresses() {
    let (wallets, addrs) = wallets_with(1);
    let utxo = genesis_set(&addrs[0]);
    let stranger = Wallet::try_new().unwrap().get_address();
    assert_eq!(
        Transaction::new_utxo_transaction(&stranger, &addrs[0], 1, &utxo, &wallets).unwrap_err(),
        ChainError::WalletNotFound
    );
    assert_eq!(
        Transaction::new_utxo_transaction("xxx", &addrs[0], 1, &utxo, &wallets).unwrap_err(),
        ChainError::InvalidAddress
    );
}

#[test]
fn invalid_address() {
    let (_wallets, addrs) = wallets_with(1);
    let utxo = genesis_set(&addrs[0]);
    assert_eq!(utxo.balance_of_address("xxx"), Err(ChainError::InvalidAddress));
    assert!(!validate_address("xxx"));
    assert!(!validate_address(""));
}

#[test]
fn wallet_address_validates() {
    for _ in 0..5 {
        let w = Wallet::try_new().unwrap();
        let address = w.get_address();
        assert!(validate_address(&address));
        let mut chars: Vec<char> = address.chars().collect();
        let last = chars.len() - 1;
        chars[last] = if chars[last] == '2' { '3' } else { '2' };
        let broken: String = chars.into_iter().collect();
        assert!(!validate_address(&broken));
    }
}

#[test]
fn convert_address_matches_wallet_address() {
    let w = Wallet::try_new().unwrap();
    let h = blockchain_rust::transaction::hash_pub_key(w.get_public_key());
    assert_eq!(convert_address(&h), w.get_address());
    let out = TXOutput::new(5, &w.get_address());
    assert!(out.is_locked_with_key(&h));
}

#[test]
fn wallets_keep_addresses() {
    let (wallets, addrs) = wallets_with(3);
    let listed = wallets.get_addresses();
    assert_eq!(listed, addrs);
    for a in &addrs {
        let w = wallets.get_wallet(a).unwrap();
        assert_eq!(&w.get_address(), a);
    }
    assert!(wallets.get_wallet("nope").is_none());
}

#[test]
fn coinbase_shape() {
    let w = Wallet::try_new().unwrap();
    let tx = Transaction::new_coinbase_tx(&w.get_address()).unwrap();
    assert!(tx.is_coinbase());
    assert_eq!(tx.get_vin()[0].signature.len(), 16);
    assert_eq!(tx.get_vout()[0].get_value(), 10);
    assert_eq!(tx.get_id().len(), 32);
    let other = Transaction::new_coinbase_tx(&w.get_address()).unwrap();
    assert_ne!(tx.get_id(), other.get_id());
    assert_eq!(Transaction::new_coinbase_tx("").unwrap_err(), ChainError::InvalidAddress);
}

#[test]
fn pow_threshold() {
    let w = Wallet::try_new().unwrap();
    let tx = Transaction::new_coinbase_tx(&w.get_address()).unwrap();
    let block = Block {
        timestamp: 1_234_567,
        pre_block_hash: String::from("contrived"),
        hash: String::new(),
        transactions: vec![tx.clone(), tx],
        nonce: 0,
        height: 7,
    };
    let (nonce, hash) = ProofOfWork::new_proof_of_work(block).run();
    assert!(nonce >= 0);
    assert_eq!(hash.len(), 64);
    assert!(hash.starts_with("00"));
}

#[test]
fn add_block_is_idempotent_and_moves_tip_by_height() {
    let w = Wallet::try_new().unwrap();
    let mut source = Blockchain::create_blockchain(&w.get_address()).unwrap();
    let genesis = source.chain_blocks().remove(0);
    let cb = Transaction::new_coinbase_tx(&w.get_address()).unwrap();
    let b1 = source.mine_block(&[cb]).unwrap();

    let other = Wallet::try_new().unwrap();
    let mut target = Blockchain::create_blockchain(&other.get_address()).unwrap();
    let own_tip = target.stored_tip.clone();

    target.add_block(&genesis);
    assert_eq!(target.stored_tip, own_tip);
    assert_eq!(target.get_tip_hash(), genesis.get_hash());

    target.add_block(&b1);
    assert_eq!(target.stored_tip, b1.get_hash());
    let blocks_after = target.blocks.len();
    let tip_after = target.get_tip_hash();

    target.add_block(&b1);
    assert_eq!(target.blocks.len(), blocks_after);
    assert_eq!(target.get_tip_hash(), tip_after);
    assert_eq!(target.stored_tip, b1.get_hash());
    assert!(target.get_block(b1.get_hash().as_bytes()).is_some());
    assert!(target.get_block(b"missing").is_none());
}

#[test]
fn new_blockchain_needs_a_tip() {
    assert_eq!(Blockchain::new_blockchain(vec![], None).unwrap_err(), ChainError::NoBlockchain);
    let c = Blockchain::new_blockchain(vec![], Some(String::from("x"))).unwrap();
    assert_eq!(c.get_best_height(), Err(ChainError::NoBlockchain));
}

#[test]
fn spendable_selection_stops_at_amount() {
    let (_wallets, addrs) = wallets_with(1);
    let utxo = genesis_set(&addrs[0]);
    let pkh = blockchain_rust::transaction::TXOutput::new(0, &addrs[0]).pub_key_hash;
    let (acc, sel) = utxo.find_spendable_outputs(&pkh, 4).unwrap();
    assert_eq!(acc, 10);
    assert_eq!(sel.len(), 1);
    assert_eq!(sel[0].1, vec![0]);
    let (acc0, sel0) = utxo.find_spendable_outputs(&pkh, 0).unwrap();
    assert_eq!(acc0, 0);
    assert!(sel0.is_empty());
    assert_eq!(utxo.find_utxo(&pkh).len(), 1);
    assert_eq!(utxo.get_balance(&[1, 2, 3]), Some(0));
}

#[test]
fn iterator_walks_from_tip_to_genesis() {
    let w = Wallet::try_new().unwrap();
    let mut chain = Blockchain::create_blockchain(&w.get_address()).unwrap();
    let cb = Transaction::new_coinbase_tx(&w.get_address()).unwrap();
    let b1 = chain.mine_block(&[cb.clone()]).unwrap();
    let mut it = chain.iterator();
    let first = it.next().unwrap();
    assert_eq!(first.get_hash(), b1.get_hash());
    let second = it.next().unwrap();
    assert_eq!(second.get_height(), 0);
    assert_eq!(first.get_pre_block_hash(), second.get_hash());
    assert!(it.next().is_none());
    let hashes = chain.get_block_hashes();
    assert_eq!(hashes, vec![b1.get_hash_bytes(), second.get_hash_bytes()]);
    let found = chain.find_transaction(cb.get_id()).unwrap();
    assert_eq!(found.get_id(), cb.get_id());
    assert!(chain.find_transaction(&[0u8; 32]).is_none());
    assert_eq!(chain.chain_transactions().len(), 2);
}

#[test]
fn set_tip_changes_walk_only() {
    let w = Wallet::try_new().unwrap();
    let mut chain = Blockchain::create_blockchain(&w.get_address()).unwrap();
    let genesis_hash = chain.get_tip_hash();
    let cb = Transaction::new_coinbase_tx(&w.get_address()).unwrap();
    chain.mine_block(&[cb]).unwrap();
    let stored = chain.stored_tip.clone();
    chain.set_tip_hash(&genesis_hash);
    assert_eq!(chain.get_best_height(), Ok(0));
    assert_eq!(chain.chain_blocks().len(), 1);
    assert_eq!(chain.stored_tip, stored);
    chain.set_tip_hash("unknown");
    assert_eq!(chain.get_best_height(), Err(ChainError::NoBlockchain));
    let cb2 = Transaction::new_coinbase_tx(&w.get_address()).unwrap();
    assert_eq!(chain.mine_block(&[cb2]).unwrap_err(), ChainError::NoBlockchain);
}

#[test]
fn transactions_digest_and_genesis_block() {
    let w = Wallet::try_new().unwrap();
    let tx = Transaction::new_coinbase_tx(&w.get_address()).unwrap();
    let genesis = Block::generate_genesis_block(&tx);
    assert_eq!(genesis.get_height(), 0);
    assert_eq!(genesis.get_pre_block_hash(), "None");
    assert_eq!(
        genesis.hash_transactions(),
        blockchain_rust::crypto::sha256_digest(tx.get_id())
    );
    assert!(genesis.get_timestamp() > 1_600_000_000);
    let next = Block::new_block(String::from(genesis.get_hash()), &[tx.clone()], 1);
    assert_eq!(next.get_pre_block_hash(), genesis.get_hash());
    assert!(next.get_hash().starts_with("00"));
}

#[test]
fn input_key_use_and_missing_previous() {
    let w = Wallet::try_new().unwrap();
    let h = blockchain_rust::transaction::hash_pub_key(w.get_public_key());
    let mut input = blockchain_rust::transaction::TXInput::new(&[1, 2, 3], 0);
    assert!(!input.use_key(&h));
    input.pub_key = w.get_public_key().to_vec();
    assert!(input.use_key(&h));
    assert_eq!(input.get_txid(), &[1, 2, 3]);
    assert_eq!(input.get_vout(), 0);
    assert_eq!(input.get_pub_key(), w.get_public_key());

    let chain = Blockchain::create_blockchain(&w.get_address()).unwrap();
    let mut tx = Transaction {
        id: vec![],
        vin: vec![input.clone(), input],
        vout: vec![TXOutput::new(1, &w.get_address())],
    };
    assert_eq!(
        tx.sign(&chain, w.get_pkcs8()).unwrap_err(),
        ChainError::PreviousTransactionMissing
    );
}

#[test]
fn update_rejects_unknown_outputs() {
    let (wallets, addrs) = wallets_with(2);
    let mut utxo = genesis_set(&addrs[0]);
    let tx = Transaction::new_utxo_transaction(&addrs[0], &addrs[1], 2, &utxo, &wallets).unwrap();
    let block = utxo.blockchain.mine_block(&[tx]).unwrap();
    let mut empty = UTXOSet::new(Blockchain::new_blockchain(vec![], Some(String::new())).unwrap());
    assert_eq!(empty.update(&block), Err(ChainError::UtxoNotFound));
    assert_eq!(empty.count_transactions(), 0);
    utxo.update(&block).unwrap();
    assert_eq!(utxo.balance_of_address(&addrs[0]), Ok(8));
    assert_eq!(utxo.balance_of_address(&addrs[1]), Ok(2));
}

#[test]
fn transaction_id_is_hash_of_cleared_serialization() {
    let (wallets, addrs) = wallets_with(2);
    let utxo = genesis_set(&addrs[0]);
    let coinbase = Transaction::new_coinbase_tx(&addrs[1]).unwrap();
    let mut cleared = coinbase.clone();
    cleared.id = vec![];
    assert_eq!(
        blockchain_rust::crypto::sha256_digest(&cleared.serialize()),
        coinbase.get_id()
    );
    let tx = Transaction::new_utxo_transaction(&addrs[0], &addrs[1], 1, &utxo, &wallets).unwrap();
    let mut unsigned = tx.clone();
    unsigned.id = vec![];
    for input in unsigned.vin.iter_mut() {
        input.signature = vec![];
    }
    assert_eq!(blockchain_rust::crypto::sha256_digest(&unsigned.serialize()), tx.get_id());
}

#[test]
fn reindex_keeps_total_value_and_links() {
    let (wallets, addrs) = wallets_with(2);
    let mut utxo = genesis_set(&addrs[0]);
    let tx = Transaction::new_utxo_transaction(&addrs[0], &addrs[1], 3, &utxo, &wallets).unwrap();
    let coinbase = Transaction::new_coinbase_tx(&addrs[0]).unwrap();
    utxo.blockchain.mine_block(&[tx, coinbase]).unwrap();
    utxo.reindex();
    let total: i64 = utxo
        .entries
        .iter()
        .flat_map(|(_, outs)| outs.iter().map(|o| o.get_value() as i64))
        .sum();
    assert_eq!(total, 20);
    assert_eq!(utxo.count_transactions(), 2);
    let blocks = utxo.blockchain.chain_blocks();
    for pair in blocks.windows(2) {
        assert_eq!(pair[0].get_pre_block_hash(), pair[1].get_hash());
        assert_eq!(pair[0].get_height(), pair[1].get_height() + 1);
    }
}

#[test]
fn change_survives_a_later_spend_of_the_payment() {
    let (wallets, addrs) = wallets_with(2);
    let (a, b) = (&addrs[0], &addrs[1]);
    let mut utxo = genesis_set(a);
    let t1 = Transaction::new_utxo_transaction(a, b, 3, &utxo, &wallets).unwrap();
    utxo.blockchain.mine_block(&[t1]).unwrap();
    utxo.reindex();
    assert_eq!(utxo.balance_of_address(a), Ok(7));
    assert_eq!(utxo.balance_of_address(b), Ok(3));
    let t2 = Transaction::new_utxo_transaction(b, a, 1, &utxo, &wallets).unwrap();
    utxo.blockchain.mine_block(&[t2]).unwrap();
    utxo.reindex();
    assert_eq!(utxo.balance_of_address(a), Ok(8));
    assert_eq!(utxo.balance_of_address(b), Ok(2));
    let groups = utxo.blockchain.find_utxo();
    let total: i64 = groups
        .iter()
        .flat_map(|(_, outs)| outs.iter().map(|o| o.get_value() as i64))
        .sum();
    assert_eq!(total, 10);
}

#[test]
fn payment_with_nothing_to_spend() {
    let (wallets, addrs) = wallets_with(2);
    let utxo = genesis_set(&addrs[0]);
    let tx = Transaction::new_utxo_transaction(&addrs[1], &addrs[0], 0, &utxo, &wallets).unwrap();
    assert!(tx.get_vin().is_empty());
    assert_eq!(tx.get_vout().len(), 1);
    assert_eq!(
        Transaction::new_utxo_transaction(&addrs[1], &addrs[0], 1, &utxo, &wallets).unwrap_err(),
        ChainError::NotEnoughFunds
    );
}
