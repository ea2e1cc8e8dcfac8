use blockchain_rust::blockchain::Blockchain;
use blockchain_rust::config::{Config, DEFAULT_NODE_ADDR};
use blockchain_rust::memory_pool::{BlockInTransit, MemoryPool};
use blockchain_rust::node::Nodes;
use blockchain_rust::server::{OpType, Outgoing, Package, Server, CENTRAL_NODE};
use blockchain_rust::transaction::Transaction;
use blockchain_rust::utxo_set::UTXOSet;
use blockchain_rust::wallets::Wallet;

fn node_at(addr: &str, chain: Blockchain) -> Server {
    let mut utxo = UTXOSet::new(chain);
    utxo.reindex();
    Server::new(utxo, String::from(addr))
}

/// Delivers messages until none are left; returns how many were delivered.
fn deliver(nodes: &mut [(&str, &mut Server)], mut queue: Vec<(String, Outgoing)>) -> usize {
    let mut count = 0;
    while !queue.is_empty() {
        let (from, msg) = queue.remove(0);
        count += 1;
        for (addr, server) in nodes.iter_mut() {
            if *addr == msg.to.as_str() {
                let replies = server.handle_package(&from, msg.package).unwrap();
                for r in replies {
                    queue.push((String::from(*addr), r));
                }
                break;
            }
        }
    }
    count
}

#[test]
fn two_node_gossip() {
    let w = Wallet::try_new().unwrap();
    let mut chain1 = Blockchain::create_blockchain(&w.get_address()).unwrap();
    let cb = Transaction::new_coinbase_tx(&w.get_address()).unwrap();
    chain1.mine_block(&[cb]).unwrap();
    let mut n1 = node_at(CENTRAL_NODE, chain1);

    let other = Wallet::try_new().unwrap();
    let chain2 = Blockchain::create_blockchain(&other.get_address()).unwrap();
    let mut n2 = node_at("127.0.0.1:3001", chain2);

    assert!(n1.startup().unwrap().is_empty());
    let first = n2.startup().unwrap();
    assert_eq!(first.len(), 1);
    assert_eq!(first[0].to, CENTRAL_NODE);
    let queue: Vec<(String, Outgoing)> =
        first.into_iter().map(|o| (String::from("127.0.0.1:3001"), o)).collect();
    let delivered = deliver(&mut [(CENTRAL_NODE, &mut n1), ("127.0.0.1:3001", &mut n2)], queue);
    assert!(delivered >= 6);

    assert!(n1.nodes.node_is_known("127.0.0.1:3001"));
    let tip1 = n1.utxo_set.blockchain.get_tip_hash();
    assert_eq!(n2.utxo_set.blockchain.stored_tip, tip1);

    let reopened = Blockchain::new_blockchain(
        n2.utxo_set.blockchain.blocks.clone(),
        Some(n2.utxo_set.blockchain.stored_tip.clone()),
    )
    .unwrap();
    let mut utxo2 = UTXOSet::new(reopened);
    utxo2.reindex();
    let a = w.get_address();
    assert_eq!(utxo2.balance_of_address(&a), n1.utxo_set.balance_of_address(&a));
    assert_eq!(utxo2.balance_of_address(&a), Ok(20));
}

#[test]
fn version_replies_by_height() {
    let w = Wallet::try_new().unwrap();
    let chain = Blockchain::create_blockchain(&w.get_address()).unwrap();
    let mut n = node_at(CENTRAL_NODE, chain);
    let ahead = Package::Version { addr_from: String::from("p:1"), version: 1, best_height: 5 };
    let out = n.handle_package("p:1", ahead).unwrap();
    assert_eq!(out.len(), 1);
    assert!(matches!(out[0].package, Package::GetBlocks { .. }));
    assert!(n.nodes.node_is_known("p:1"));
    let same = Package::Version { addr_from: String::from("p:2"), version: 1, best_height: 0 };
    assert!(n.handle_package("p:1", same).unwrap().is_empty());
    assert!(!n.nodes.node_is_known("p:2"));
}

#[test]
fn inv_and_tx_handling() {
    let w = Wallet::try_new().unwrap();
    let chain = Blockchain::create_blockchain(&w.get_address()).unwrap();
    let mut n = node_at(CENTRAL_NODE, chain);
    n.nodes.add_node(String::from("p:1"));
    n.nodes.add_node(String::from("p:2"));

    let inv = Package::Inv {
        addr_from: String::from("p:1"),
        op_type: OpType::Block,
        items: vec![vec![1], vec![2], vec![3]],
    };
    let out = n.handle_package("p:1", inv).unwrap();
    assert_eq!(out.len(), 1);
    assert_eq!(n.blocks_in_transit.len(), 2);
    assert_eq!(n.blocks_in_transit.first(), Some(vec![2]));

    let empty_tx_inv =
        Package::Inv { addr_from: String::from("p:1"), op_type: OpType::Tx, items: vec![] };
    assert!(n.handle_package("p:1", empty_tx_inv).is_err());

    let tx = Transaction::new_coinbase_tx(&w.get_address()).unwrap();
    let msg = Package::Tx { addr_from: String::from("p:1"), transaction: tx.serialize() };
    let out = n.handle_package("p:1", msg).unwrap();
    assert_eq!(out.len(), 1);
    assert_eq!(out[0].to, "p:2");
    assert_eq!(n.memory_pool.len(), 1);

    let ask = Package::Inv { addr_from: String::from("p:2"), op_type: OpType::Tx, items: vec![tx.get_id_bytes()] };
    assert!(n.handle_package("p:2", ask).unwrap().is_empty());
    let get = Package::GetData { addr_from: String::from("p:2"), op_type: OpType::Tx, id: tx.get_id_bytes() };
    let out = n.handle_package("p:2", get).unwrap();
    assert_eq!(out.len(), 1);
    match &out[0].package {
        Package::Tx { transaction, .. } => assert_eq!(transaction, &tx.serialize()),
        _ => panic!("expected a transaction"),
    }
    let bad = Package::Block { addr_from: String::from("p:1"), block: vec![1, 2, 3] };
    assert!(n.handle_package("p:1", bad).is_err());
}

#[test]
fn memory_pool_operations() {
    let w = Wallet::try_new().unwrap();
    let tx = Transaction::new_coinbase_tx(&w.get_address()).unwrap();
    let key = blockchain_rust::encoding::hex_encode(tx.get_id());
    let mut pool = MemoryPool::new();
    assert!(!pool.contains(&key));
    pool.add(tx.clone());
    pool.add(tx.clone());
    assert_eq!(pool.len(), 1);
    assert!(pool.contains(&key));
    assert_eq!(pool.get(&key).unwrap().get_id(), tx.get_id());
    assert_eq!(pool.get_all().len(), 1);
    pool.remove(&key);
    assert!(!pool.contains(&key));
    assert_eq!(pool.len(), 0);
}

#[test]
fn transit_queue_operations() {
    let mut q = BlockInTransit::new();
    q.add_blocks(&[vec![1], vec![2], vec![1]]);
    assert_eq!(q.len(), 3);
    q.remove(&[1]);
    assert_eq!(q.first(), Some(vec![2]));
    assert_eq!(q.len(), 2);
    q.remove(&[9]);
    assert_eq!(q.len(), 2);
    q.clear();
    assert_eq!(q.first(), None);
}

#[test]
fn peer_set_operations() {
    let mut nodes = Nodes::new();
    nodes.add_node(String::from("a"));
    nodes.add_node(String::from("b"));
    nodes.add_node(String::from("a"));
    assert_eq!(nodes.get_nodes().len(), 2);
    assert_eq!(nodes.first().unwrap().get_addr(), "a");
    nodes.evict_node("a");
    assert!(!nodes.node_is_known("a"));
    assert!(nodes.node_is_known("b"));
}

#[test]
fn config_defaults() {
    let mut c = Config::new(None);
    assert_eq!(c.get_node_addr(), Some(String::from(DEFAULT_NODE_ADDR)));
    assert!(!c.is_miner());
    c.set_mining_addr(String::from("m"));
    assert!(c.is_miner());
    assert_eq!(c.get_mining_addr(), Some(String::from("m")));
    assert_eq!(Config::new(Some(String::from("x:1"))).get_node_addr(), Some(String::from("x:1")));
}
