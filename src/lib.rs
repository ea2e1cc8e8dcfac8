pub mod block;
pub mod blockchain;
pub mod config;
pub mod crypto;
pub mod encoding;
pub mod error;
pub mod memory_pool;
pub mod node;
pub mod proof_of_work;
pub mod server;
pub mod transaction;
pub mod utxo_set;
pub mod wallets;
