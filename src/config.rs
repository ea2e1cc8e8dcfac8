use vstd::prelude::*;

verus! {

/// The address a node listens on when none is configured, which is also the seed node's.
pub const DEFAULT_NODE_ADDR: &'static str = "127.0.0.1:2001";

/// Process settings: the listening address and, on a miner, the address that receives rewards.
pub struct Config {
    pub node_addr: Option<String>,
    pub mining_addr: Option<String>,
}

impl Config {
    /// Settings with the configured listening address, or the default where none is
    /// configured.
    pub fn new(node_address: Option<String>) -> (r: Config)
        ensures
            r.node_addr is Some,
            node_address matches Some(a) ==> r.node_addr == Some(a),
            node_address is None ==> r.node_addr.unwrap()@ == DEFAULT_NODE_ADDR@,
            r.mining_addr is None,
    {
        let node_addr = match node_address {
            Some(a) => a,
            None => DEFAULT_NODE_ADDR.to_owned(),
        };
        Config { node_addr: Some(node_addr), mining_addr: None }
    }

    pub fn get_node_addr(&self) -> (r: Option<String>)
        ensures
            r == self.node_addr,
    {
        self.node_addr.clone()
    }

    pub fn set_mining_addr(&mut self, addr: String)
        ensures
            final(self).mining_addr == Some(addr),
            final(self).node_addr == old(self).node_addr,
    {
        self.mining_addr = Some(addr);
    }

    pub fn get_mining_addr(&self) -> (r: Option<String>)
        ensures
            r == self.mining_addr,
    {
        self.mining_addr.clone()
    }

    /// Whether a reward address is set.
    pub fn is_miner(&self) -> (r: bool)
        ensures
            r == self.mining_addr is Some,
    {
        self.mining_addr.is_some()
    }
}

} // verus!
