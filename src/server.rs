use vstd::prelude::*;

use crate::blockchain::{block_added, Blockchain};
use crate::block::{block_bytes, Block};
use crate::config::DEFAULT_NODE_ADDR;
use crate::encoding::{hex_encode, hex_lower, str_eq};
use crate::error::ChainError;
use crate::memory_pool::{hashes_view, without_first, BlockInTransit, MemoryPool};
use crate::node::Nodes;
use crate::transaction::{tx_bytes, Transaction};
use crate::utxo_set::UTXOSet;
use vstd::utf8::encode_utf8;

verus! {

/// The protocol version announced in `Version` messages.
pub const NODE_VERSION: usize = 1;

/// The seed node's address.
pub const CENTRAL_NODE: &'static str = "127.0.0.1:2001";

/// What an `Inv` or `GetData` message is about.
#[derive(Clone, Copy, Debug, PartialEq, Eq, Structural)]
pub enum OpType {
    Block,
    Tx,
}

/// A protocol message.
#[derive(Debug)]
pub enum Package {
    Block { addr_from: String, block: Vec<u8> },
    GetBlocks { addr_from: String },
    GetData { addr_from: String, op_type: OpType, id: Vec<u8> },
    Inv { addr_from: String, op_type: OpType, items: Vec<Vec<u8>> },
    Tx { addr_from: String, transaction: Vec<u8> },
    Version { addr_from: String, version: usize, best_height: usize },
}

/// The value of a protocol message.
pub enum PackageModel {
    Block { addr_from: Seq<char>, block: Seq<u8> },
    GetBlocks { addr_from: Seq<char> },
    GetData { addr_from: Seq<char>, op_type: OpType, id: Seq<u8> },
    Inv { addr_from: Seq<char>, op_type: OpType, items: Seq<Seq<u8>> },
    Tx { addr_from: Seq<char>, transaction: Seq<u8> },
    Version { addr_from: Seq<char>, version: usize, best_height: usize },
}

impl View for Package {
    type V = PackageModel;

    open spec fn view(&self) -> PackageModel {
        match self {
            Package::Block { addr_from, block } => PackageModel::Block {
                addr_from: addr_from@,
                block: block@,
            },
            Package::GetBlocks { addr_from } => PackageModel::GetBlocks { addr_from: addr_from@ },
            Package::GetData { addr_from, op_type, id } => PackageModel::GetData {
                addr_from: addr_from@,
                op_type: *op_type,
                id: id@,
            },
            Package::Inv { addr_from, op_type, items } => PackageModel::Inv {
                addr_from: addr_from@,
                op_type: *op_type,
                items: hashes_view(items@),
            },
            Package::Tx { addr_from, transaction } => PackageModel::Tx {
                addr_from: addr_from@,
                transaction: transaction@,
            },
            Package::Version { addr_from, version, best_height } => PackageModel::Version {
                addr_from: addr_from@,
                version: *version,
                best_height: *best_height,
            },
        }
    }
}

/// A message to send: the peer's address and the message.
#[derive(Debug)]
pub struct Outgoing {
    pub to: String,
    pub package: Package,
}

/// The values of messages to send, in order.
pub open spec fn outgoing_view(s: Seq<Outgoing>) -> Seq<(Seq<char>, PackageModel)> {
    s.map_values(|o: Outgoing| (o.to@, o.package@))
}

/// A node's state: its chain and unspent-output index, known peers, pending transactions, blocks
/// still to fetch, and its own address.
pub struct Server {
    pub utxo_set: UTXOSet,
    pub nodes: Nodes,
    pub memory_pool: MemoryPool,
    pub blocks_in_transit: BlockInTransit,
    pub node_addr: String,
}

impl Server {
    pub open spec fn wf(&self) -> bool {
        &&& self.utxo_set.wf()
        &&& self.nodes.wf()
        &&& self.memory_pool.wf()
    }

    pub open spec fn chain(&self) -> Blockchain {
        self.utxo_set.blockchain
    }

    /// A node at `node_addr` over `utxo_set`, knowing the seed node only.
    pub fn new(utxo_set: UTXOSet, node_addr: String) -> (r: Server)
        requires
            utxo_set.wf(),
        ensures
            r.wf(),
            r.utxo_set == utxo_set,
            r.node_addr == node_addr,
            r.nodes.addrs() == seq![CENTRAL_NODE@],
            r.memory_pool.inner@.len() == 0,
            r.blocks_in_transit.queue().len() == 0,
    {
        let mut nodes = Nodes::new();
        nodes.add_node(CENTRAL_NODE.to_owned());
        Server {
            utxo_set,
            nodes,
            memory_pool: MemoryPool::new(),
            blocks_in_transit: BlockInTransit::new(),
            node_addr,
        }
    }

    /// What a node sends when it starts: a node other than the seed announces its height to
    /// the seed.
    pub fn startup(&self) -> (r: Result<Vec<Outgoing>, ChainError>)
        requires
            self.wf(),
        ensures
            self.node_addr@ == CENTRAL_NODE@ ==> (r matches Ok(out) && out@.len() == 0),
            self.node_addr@ != CENTRAL_NODE@ ==> (r is Ok <==> self.chain().store().contains_key(
                self.chain().tip_hash@,
            )),
            self.node_addr@ != CENTRAL_NODE@ ==> (r matches Ok(out) ==> outgoing_view(out@) == seq![
                (
                    CENTRAL_NODE@,
                    PackageModel::Version {
                        addr_from: self.node_addr@,
                        version: NODE_VERSION,
                        best_height: self.chain().store()[self.chain().tip_hash@].height,
                    },
                ),
            ]),
    {
        let mut out: Vec<Outgoing> = Vec::new();
        if str_eq(self.node_addr.as_str(), CENTRAL_NODE) {
            return Ok(out);
        }
        let best_height = match self.utxo_set.blockchain.get_best_height() {
            Ok(h) => h,
            Err(e) => return Err(e),
        };
        out.push(
            Outgoing {
                to: CENTRAL_NODE.to_owned(),
                package: Package::Version {
                    addr_from: self.node_addr.clone(),
                    version: NODE_VERSION,
                    best_height,
                },
            },
        );
        assert(outgoing_view(out@) =~= seq![
            (
                CENTRAL_NODE@,
                PackageModel::Version {
                    addr_from: self.node_addr@,
                    version: NODE_VERSION,
                    best_height: self.chain().store()[self.chain().tip_hash@].height,
                },
            ),
        ]);
        Ok(out)
    }
}

/// The replies to a `Version` message announcing `best_height` at a node of height `h`: ask
/// for the peer's blocks where it is ahead, announce our height where we are ahead.
pub open spec fn version_replies(me: Seq<char>, to: Seq<char>, h: usize, best_height: usize) -> Seq<
    (Seq<char>, PackageModel),
> {
    (if h < best_height {
        seq![(to, PackageModel::GetBlocks { addr_from: me })]
    } else {
        Seq::empty()
    }) + (if h > best_height {
        seq![(to, PackageModel::Version { addr_from: me, version: NODE_VERSION, best_height: h })]
    } else {
        Seq::empty()
    })
}

/// The UTF-8 bytes of the hash texts of a chain's blocks, from the tip to genesis.
pub open spec fn chain_hashes(c: Blockchain) -> Seq<Seq<u8>> {
    c.chain().map_values(|b: crate::block::BlockModel| encode_utf8(b.hash))
}

/// The `Inv` announcements of a transaction id to every peer in `addrs` other than `me` and
/// `from`, in order.
pub open spec fn gossip(addrs: Seq<Seq<char>>, me: Seq<char>, from: Seq<char>, id: Seq<u8>) -> Seq<
    (Seq<char>, PackageModel),
>
    decreases addrs.len(),
{
    if addrs.len() == 0 {
        Seq::empty()
    } else {
        let rest = gossip(addrs.drop_last(), me, from, id);
        let a = addrs.last();
        if a == me || a == from {
            rest
        } else {
            rest.push((a, PackageModel::Inv { addr_from: me, op_type: OpType::Tx, items: seq![id] }))
        }
    }
}

fn send(out: &mut Vec<Outgoing>, to: String, package: Package)
    ensures
        outgoing_view(final(out)@) == outgoing_view(old(out)@).push((to@, package@)),
{
    out.push(Outgoing { to, package });
    assert(outgoing_view(out@) =~= outgoing_view(old(out)@).push((to@, package@)));
}

impl Server {
    fn on_version(&mut self, peer_addr: &str, addr_from: String, best_height: usize) -> (r: Result<
        Vec<Outgoing>,
        ChainError,
    >)
        requires
            old(self).wf(),
        ensures
            final(self).wf(),
            r is Ok <==> old(self).chain().store().contains_key(old(self).chain().tip_hash@),
            r is Err ==> *final(self) == *old(self),
            r matches Ok(out) ==> outgoing_view(out@) == version_replies(
                old(self).node_addr@,
                addr_from@,
                old(self).chain().store()[old(self).chain().tip_hash@].height,
                best_height,
            ),
            r is Ok ==> final(self).nodes.addrs() == if old(self).nodes.addrs().contains(peer_addr@) {
                old(self).nodes.addrs()
            } else if old(self).nodes.addrs().contains(addr_from@) {
                old(self).nodes.addrs()
            } else {
                old(self).nodes.addrs().push(addr_from@)
            },
            r is Ok ==> final(self).utxo_set == old(self).utxo_set && final(self).memory_pool
                == old(self).memory_pool && final(self).blocks_in_transit == old(
                self,
            ).blocks_in_transit && final(self).node_addr == old(self).node_addr,
    {
        let local_best_height = match self.utxo_set.blockchain.get_best_height() {
            Ok(h) => h,
            Err(e) => return Err(e),
        };
        let mut out: Vec<Outgoing> = Vec::new();
        if local_best_height < best_height {
            send(
                &mut out,
                addr_from.clone(),
                Package::GetBlocks { addr_from: self.node_addr.clone() },
            );
        }
        if local_best_height > best_height {
            send(
                &mut out,
                addr_from.clone(),
                Package::Version {
                    addr_from: self.node_addr.clone(),
                    version: NODE_VERSION,
                    best_height: local_best_height,
                },
            );
        }
        assert(outgoing_view(out@) =~= version_replies(
            self.node_addr@,
            addr_from@,
            local_best_height,
            best_height,
        ));
        if !self.nodes.node_is_known(peer_addr) {
            self.nodes.add_node(addr_from);
        }
        Ok(out)
    }

    fn on_get_blocks(&self, addr_from: String) -> (r: Vec<Outgoing>)
        requires
            self.wf(),
        ensures
            outgoing_view(r@) == seq![
                (
                    addr_from@,
                    PackageModel::Inv {
                        addr_from: self.node_addr@,
                        op_type: OpType::Block,
                        items: chain_hashes(self.chain()),
                    },
                ),
            ],
    {
        let blocks = self.utxo_set.blockchain.get_block_hashes();
        assert(hashes_view(blocks@) =~= chain_hashes(self.chain()));
        let mut out: Vec<Outgoing> = Vec::new();
        send(
            &mut out,
            addr_from,
            Package::Inv { addr_from: self.node_addr.clone(), op_type: OpType::Block, items: blocks },
        );
        assert(outgoing_view(out@) =~= seq![
            (
                addr_from@,
                PackageModel::Inv {
                    addr_from: self.node_addr@,
                    op_type: OpType::Block,
                    items: chain_hashes(self.chain()),
                },
            ),
        ]);
        out
    }
}

impl Server {
    fn on_inv(&mut self, addr_from: String, op_type: OpType, items: Vec<Vec<u8>>) -> (r: Result<
        Vec<Outgoing>,
        ChainError,
    >)
        requires
            old(self).wf(),
        ensures
            final(self).wf(),
            final(self).utxo_set == old(self).utxo_set,
            final(self).nodes == old(self).nodes,
            final(self).memory_pool == old(self).memory_pool,
            final(self).node_addr == old(self).node_addr,
            op_type == OpType::Block ==> (r matches Ok(out) && {
                let q = old(self).blocks_in_transit.queue() + hashes_view(items@);
                if items@.len() > 0 {
                    &&& final(self).blocks_in_transit.queue() == without_first(q, items@[0]@)
                    &&& outgoing_view(out@) == seq![
                        (
                            addr_from@,
                            PackageModel::GetData {
                                addr_from: old(self).node_addr@,
                                op_type: OpType::Block,
                                id: items@[0]@,
                            },
                        ),
                    ]
                } else {
                    &&& final(self).blocks_in_transit.queue() == q
                    &&& out@.len() == 0
                }
            }),
            op_type == OpType::Tx ==> final(self).blocks_in_transit == old(self).blocks_in_transit,
            op_type == OpType::Tx ==> (r is Err <==> items@.len() == 0),
            r matches Err(e) ==> e == ChainError::Malformed && *final(self) == *old(self),
            op_type == OpType::Tx ==> (r matches Ok(out) ==> outgoing_view(out@) == if old(
                self,
            ).memory_pool.holds(hex_lower(items@[0]@)) {
                Seq::empty()
            } else {
                seq![
                    (
                        addr_from@,
                        PackageModel::GetData {
                            addr_from: old(self).node_addr@,
                            op_type: OpType::Tx,
                            id: items@[0]@,
                        },
                    ),
                ]
            }),
    {
        let mut out: Vec<Outgoing> = Vec::new();
        match op_type {
            OpType::Block => {
                self.blocks_in_transit.add_blocks(items.as_slice());
                if items.len() > 0 {
                    let block_hash = crate::encoding::copy_bytes(items[0].as_slice());
                    send(
                        &mut out,
                        addr_from,
                        Package::GetData {
                            addr_from: self.node_addr.clone(),
                            op_type: OpType::Block,
                            id: crate::encoding::copy_bytes(block_hash.as_slice()),
                        },
                    );
                    self.blocks_in_transit.remove(block_hash.as_slice());
                }
                Ok(out)
            },
            OpType::Tx => {
                if items.len() == 0 {
                    return Err(ChainError::Malformed);
                }
                let txid_hex = hex_encode(items[0].as_slice());
                if !self.memory_pool.contains(txid_hex.as_str()) {
                    send(
                        &mut out,
                        addr_from,
                        Package::GetData {
                            addr_from: self.node_addr.clone(),
                            op_type: OpType::Tx,
                            id: crate::encoding::copy_bytes(items[0].as_slice()),
                        },
                    );
                }
                Ok(out)
            },
        }
    }

    fn on_get_data(&self, addr_from: String, op_type: OpType, id: Vec<u8>) -> (r: Vec<Outgoing>)
        requires
            self.wf(),
        ensures
            op_type == OpType::Block ==> (r@.len() == 0 <==> forall|h: Seq<char>|
                #[trigger] self.chain().store().contains_key(h) ==> encode_utf8(h) != id@),
            op_type == OpType::Block ==> (r@.len() > 0 ==> exists|h: Seq<char>|
                #[trigger] self.chain().store().contains_key(h) && encode_utf8(h) == id@
                    && outgoing_view(r@) == seq![
                    (
                        addr_from@,
                        PackageModel::Block {
                            addr_from: self.node_addr@,
                            block: block_bytes(self.chain().store()[h]),
                        },
                    ),
                ]),
            op_type == OpType::Tx ==> outgoing_view(r@) == if self.memory_pool.holds(
                hex_lower(id@),
            ) {
                seq![
                    (
                        addr_from@,
                        PackageModel::Tx {
                            addr_from: self.node_addr@,
                            transaction: tx_bytes(self.memory_pool.tx_of(hex_lower(id@))),
                        },
                    ),
                ]
            } else {
                Seq::empty()
            },
    {
        let mut out: Vec<Outgoing> = Vec::new();
        match op_type {
            OpType::Block => {
                match self.utxo_set.blockchain.get_block(id.as_slice()) {
                    Some(block) => {
                        let bytes = block.serialize();
                        send(
                            &mut out,
                            addr_from,
                            Package::Block { addr_from: self.node_addr.clone(), block: bytes },
                        );
                        assert(outgoing_view(out@) =~= seq![
                            (
                                addr_from@,
                                PackageModel::Block {
                                    addr_from: self.node_addr@,
                                    block: block_bytes(self.chain().store()[block@.hash]),
                                },
                            ),
                        ]);
                    },
                    None => {
                        proof {
                            let c = self.chain();
                            assert forall|h: Seq<char>| #[trigger] c.store().contains_key(h)
                                implies encode_utf8(h) != id@ by {
                                let k = crate::blockchain::block_index(c.store_view(), h);
                                assert(c.store_view()[k] == c.blocks@[k]@);
                            }
                        }
                    },
                }
            },
            OpType::Tx => {
                let txid_hex = hex_encode(id.as_slice());
                match self.memory_pool.get(txid_hex.as_str()) {
                    Some(tx) => {
                        let bytes = tx.serialize();
                        send(
                            &mut out,
                            addr_from,
                            Package::Tx { addr_from: self.node_addr.clone(), transaction: bytes },
                        );
                        assert(outgoing_view(out@) =~= seq![
                            (
                                addr_from@,
                                PackageModel::Tx {
                                    addr_from: self.node_addr@,
                                    transaction: tx_bytes(self.memory_pool.tx_of(hex_lower(id@))),
                                },
                            ),
                        ]);
                    },
                    None => {},
                }
            },
        }
        out
    }
}

/// Whether index entries `es` are the rebuild from chain `c`: one entry per group of the
/// chain's unspent outputs, keyed by the bytes whose hex text is the group's key.
pub open spec fn reindexed(es: crate::utxo_set::EntriesModel, c: Blockchain) -> bool {
    let u = crate::blockchain::scan(c.chain_txs()).0;
    &&& es.len() == u.len()
    &&& forall|i: int|
        0 <= i < es.len() ==> hex_lower((#[trigger] es[i]).0) == u[i].0 && es[i].1 == u[i].1
}

impl Server {
    fn on_block(&mut self, addr_from: String, block: Vec<u8>) -> (r: Result<Vec<Outgoing>, ChainError>)
        requires
            old(self).wf(),
        ensures
            final(self).wf(),
            final(self).nodes == old(self).nodes,
            final(self).memory_pool == old(self).memory_pool,
            final(self).node_addr == old(self).node_addr,
            r matches Err(e) ==> e == ChainError::Malformed && *final(self) == *old(self),
            r is Err <==> !exists|b: crate::block::BlockModel| block_bytes(b) == block@,
            r matches Ok(out) ==> exists|b: crate::block::BlockModel|
                block_bytes(b) == block@ && block_added(old(self).chain(), final(self).chain(), b),
            r matches Ok(out) ==> {
                let q = old(self).blocks_in_transit.queue();
                if q.len() > 0 {
                    &&& final(self).blocks_in_transit.queue() == q.drop_first()
                    &&& final(self).utxo_set.entries == old(self).utxo_set.entries
                    &&& outgoing_view(out@) == seq![
                        (
                            addr_from@,
                            PackageModel::GetData {
                                addr_from: old(self).node_addr@,
                                op_type: OpType::Block,
                                id: q[0],
                            },
                        ),
                    ]
                } else {
                    &&& final(self).blocks_in_transit == old(self).blocks_in_transit
                    &&& reindexed(final(self).utxo_set.view_entries(), final(self).chain())
                    &&& out@.len() == 0
                }
            },
    {
        let b = match Block::deserialize(block.as_slice()) {
            Ok(b) => b,
            Err(e) => return Err(e),
        };
        self.utxo_set.blockchain.add_block(&b);
        let mut out: Vec<Outgoing> = Vec::new();
        if self.blocks_in_transit.len() > 0 {
            match self.blocks_in_transit.first() {
                Some(block_hash) => {
                    send(
                        &mut out,
                        addr_from,
                        Package::GetData {
                            addr_from: self.node_addr.clone(),
                            op_type: OpType::Block,
                            id: crate::encoding::copy_bytes(block_hash.as_slice()),
                        },
                    );
                    let ghost q = self.blocks_in_transit.queue();
                    self.blocks_in_transit.remove(block_hash.as_slice());
                    assert(without_first(q, q[0]) == q.drop_first());
                },
                None => {},
            }
        } else {
            self.utxo_set.reindex();
        }
        Ok(out)
    }
}

/// The effect of adding transaction `t` to a pool, as `MemoryPool::add` states it.
pub open spec fn pool_added(before: MemoryPool, after: MemoryPool, t: crate::transaction::TxModel) -> bool {
    &&& after.wf()
    &&& after.holds(hex_lower(t.id))
    &&& after.tx_of(hex_lower(t.id)) == t
    &&& forall|k: Seq<char>|
        k != hex_lower(t.id) ==> (after.holds(k) <==> before.holds(k)) && (before.holds(k)
            ==> after.tx_of(k) == before.tx_of(k))
}

impl Server {
    fn on_tx(&mut self, addr_from: String, transaction: Vec<u8>) -> (r: Result<
        Vec<Outgoing>,
        ChainError,
    >)
        requires
            old(self).wf(),
        ensures
            final(self).wf(),
            final(self).utxo_set == old(self).utxo_set,
            final(self).nodes == old(self).nodes,
            final(self).blocks_in_transit == old(self).blocks_in_transit,
            final(self).node_addr == old(self).node_addr,
            r matches Err(e) ==> e == ChainError::Malformed && *final(self) == *old(self),
            r is Err <==> !exists|t: crate::transaction::TxModel| tx_bytes(t) == transaction@,
            r matches Ok(out) ==> exists|t: crate::transaction::TxModel|
                tx_bytes(t) == transaction@ && pool_added(
                    old(self).memory_pool,
                    final(self).memory_pool,
                    t,
                ) && outgoing_view(out@) == if old(self).node_addr@ == CENTRAL_NODE@ {
                    gossip(old(self).nodes.addrs(), old(self).node_addr@, addr_from@, t.id)
                } else {
                    Seq::empty()
                },
    {
        let tx = match Transaction::deserialize(transaction.as_slice()) {
            Ok(t) => t,
            Err(e) => return Err(e),
        };
        let ghost t = tx@;
        let txid = tx.get_id_bytes();
        self.memory_pool.add(tx);
        let mut out: Vec<Outgoing> = Vec::new();
        if str_eq(self.node_addr.as_str(), CENTRAL_NODE) {
            let nodes = self.nodes.get_nodes();
            let ghost addrs = self.nodes.addrs();
            let mut i: usize = 0;
            while i < nodes.len()
                invariant
                    i <= nodes@.len(),
                    addrs == crate::node::addrs_view(nodes@),
                    txid@ == t.id,
                    outgoing_view(out@) == gossip(addrs.take(i as int), self.node_addr@, addr_from@, t.id),
                decreases nodes@.len() - i,
            {
                let addr = nodes[i].get_addr();
                proof {
                    assert(addrs.take(i + 1).drop_last() =~= addrs.take(i as int));
                    assert(addrs.take(i + 1).last() == addr@);
                }
                if !str_eq(self.node_addr.as_str(), addr.as_str()) && !str_eq(
                    addr_from.as_str(),
                    addr.as_str(),
                ) {
                    let mut items: Vec<Vec<u8>> = Vec::new();
                    items.push(crate::encoding::copy_bytes(txid.as_slice()));
                    assert(hashes_view(items@) =~= seq![t.id]);
                    send(
                        &mut out,
                        addr,
                        Package::Inv { addr_from: self.node_addr.clone(), op_type: OpType::Tx, items },
                    );
                }
                i = i + 1;
            }
            assert(addrs.take(i as int) =~= addrs);
        }
        Ok(out)
    }

    /// Handles one message received from the peer at `peer_addr` and returns the messages to
    /// send in reply, in order. See the handlers of each kind for what changes.
    pub fn handle_package(&mut self, peer_addr: &str, pkg: Package) -> (r: Result<
        Vec<Outgoing>,
        ChainError,
    >)
        requires
            old(self).wf(),
        ensures
            final(self).wf(),
            final(self).node_addr == old(self).node_addr,
            r is Err ==> *final(self) == *old(self),
            pkg matches Package::Version { addr_from, best_height, .. } ==> {
                &&& (r is Ok <==> old(self).chain().store().contains_key(old(self).chain().tip_hash@))
                &&& (r matches Ok(out) ==> outgoing_view(out@) == version_replies(
                    old(self).node_addr@,
                    addr_from@,
                    old(self).chain().store()[old(self).chain().tip_hash@].height,
                    best_height,
                ))
                &&& (r is Ok ==> final(self).nodes.addrs() == if old(self).nodes.addrs().contains(peer_addr@) {
                    old(self).nodes.addrs()
                } else if old(self).nodes.addrs().contains(addr_from@) {
                    old(self).nodes.addrs()
                } else {
                    old(self).nodes.addrs().push(addr_from@)
                })
                &&& (r is Ok ==> final(self).utxo_set == old(self).utxo_set)
            },
            pkg matches Package::GetBlocks { addr_from } ==> {
                &&& *final(self) == *old(self)
                &&& r matches Ok(out) && outgoing_view(out@) == seq![
                    (
                        addr_from@,
                        PackageModel::Inv {
                            addr_from: old(self).node_addr@,
                            op_type: OpType::Block,
                            items: chain_hashes(old(self).chain()),
                        },
                    ),
                ]
            },
            pkg matches Package::Inv { addr_from, op_type, items } ==> {
                &&& final(self).utxo_set == old(self).utxo_set
                &&& final(self).memory_pool == old(self).memory_pool
                &&& (op_type == OpType::Block ==> (r matches Ok(out) && {
                    let q = old(self).blocks_in_transit.queue() + hashes_view(items@);
                    if items@.len() > 0 {
                        &&& final(self).blocks_in_transit.queue() == without_first(q, items@[0]@)
                        &&& outgoing_view(out@) == seq![
                            (
                                addr_from@,
                                PackageModel::GetData {
                                    addr_from: old(self).node_addr@,
                                    op_type: OpType::Block,
                                    id: items@[0]@,
                                },
                            ),
                        ]
                    } else {
                        &&& final(self).blocks_in_transit.queue() == q
                        &&& out@.len() == 0
                    }
                }))
                &&& (op_type == OpType::Tx ==> (r is Err <==> items@.len() == 0))
                &&& (op_type == OpType::Tx ==> (r matches Ok(out) ==> outgoing_view(out@) == if old(
                    self,
                ).memory_pool.holds(hex_lower(items@[0]@)) {
                    Seq::empty()
                } else {
                    seq![
                        (
                            addr_from@,
                            PackageModel::GetData {
                                addr_from: old(self).node_addr@,
                                op_type: OpType::Tx,
                                id: items@[0]@,
                            },
                        ),
                    ]
                }))
            },
            pkg matches Package::GetData { addr_from, op_type, id } ==> {
                &&& *final(self) == *old(self)
                &&& r matches Ok(out) && {
                    &&& (op_type == OpType::Block ==> (out@.len() == 0 <==> forall|h: Seq<char>|
                        #[trigger] old(self).chain().store().contains_key(h) ==> encode_utf8(h)
                            != id@))
                    &&& (op_type == OpType::Block ==> (out@.len() > 0 ==> exists|h: Seq<char>|
                        #[trigger] old(self).chain().store().contains_key(h) && encode_utf8(h)
                            == id@ && outgoing_view(out@) == seq![
                            (
                                addr_from@,
                                PackageModel::Block {
                                    addr_from: old(self).node_addr@,
                                    block: block_bytes(old(self).chain().store()[h]),
                                },
                            ),
                        ]))
                    &&& (op_type == OpType::Tx ==> outgoing_view(out@) == if old(
                        self,
                    ).memory_pool.holds(hex_lower(id@)) {
                        seq![
                            (
                                addr_from@,
                                PackageModel::Tx {
                                    addr_from: old(self).node_addr@,
                                    transaction: tx_bytes(
                                        old(self).memory_pool.tx_of(hex_lower(id@)),
                                    ),
                                },
                            ),
                        ]
                    } else {
                        Seq::empty()
                    })
                }
            },
            pkg matches Package::Block { addr_from, block } ==> {
                &&& final(self).nodes == old(self).nodes
                &&& final(self).memory_pool == old(self).memory_pool
                &&& (r matches Err(e) ==> e == ChainError::Malformed)
                &&& (r is Err <==> !exists|b: crate::block::BlockModel| block_bytes(b) == block@)
                &&& (r matches Ok(out) ==> exists|b: crate::block::BlockModel|
                    block_bytes(b) == block@ && block_added(old(self).chain(), final(self).chain(), b))
                &&& (r matches Ok(out) ==> {
                    let q = old(self).blocks_in_transit.queue();
                    if q.len() > 0 {
                        &&& final(self).blocks_in_transit.queue() == q.drop_first()
                        &&& final(self).utxo_set.entries == old(self).utxo_set.entries
                        &&& outgoing_view(out@) == seq![
                            (
                                addr_from@,
                                PackageModel::GetData {
                                    addr_from: old(self).node_addr@,
                                    op_type: OpType::Block,
                                    id: q[0],
                                },
                            ),
                        ]
                    } else {
                        &&& final(self).blocks_in_transit == old(self).blocks_in_transit
                        &&& reindexed(final(self).utxo_set.view_entries(), final(self).chain())
                        &&& out@.len() == 0
                    }
                })
            },
            pkg matches Package::Tx { addr_from, transaction } ==> {
                &&& final(self).utxo_set == old(self).utxo_set
                &&& final(self).nodes == old(self).nodes
                &&& final(self).blocks_in_transit == old(self).blocks_in_transit
                &&& (r matches Err(e) ==> e == ChainError::Malformed)
                &&& (r is Err <==> !exists|t: crate::transaction::TxModel| tx_bytes(t) == transaction@)
                &&& (r matches Ok(out) ==> exists|t: crate::transaction::TxModel|
                    tx_bytes(t) == transaction@ && pool_added(
                        old(self).memory_pool,
                        final(self).memory_pool,
                        t,
                    ) && outgoing_view(out@) == if old(self).node_addr@ == CENTRAL_NODE@ {
                        gossip(old(self).nodes.addrs(), old(self).node_addr@, addr_from@, t.id)
                    } else {
                        Seq::empty()
                    })
            },
    {
        match pkg {
            Package::Version { addr_from, version: _, best_height } => self.on_version(
                peer_addr,
                addr_from,
                best_height,
            ),
            Package::GetBlocks { addr_from } => Ok(self.on_get_blocks(addr_from)),
            Package::Inv { addr_from, op_type, items } => self.on_inv(addr_from, op_type, items),
            Package::GetData { addr_from, op_type, id } => Ok(
                self.on_get_data(addr_from, op_type, id),
            ),
            Package::Block { addr_from, block } => self.on_block(addr_from, block),
            Package::Tx { addr_from, transaction } => self.on_tx(addr_from, transaction),
        }
    }
}

} // verus!
