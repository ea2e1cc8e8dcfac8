use vstd::prelude::*;
use vstd::utf8::encode_utf8;

use crate::block::{genesis_prev, txs_view, Block, BlockModel};
use crate::encoding::{bytes_eq, str_eq};
use crate::error::ChainError;
use crate::proof_of_work::mined;
use crate::encoding::{hex_encode, hex_lower};
use crate::transaction::{
    address_decodes, address_hash, copy_outputs, is_coinbase_tx, outputs_view, verify_result,
    InputModel, OutputModel, TXOutput, Transaction, TxModel, SUBSIDY,
};

verus! {

/// The values of a sequence of blocks.
pub open spec fn blocks_view(s: Seq<Block>) -> Seq<BlockModel> {
    s.map_values(|b: Block| b@)
}

/// Whether a block with hash text `h` is stored.
pub open spec fn has_block(bs: Seq<BlockModel>, h: Seq<char>) -> bool {
    exists|i: int| 0 <= i < bs.len() && (#[trigger] bs[i]).hash == h
}

/// The position of the stored block with hash text `h`.
pub open spec fn block_index(bs: Seq<BlockModel>, h: Seq<char>) -> int {
    choose|i: int| 0 <= i < bs.len() && (#[trigger] bs[i]).hash == h
}

/// The blocks met when following predecessor links from hash `h`, for at most `fuel` steps;
/// the walk ends at a hash that is not stored.
pub open spec fn walk(bs: Seq<BlockModel>, h: Seq<char>, fuel: nat) -> Seq<BlockModel>
    decreases fuel,
{
    if fuel == 0 || !has_block(bs, h) {
        Seq::empty()
    } else {
        let b = bs[block_index(bs, h)];
        seq![b] + walk(bs, b.pre_block_hash, (fuel - 1) as nat)
    }
}

/// The transactions of a sequence of blocks, block after block.
pub open spec fn flatten(bs: Seq<BlockModel>) -> Seq<TxModel>
    decreases bs.len(),
{
    if bs.len() == 0 {
        Seq::empty()
    } else {
        flatten(bs.drop_last()) + bs.last().transactions
    }
}

/// The first transaction in `txs` whose id is `id`.
pub open spec fn find_tx(txs: Seq<TxModel>, id: Seq<u8>) -> Option<TxModel>
    decreases txs.len(),
{
    if txs.len() == 0 {
        None
    } else {
        match find_tx(txs.drop_last(), id) {
            Some(t) => Some(t),
            None => if txs.last().id == id {
                Some(txs.last())
            } else {
                None
            },
        }
    }
}

proof fn lemma_find_tx_prefix(txs: Seq<TxModel>, id: Seq<u8>, n: int, m: int)
    requires
        0 <= n <= m <= txs.len(),
        find_tx(txs.take(n), id) is Some,
    ensures
        find_tx(txs.take(m), id) == find_tx(txs.take(n), id),
    decreases m - n,
{
    if m > n {
        lemma_find_tx_prefix(txs, id, n, m - 1);
        assert(txs.take(m).drop_last() =~= txs.take(m - 1));
    }
}

/// The block store: the stored blocks, the tip recorded in the store, and the tip held in
/// memory.
#[derive(Debug)]
pub struct Blockchain {
    pub blocks: Vec<Block>,
    pub stored_tip: String,
    pub tip_hash: String,
}

/// Walks the chain from a hash towards genesis.
pub struct BlockchainIterator<'a> {
    pub chain: &'a Blockchain,
    pub current_hash: String,
    pub fuel: usize,
}

impl<'a> BlockchainIterator<'a> {
    /// The blocks that the walk has still to yield.
    pub open spec fn remaining(&self) -> Seq<BlockModel> {
        walk(self.chain.store_view(), self.current_hash@, self.fuel as nat)
    }

    /// The next block towards genesis, or `None` where the walk has ended.
    pub fn next(&mut self) -> (r: Option<Block>)
        requires
            old(self).chain.wf(),
        ensures
            final(self).chain == old(self).chain,
            r is Some ==> final(self).fuel < old(self).fuel,
            r is None ==> old(self).remaining().len() == 0,
            r matches Some(b) ==> old(self).remaining() == seq![b@] + final(self).remaining(),
    {
        if self.fuel == 0 {
            return None;
        }
        match self.chain.index_of(self.current_hash.as_str()) {
            None => None,
            Some(i) => {
                let b = self.chain.blocks[i].duplicate();
                self.current_hash = b.pre_block_hash.clone();
                self.fuel = self.fuel - 1;
                Some(b)
            },
        }
    }
}

impl Blockchain {
    /// The stored blocks' values.
    pub open spec fn store_view(&self) -> Seq<BlockModel> {
        blocks_view(self.blocks@)
    }

    /// No two stored blocks share a hash.
    pub open spec fn wf(&self) -> bool {
        forall|i: int, j: int|
            0 <= i < self.blocks@.len() && 0 <= j < self.blocks@.len() && (
            #[trigger] self.blocks@[i]).hash@ == (#[trigger] self.blocks@[j]).hash@ ==> i == j
    }

    /// The stored blocks keyed by hash text.
    pub open spec fn store(&self) -> Map<Seq<char>, BlockModel> {
        Map::new(
            |h: Seq<char>| has_block(self.store_view(), h),
            |h: Seq<char>| self.store_view()[block_index(self.store_view(), h)],
        )
    }

    /// The chain: the blocks from the in-memory tip back to genesis.
    pub open spec fn chain(&self) -> Seq<BlockModel> {
        walk(self.store_view(), self.tip_hash@, self.blocks@.len())
    }

    /// The transactions of the chain, from the tip's first to genesis' last.
    pub open spec fn chain_txs(&self) -> Seq<TxModel> {
        flatten(self.chain())
    }

    /// The position of the block with hash text `hash`.
    fn index_of(&self, hash: &str) -> (r: Option<usize>)
        requires
            self.wf(),
        ensures
            r is None <==> !has_block(self.store_view(), hash@),
            r matches Some(i) ==> i < self.blocks@.len() && i == block_index(
                self.store_view(),
                hash@,
            ),
    {
        let mut i: usize = 0;
        while i < self.blocks.len()
            invariant
                i <= self.blocks@.len(),
                self.wf(),
                forall|k: int| 0 <= k < i ==> (#[trigger] self.blocks@[k]).hash@ != hash@,
            decreases self.blocks@.len() - i,
        {
            if str_eq(self.blocks[i].hash.as_str(), hash) {
                proof {
                    let bs = self.store_view();
                    assert(bs[i as int].hash == hash@);
                    assert(has_block(bs, hash@));
                    let j = block_index(bs, hash@);
                    assert(0 <= j < bs.len() && bs[j].hash == hash@);
                    assert(bs[j] == self.blocks@[j]@);
                    assert(self.blocks@[j].hash@ == self.blocks@[i as int].hash@);
                    assert(j == i);
                }
                return Some(i);
            }
            i = i + 1;
        }
        proof {
            let bs = self.store_view();
            if has_block(bs, hash@) {
                let j = choose|j: int| 0 <= j < bs.len() && (#[trigger] bs[j]).hash == hash@;
                assert(self.blocks@[j].hash@ == hash@);
            }
        }
        None
    }

    /// Stores `block` under its hash, replacing a block stored there before.
    fn put_block(&mut self, block: Block)
        requires
            old(self).wf(),
        ensures
            final(self).wf(),
            final(self).store() == old(self).store().insert(block@.hash, block@),
            final(self).stored_tip == old(self).stored_tip,
            final(self).tip_hash == old(self).tip_hash,
    {
        let ghost h = block@.hash;
        let ghost pre = self.store_view();
        match self.index_of(block.hash.as_str()) {
            Some(i) => {
                self.blocks.set(i, block);
                proof {
                    let post = self.store_view();
                    assert(forall|k: int|
                        0 <= k < post.len() && k != i ==> (#[trigger] post[k]) == pre[k]);
                    assert(forall|k: int|
                        0 <= k < post.len() ==> (#[trigger] post[k]).hash == pre[k].hash);
                    assert(self.wf());
                    self.lemma_store_set(pre, i as int);
                }
            },
            None => {
                proof {
                    assert forall|k: int| 0 <= k < pre.len() implies (
                    #[trigger] self.blocks@[k]).hash@ != h by {
                        assert(pre[k].hash == self.blocks@[k].hash@);
                    }
                }
                self.blocks.push(block);
                proof {
                    let post = self.store_view();
                    assert(forall|k: int| 0 <= k < pre.len() ==> (#[trigger] post[k]) == pre[k]);
                    assert(post[pre.len() as int] == block@);
                    assert(self.wf());
                    self.lemma_store_push(pre);
                }
            },
        }
    }

    proof fn lemma_store_set(&self, pre: Seq<BlockModel>, i: int)
        requires
            self.wf(),
            pre.len() == self.store_view().len(),
            0 <= i < pre.len(),
            forall|k: int| 0 <= k < pre.len() && k != i ==> (#[trigger] self.store_view()[k]) == pre[k],
            forall|k: int| 0 <= k < pre.len() ==> (#[trigger] self.store_view()[k]).hash == pre[k].hash,
        ensures
            self.store() == Map::new(
                |h: Seq<char>| has_block(pre, h),
                |h: Seq<char>| pre[block_index(pre, h)],
            ).insert(self.store_view()[i].hash, self.store_view()[i]),
    {
        let post = self.store_view();
        let m = Map::new(|h: Seq<char>| has_block(pre, h), |h: Seq<char>| pre[block_index(pre, h)]);
        assert forall|h: Seq<char>| has_block(post, h) <==> has_block(pre, h) by {
            if has_block(post, h) {
                let k = block_index(post, h);
                assert(pre[k].hash == h);
            }
            if has_block(pre, h) {
                let k = block_index(pre, h);
                assert(post[k].hash == h);
            }
        }
        assert forall|h: Seq<char>| #[trigger] has_block(post, h) implies post[block_index(post, h)]
            == m.insert(post[i].hash, post[i])[h] by {
            let k = block_index(post, h);
            let k2 = block_index(pre, h);
            assert(post[k2].hash == h);
            assert(self.blocks@[k].hash@ == self.blocks@[k2].hash@);
        }
        assert(has_block(pre, post[i].hash)) by {
            assert(pre[i].hash == post[i].hash);
        }
        assert(self.store() =~= m.insert(post[i].hash, post[i]));
    }

    proof fn lemma_store_push(&self, pre: Seq<BlockModel>)
        requires
            self.wf(),
            self.store_view().len() == pre.len() + 1,
            forall|k: int| 0 <= k < pre.len() ==> (#[trigger] self.store_view()[k]) == pre[k],
        ensures
            self.store() == Map::new(
                |h: Seq<char>| has_block(pre, h),
                |h: Seq<char>| pre[block_index(pre, h)],
            ).insert(self.store_view().last().hash, self.store_view().last()),
    {
        let post = self.store_view();
        let n = pre.len() as int;
        let m = Map::new(|h: Seq<char>| has_block(pre, h), |h: Seq<char>| pre[block_index(pre, h)]);
        assert forall|h: Seq<char>| has_block(post, h) <==> (has_block(pre, h) || h == post[n].hash) by {
            if has_block(post, h) {
                let k = block_index(post, h);
                if k < n {
                    assert(pre[k].hash == h);
                }
            }
            if has_block(pre, h) {
                let k = block_index(pre, h);
                assert(post[k].hash == h);
            }
            if h == post[n].hash {
                assert(post[n].hash == h);
            }
        }
        assert forall|h: Seq<char>| #[trigger] has_block(post, h) implies post[block_index(post, h)]
            == m.insert(post[n].hash, post[n])[h] by {
            let k = block_index(post, h);
            if h == post[n].hash {
                assert(self.blocks@[k].hash@ == self.blocks@[n].hash@);
            } else {
                let k2 = block_index(pre, h);
                assert(post[k2].hash == h);
                assert(self.blocks@[k].hash@ == self.blocks@[k2].hash@);
            }
        }
        assert(self.store() =~= m.insert(post[n].hash, post[n]));
    }

    /// A chain over the given stored blocks and the tip recorded with them; later blocks replace
    /// earlier ones with the same hash. Fails where no tip is recorded.
    pub fn new_blockchain(blocks: Vec<Block>, tip_hash: Option<String>) -> (r: Result<
        Blockchain,
        ChainError,
    >)
        ensures
            tip_hash is None <==> r is Err,
            r matches Err(e) ==> e == ChainError::NoBlockchain,
            r matches Ok(c) ==> c.wf() && c.tip_hash == tip_hash.unwrap() && c.stored_tip
                == tip_hash.unwrap(),
            r matches Ok(c) ==> forall|h: Seq<char>|
                c.store().contains_key(h) <==> has_block(blocks_view(blocks@), h),
    {
        let tip = match tip_hash {
            Some(t) => t,
            None => return Err(ChainError::NoBlockchain),
        };
        let mut chain = Blockchain { blocks: Vec::new(), stored_tip: tip.clone(), tip_hash: tip };
        let mut i: usize = 0;
        while i < blocks.len()
            invariant
                i <= blocks@.len(),
                chain.wf(),
                chain.tip_hash == tip_hash.unwrap(),
                chain.stored_tip == tip_hash.unwrap(),
                forall|h: Seq<char>|
                    chain.store().contains_key(h) <==> has_block(
                        blocks_view(blocks@).take(i as int),
                        h,
                    ),
            decreases blocks@.len() - i,
        {
            chain.put_block(blocks[i].duplicate());
            proof {
                let t = blocks_view(blocks@).take(i + 1);
                let t0 = blocks_view(blocks@).take(i as int);
                assert forall|h: Seq<char>| has_block(t, h) <==> (has_block(t0, h) || h
                    == blocks@[i as int]@.hash) by {
                    if has_block(t, h) {
                        let k = choose|k: int| 0 <= k < t.len() && (#[trigger] t[k]).hash == h;
                        if k < i {
                            assert(t0[k] == t[k]);
                        }
                    }
                    if has_block(t0, h) {
                        let k = choose|k: int| 0 <= k < t0.len() && (#[trigger] t0[k]).hash == h;
                        assert(t[k] == t0[k]);
                    }
                    if h == blocks@[i as int]@.hash {
                        assert(t[i as int].hash == h);
                    }
                }
            }
            i = i + 1;
        }
        assert(blocks_view(blocks@).take(i as int) =~= blocks_view(blocks@));
        Ok(chain)
    }

    pub fn get_tip_hash(&self) -> (r: String)
        ensures
            r == self.tip_hash,
    {
        self.tip_hash.clone()
    }

    pub fn set_tip_hash(&mut self, new_tip_hash: &str)
        ensures
            final(self).tip_hash@ == new_tip_hash@,
            final(self).blocks == old(self).blocks,
            final(self).stored_tip == old(self).stored_tip,
    {
        self.tip_hash = new_tip_hash.to_owned();
    }

    /// A walk from the in-memory tip towards genesis.
    pub fn iterator(&self) -> (r: BlockchainIterator<'_>)
        ensures
            *r.chain == *self,
            r.remaining() == self.chain(),
    {
        BlockchainIterator { chain: self, current_hash: self.tip_hash.clone(), fuel: self.blocks.len() }
    }

    /// The blocks of the chain, from the tip to genesis.
    pub fn chain_blocks(&self) -> (r: Vec<Block>)
        requires
            self.wf(),
        ensures
            blocks_view(r@) == self.chain(),
    {
        let mut out: Vec<Block> = Vec::new();
        let mut it = self.iterator();
        loop
            invariant
                *it.chain == *self,
                self.wf(),
                blocks_view(out@) + it.remaining() == self.chain(),
            decreases it.fuel,
        {
            let ghost before = it.remaining();
            let ghost fuel = it.fuel;
            match it.next() {
                Some(b) => {
                    let ghost prev = out@;
                    out.push(b);
                    proof {
                        assert(blocks_view(out@) =~= blocks_view(prev) + seq![b@]);
                        assert(blocks_view(out@) + it.remaining() =~= blocks_view(prev) + before);
                        assert(it.fuel < fuel) by {
                            assert(fuel > 0);
                        }
                    }
                },
                None => {
                    assert(blocks_view(out@) =~= self.chain());
                    return out;
                },
            }
        }
    }

    /// The transactions of the chain: the tip's first, genesis' last.
    pub fn chain_transactions(&self) -> (r: Vec<Transaction>)
        requires
            self.wf(),
        ensures
            txs_view(r@) == self.chain_txs(),
    {
        let blocks = self.chain_blocks();
        let ghost bv = blocks_view(blocks@);
        let mut out: Vec<Transaction> = Vec::new();
        let mut j: usize = 0;
        while j < blocks.len()
            invariant
                j <= blocks@.len(),
                bv == blocks_view(blocks@),
                txs_view(out@) == flatten(bv.take(j as int)),
            decreases blocks@.len() - j,
        {
            let ghost prev = out@;
            let mut k: usize = 0;
            let txs = blocks[j].get_transactions();
            while k < txs.len()
                invariant
                    k <= txs@.len(),
                    j < blocks@.len(),
                    txs@ == blocks@[j as int].transactions@,
                    txs_view(out@) == txs_view(prev) + txs_view(txs@).take(k as int),
                decreases txs@.len() - k,
            {
                let ghost mid = out@;
                let t = txs[k].duplicate();
                out.push(t);
                proof {
                    assert(txs_view(out@) =~= txs_view(mid).push(t@));
                    assert(txs_view(txs@).take(k + 1) =~= txs_view(txs@).take(k as int).push(t@));
                }
                k = k + 1;
            }
            assert(bv.take(j + 1).drop_last() =~= bv.take(j as int));
            assert(txs_view(txs@).take(k as int) =~= bv[j as int].transactions);
            j = j + 1;
        }
        assert(bv.take(j as int) =~= bv);
        out
    }

    /// The first transaction of the chain, from the tip, whose id is `txid`.
    pub fn find_transaction(&self, txid: &[u8]) -> (r: Option<Transaction>)
        requires
            self.wf(),
        ensures
            r is None <==> find_tx(self.chain_txs(), txid@) is None,
            r matches Some(t) ==> find_tx(self.chain_txs(), txid@) == Some(t@),
    {
        let txs = self.chain_transactions();
        let ghost tv = txs_view(txs@);
        let mut i: usize = 0;
        while i < txs.len()
            invariant
                i <= txs@.len(),
                tv == txs_view(txs@),
                tv == self.chain_txs(),
                find_tx(tv.take(i as int), txid@) is None,
            decreases txs@.len() - i,
        {
            proof {
                assert(tv.take(i + 1).drop_last() =~= tv.take(i as int));
            }
            if bytes_eq(txid, txs[i].get_id()) {
                proof {
                    lemma_find_tx_prefix(tv, txid@, i + 1, tv.len() as int);
                    assert(tv.take(tv.len() as int) =~= tv);
                }
                return Some(txs[i].duplicate());
            }
            i = i + 1;
        }
        assert(tv.take(i as int) =~= tv);
        None
    }

    /// The stored block whose hash text has the UTF-8 bytes `block_hash`.
    pub fn get_block(&self, block_hash: &[u8]) -> (r: Option<Block>)
        requires
            self.wf(),
        ensures
            r is None <==> forall|i: int|
                0 <= i < self.blocks@.len() ==> encode_utf8(#[trigger] self.blocks@[i].hash@)
                    != block_hash@,
            r matches Some(b) ==> self.store().contains_key(b@.hash) && self.store()[b@.hash]
                == b@ && encode_utf8(b@.hash) == block_hash@,
    {
        let mut i: usize = 0;
        while i < self.blocks.len()
            invariant
                i <= self.blocks@.len(),
                self.wf(),
                forall|k: int|
                    0 <= k < i ==> encode_utf8(#[trigger] self.blocks@[k].hash@) != block_hash@,
            decreases self.blocks@.len() - i,
        {
            if bytes_eq(self.blocks[i].hash.as_str().as_bytes(), block_hash) {
                let b = self.blocks[i].duplicate();
                proof {
                    let bs = self.store_view();
                    assert(bs[i as int].hash == b@.hash);
                    assert(has_block(bs, b@.hash));
                    let j = block_index(bs, b@.hash);
                    assert(0 <= j < bs.len() && bs[j].hash == b@.hash);
                    assert(bs[j] == self.blocks@[j]@);
                    assert(self.blocks@[j].hash@ == self.blocks@[i as int].hash@);
                }
                return Some(b);
            }
            i = i + 1;
        }
        None
    }

    /// The UTF-8 bytes of the hash texts of the chain's blocks, from the tip to genesis.
    pub fn get_block_hashes(&self) -> (r: Vec<Vec<u8>>)
        requires
            self.wf(),
        ensures
            r@.len() == self.chain().len(),
            forall|i: int| 0 <= i < r@.len() ==> (#[trigger] r@[i])@ == encode_utf8(self.chain()[i].hash),
    {
        let blocks = self.chain_blocks();
        let mut out: Vec<Vec<u8>> = Vec::new();
        let mut i: usize = 0;
        while i < blocks.len()
            invariant
                i <= blocks@.len(),
                blocks_view(blocks@) == self.chain(),
                out@.len() == i,
                forall|k: int| 0 <= k < i ==> (#[trigger] out@[k])@ == encode_utf8(self.chain()[k].hash),
            decreases blocks@.len() - i,
        {
            out.push(blocks[i].get_hash_bytes());
            i = i + 1;
        }
        out
    }

    /// The height of the block that the in-memory tip names; fails where that block is not
    /// stored.
    pub fn get_best_height(&self) -> (r: Result<usize, ChainError>)
        requires
            self.wf(),
        ensures
            r is Ok <==> self.store().contains_key(self.tip_hash@),
            r matches Ok(h) ==> h == self.store()[self.tip_hash@].height,
            r matches Err(e) ==> e == ChainError::NoBlockchain,
    {
        match self.index_of(self.tip_hash.as_str()) {
            Some(i) => Ok(self.blocks[i].height),
            None => Err(ChainError::NoBlockchain),
        }
    }

    /// Stores a block received from a peer. A block already stored changes nothing. Otherwise
    /// the block is stored; the recorded tip moves to it where it stands higher than the block
    /// the recorded tip names; the in-memory tip moves to it in any case.
    pub fn add_block(&mut self, block: &Block)
        requires
            old(self).wf(),
        ensures
            block_added(*old(self), *final(self), block@),
    {
        if self.index_of(block.hash.as_str()).is_some() {
            return;
        }
        let tip_height = match self.index_of(self.stored_tip.as_str()) {
            Some(i) => Some(self.blocks[i].height),
            None => None,
        };
        self.put_block(block.duplicate());
        match tip_height {
            Some(h) => {
                if block.height > h {
                    self.stored_tip = block.hash.clone();
                }
            },
            None => {},
        }
        self.tip_hash = block.hash.clone();
    }
}

/// The effect of storing a block received from a peer: a block already stored changes
/// nothing; otherwise it is stored, the in-memory tip moves to it, and the recorded tip moves to
/// it where it stands higher than the block the recorded tip named.
pub open spec fn block_added(before: Blockchain, after: Blockchain, b: BlockModel) -> bool {
    &&& after.wf()
    &&& after.store().contains_key(b.hash)
    &&& before.store().contains_key(b.hash) ==> after == before
    &&& !before.store().contains_key(b.hash) ==> {
        &&& after.store() == before.store().insert(b.hash, b)
        &&& after.tip_hash@ == b.hash
        &&& after.stored_tip@ == if advances_tip(&before, b) {
            b.hash
        } else {
            before.stored_tip@
        }
    }
}

/// Storing the same block twice leaves the chain as the first time left it.
pub proof fn lemma_add_block_idempotent(c0: Blockchain, c1: Blockchain, c2: Blockchain, b: BlockModel)
    requires
        block_added(c0, c1, b),
        block_added(c1, c2, b),
    ensures
        c2 == c1,
{
}

/// Whether adding `b` moves the recorded tip: the block that the recorded tip names is stored
/// and stands lower than `b`.
pub open spec fn advances_tip(c: &Blockchain, b: BlockModel) -> bool {
    c.store().contains_key(c.stored_tip@) && b.height > c.store()[c.stored_tip@].height
}

/// Unspent outputs grouped by the hex text of their transaction's id.
pub type UtxoModel = Seq<(Seq<char>, Seq<OutputModel>)>;

/// Spent outputs as (hex text of the transaction id, output index).
pub type SpentModel = Seq<(Seq<char>, usize)>;

pub open spec fn utxo_view(v: Seq<(String, Vec<TXOutput>)>) -> UtxoModel {
    v.map_values(|e: (String, Vec<TXOutput>)| (e.0@, outputs_view(e.1@)))
}

pub open spec fn spent_view(v: Seq<(String, usize)>) -> SpentModel {
    v.map_values(|e: (String, usize)| (e.0@, e.1))
}

/// No two groups share a key.
pub open spec fn keys_unique(u: UtxoModel) -> bool {
    forall|i: int, j: int|
        0 <= i < u.len() && 0 <= j < u.len() && (#[trigger] u[i]).0 == (#[trigger] u[j]).0 ==> i
            == j
}

pub open spec fn has_key(u: UtxoModel, key: Seq<char>) -> bool {
    exists|j: int| 0 <= j < u.len() && (#[trigger] u[j]).0 == key
}

pub open spec fn key_index(u: UtxoModel, key: Seq<char>) -> int {
    choose|j: int| 0 <= j < u.len() && (#[trigger] u[j]).0 == key
}

/// `o` appended to the group of `key`, which is created where missing.
pub open spec fn add_out(u: UtxoModel, key: Seq<char>, o: OutputModel) -> UtxoModel {
    if has_key(u, key) {
        let j = key_index(u, key);
        u.update(j, (key, u[j].1.push(o)))
    } else {
        u.push((key, seq![o]))
    }
}

/// Whether output `idx` of the transaction with hex id `key` is marked spent.
pub open spec fn spent_has(spent: SpentModel, key: Seq<char>, idx: int) -> bool {
    exists|j: int| 0 <= j < spent.len() && (#[trigger] spent[j]).0 == key && spent[j].1 == idx
}

/// The outputs of `outs` whose index is not marked spent for `key`, each appended to the group
/// of `key` in order.
pub open spec fn add_unspent(u: UtxoModel, spent: SpentModel, key: Seq<char>, outs: Seq<OutputModel>) -> UtxoModel
    decreases outs.len(),
{
    if outs.len() == 0 {
        u
    } else {
        let v = add_unspent(u, spent, key, outs.drop_last());
        if spent_has(spent, key, outs.len() - 1) {
            v
        } else {
            add_out(v, key, outs.last())
        }
    }
}

/// One step of the scan for unspent outputs: every output of the transaction that is not
/// already marked spent is collected; then, unless it is a coinbase, the outputs its inputs refer
/// to are marked spent.
pub open spec fn scan_tx(st: (UtxoModel, SpentModel), t: TxModel) -> (UtxoModel, SpentModel) {
    let key = hex_lower(t.id);
    let u = add_unspent(st.0, st.1, key, t.vout);
    if is_coinbase_tx(t) {
        (u, st.1)
    } else {
        (u, st.1 + t.vin.map_values(|i: InputModel| (hex_lower(i.txid), i.vout)))
    }
}

/// The scan for unspent outputs over transactions taken in order.
pub open spec fn scan(txs: Seq<TxModel>) -> (UtxoModel, SpentModel)
    decreases txs.len(),
{
    if txs.len() == 0 {
        (Seq::empty(), Seq::empty())
    } else {
        scan_tx(scan(txs.drop_last()), txs.last())
    }
}

fn spent_contains(spent: &Vec<(String, usize)>, key: &str, idx: usize) -> (r: bool)
    ensures
        r == spent_has(spent_view(spent@), key@, idx as int),
{
    let mut j: usize = 0;
    while j < spent.len()
        invariant
            j <= spent@.len(),
            forall|k: int|
                0 <= k < j ==> !((#[trigger] spent@[k]).0@ == key@ && spent@[k].1 == idx),
        decreases spent@.len() - j,
    {
        if spent[j].1 == idx && str_eq(spent[j].0.as_str(), key) {
            assert(spent_view(spent@)[j as int] == (key@, idx));
            return true;
        }
        j = j + 1;
    }
    proof {
        let sv = spent_view(spent@);
        if spent_has(sv, key@, idx as int) {
            let k = choose|k: int| 0 <= k < sv.len() && (#[trigger] sv[k]).0 == key@ && sv[k].1 == idx;
            assert(sv[k] == (spent@[k].0@, spent@[k].1));
        }
    }
    false
}

fn add_output(utxo: &mut Vec<(String, Vec<TXOutput>)>, key: &String, o: &TXOutput)
    requires
        keys_unique(utxo_view(old(utxo)@)),
    ensures
        keys_unique(utxo_view(final(utxo)@)),
        utxo_view(final(utxo)@) == add_out(utxo_view(old(utxo)@), key@, o@),
{
    let ghost u = utxo_view(utxo@);
    let mut j: usize = 0;
    while j < utxo.len()
        invariant
            j <= utxo@.len(),
            u == utxo_view(utxo@),
            utxo@ == old(utxo)@,
            keys_unique(u),
            forall|k: int| 0 <= k < j ==> (#[trigger] utxo@[k]).0@ != key@,
        decreases utxo@.len() - j,
    {
        if str_eq(utxo[j].0.as_str(), key.as_str()) {
            let mut outs = copy_outputs(utxo[j].1.as_slice());
            let ghost inner = outs@;
            let od = o.duplicate();
            outs.push(od);
            assert(outputs_view(outs@) =~= outputs_view(inner).push(o@));
            proof {
                assert(u[j as int].0 == key@);
                assert(has_key(u, key@));
                let m = key_index(u, key@);
                assert(u[m].0 == u[j as int].0);
                assert(m == j);
            }
            utxo.set(j, (key.clone(), outs));
            proof {
                assert(utxo_view(utxo@) =~= add_out(u, key@, o@));
            }
            return;
        }
        j = j + 1;
    }
    proof {
        if has_key(u, key@) {
            let m = choose|m: int| 0 <= m < u.len() && (#[trigger] u[m]).0 == key@;
            assert(u[m].0 == utxo@[m].0@);
        }
    }
    let mut single: Vec<TXOutput> = Vec::new();
    single.push(o.duplicate());
    utxo.push((key.clone(), single));
    proof {
        assert(outputs_view(single@) =~= seq![o@]);
        assert(utxo_view(utxo@) =~= add_out(u, key@, o@));
        assert forall|i: int, k: int|
            0 <= i < utxo@.len() && 0 <= k < utxo@.len() && (#[trigger] utxo_view(utxo@)[i]).0
                == (#[trigger] utxo_view(utxo@)[k]).0 implies i == k by {
            if i < u.len() && k < u.len() {
                assert(utxo_view(utxo@)[i] == u[i]);
                assert(utxo_view(utxo@)[k] == u[k]);
            } else if i < u.len() {
                assert(utxo_view(utxo@)[i].0 == utxo@[i].0@);
            } else if k < u.len() {
                assert(utxo_view(utxo@)[k].0 == utxo@[k].0@);
            }
        }
    }
}

impl Blockchain {
    /// Scans the chain from the tip to genesis for outputs that no later input spends, grouped
    /// by the hex text of their transaction's id.
    pub fn find_utxo(&self) -> (r: Vec<(String, Vec<TXOutput>)>)
        requires
            self.wf(),
        ensures
            utxo_view(r@) == scan(self.chain_txs()).0,
            keys_unique(utxo_view(r@)),
    {
        let txs = self.chain_transactions();
        let ghost tv = txs_view(txs@);
        let mut utxo: Vec<(String, Vec<TXOutput>)> = Vec::new();
        let mut spent: Vec<(String, usize)> = Vec::new();
        let mut i: usize = 0;
        assert(utxo_view(utxo@) =~= Seq::<(Seq<char>, Seq<OutputModel>)>::empty());
        assert(spent_view(spent@) =~= Seq::<(Seq<char>, usize)>::empty());
        while i < txs.len()
            invariant
                i <= txs@.len(),
                tv == txs_view(txs@),
                tv == self.chain_txs(),
                keys_unique(utxo_view(utxo@)),
                (utxo_view(utxo@), spent_view(spent@)) == scan(tv.take(i as int)),
            decreases txs@.len() - i,
        {
            let tx = &txs[i];
            let ghost t = tx@;
            let ghost st = (utxo_view(utxo@), spent_view(spent@));
            let key = hex_encode(tx.get_id());
            let outs = tx.get_vout();
            let n: usize = outs.len();
            let mut idx: usize = 0;
            let ghost u0 = utxo_view(utxo@);
            while idx < n
                invariant
                    idx <= n == t.vout.len(),
                    key@ == hex_lower(t.id),
                    outs@ == tx.vout@,
                    t == tx@,
                    spent_view(spent@) == st.1,
                    keys_unique(utxo_view(utxo@)),
                    utxo_view(utxo@) == add_unspent(u0, st.1, key@, t.vout.take(idx as int)),
                decreases n - idx,
            {
                proof {
                    assert(t.vout.take(idx + 1).drop_last() =~= t.vout.take(idx as int));
                    assert(t.vout.take(idx + 1).last() == outs@[idx as int]@);
                }
                if !spent_contains(&spent, key.as_str(), idx) {
                    add_output(&mut utxo, &key, &outs[idx]);
                }
                idx = idx + 1;
            }
            assert(t.vout.take(idx as int) =~= t.vout);
            if !tx.is_coinbase() {
                let vin = tx.get_vin();
                let mut m: usize = 0;
                let ghost s0 = spent_view(spent@);
                while m < vin.len()
                    invariant
                        m <= vin@.len(),
                        vin@ == tx.vin@,
                        t == tx@,
                        spent_view(spent@) == s0 + t.vin.take(m as int).map_values(
                            |x: InputModel| (hex_lower(x.txid), x.vout),
                        ),
                    decreases vin@.len() - m,
                {
                    let h = hex_encode(vin[m].get_txid());
                    let ghost before = spent_view(spent@);
                    let ghost entry = (hex_lower(t.vin[m as int].txid), t.vin[m as int].vout);
                    spent.push((h, vin[m].vout));
                    proof {
                        assert(spent_view(spent@) =~= before.push(entry));
                        assert(t.vin.take(m + 1).map_values(
                            |x: InputModel| (hex_lower(x.txid), x.vout),
                        ) =~= t.vin.take(m as int).map_values(
                            |x: InputModel| (hex_lower(x.txid), x.vout),
                        ).push(entry));
                        assert(spent_view(spent@) =~= s0 + t.vin.take(m + 1).map_values(
                            |x: InputModel| (hex_lower(x.txid), x.vout),
                        ));
                    }
                    m = m + 1;
                }
                assert(t.vin.take(m as int) =~= t.vin);
            }
            proof {
                assert(tv.take(i + 1).drop_last() =~= tv.take(i as int));
                assert(tv.take(i + 1).last() == t);
                assert(st == scan(tv.take(i as int)));
                assert(scan(tv.take(i + 1)) == scan_tx(st, t));
                assert(u0 == st.0);
            }
            i = i + 1;
        }
        assert(tv.take(i as int) =~= tv);
        utxo
    }
}

/// Every key is the hex text of some byte string.
pub open spec fn keys_hex(u: UtxoModel) -> bool {
    forall|i: int| 0 <= i < u.len() ==> exists|b: Seq<u8>| hex_lower(b) == (#[trigger] u[i]).0
}

proof fn lemma_add_unspent_hex(
    u: UtxoModel,
    spent: SpentModel,
    key: Seq<char>,
    outs: Seq<OutputModel>,
    id: Seq<u8>,
)
    requires
        keys_hex(u),
        hex_lower(id) == key,
    ensures
        keys_hex(add_unspent(u, spent, key, outs)),
    decreases outs.len(),
{
    if outs.len() > 0 {
        lemma_add_unspent_hex(u, spent, key, outs.drop_last(), id);
        let v = add_unspent(u, spent, key, outs.drop_last());
        let w = add_out(v, key, outs.last());
        assert forall|i: int| 0 <= i < w.len() implies exists|b: Seq<u8>| hex_lower(b) == (
        #[trigger] w[i]).0 by {
            if w[i].0 == key {
                assert(hex_lower(id) == w[i].0);
            } else {
                assert(w[i].0 == v[i].0);
            }
        }
    }
}

proof fn lemma_scan_hex(txs: Seq<TxModel>)
    ensures
        keys_hex(scan(txs).0),
    decreases txs.len(),
{
    if txs.len() > 0 {
        lemma_scan_hex(txs.drop_last());
        let st = scan(txs.drop_last());
        let t = txs.last();
        lemma_add_unspent_hex(st.0, st.1, hex_lower(t.id), t.vout, t.id);
    }
}

/// Each key of the scan's result is the hex text of some transaction id.
pub proof fn lemma_scan_keys_hex(txs: Seq<TxModel>, i: int)
    requires
        0 <= i < scan(txs).0.len(),
    ensures
        exists|b: Seq<u8>| hex_lower(b) == (#[trigger] scan(txs).0[i]).0,
{
    lemma_scan_hex(txs);
}

impl Blockchain {
    /// A new chain whose genesis block pays the subsidy to `genesis_address`. Fails where the
    /// address does not decode.
    pub fn create_blockchain(genesis_address: &str) -> (r: Result<Blockchain, ChainError>)
        ensures
            r is Err <==> !address_decodes(genesis_address@),
            r matches Err(e) ==> e == ChainError::InvalidAddress,
            r matches Ok(c) ==> {
                &&& c.wf()
                &&& c.blocks@.len() == 1
                &&& c.tip_hash == c.stored_tip
                &&& c.tip_hash@ == c.store_view()[0].hash
                &&& c.store_view()[0].pre_block_hash == genesis_prev()
                &&& c.store_view()[0].height == 0
                &&& mined(c.store_view()[0])
                &&& c.store_view()[0].transactions.len() == 1
                &&& is_coinbase_tx(c.store_view()[0].transactions[0])
                &&& c.store_view()[0].transactions[0].vout == seq![
                    OutputModel { value: SUBSIDY, pub_key_hash: address_hash(genesis_address@) },
                ]
            },
    {
        let coinbase_tx = match Transaction::new_coinbase_tx(genesis_address) {
            Ok(t) => t,
            Err(e) => return Err(e),
        };
        let block = Block::generate_genesis_block(&coinbase_tx);
        let tip = block.hash.clone();
        let mut blocks: Vec<Block> = Vec::new();
        blocks.push(block);
        let c = Blockchain { blocks, stored_tip: tip.clone(), tip_hash: tip };
        assert(c.store_view()[0] == c.blocks@[0]@);
        Ok(c)
    }

    /// Mines a block of `transactions` on top of the in-memory tip: every transaction must
    /// verify, the block stands one above the tip, and both tips move to it.
    pub fn mine_block(&mut self, transactions: &[Transaction]) -> (r: Result<Block, ChainError>)
        requires
            old(self).wf(),
        ensures
            final(self).wf(),
            r is Err ==> *final(self) == *old(self),
            r matches Err(e) ==> e == ChainError::InvalidTransaction || e
                == ChainError::PreviousTransactionMissing || e == ChainError::NoBlockchain,
            (exists|i: int|
                0 <= i < transactions@.len() && verify_result(
                    #[trigger] transactions@[i]@,
                    old(self).chain_txs(),
                ) != Ok::<bool, ChainError>(true)) ==> r is Err,
            !old(self).store().contains_key(old(self).tip_hash@) ==> r is Err,
            (forall|i: int|
                0 <= i < transactions@.len() ==> verify_result(
                    #[trigger] transactions@[i]@,
                    old(self).chain_txs(),
                ) == Ok::<bool, ChainError>(true)) && old(self).store().contains_key(
                old(self).tip_hash@,
            ) && old(self).store()[old(self).tip_hash@].height < usize::MAX ==> r is Ok,
            r matches Ok(b) ==> {
                &&& forall|i: int|
                    0 <= i < transactions@.len() ==> verify_result(
                        #[trigger] transactions@[i]@,
                        old(self).chain_txs(),
                    ) == Ok::<bool, ChainError>(true)
                &&& old(self).store().contains_key(old(self).tip_hash@)
                &&& b@.pre_block_hash == old(self).tip_hash@
                &&& b@.height == old(self).store()[old(self).tip_hash@].height + 1
                &&& b@.transactions == txs_view(transactions@)
                &&& mined(b@)
                &&& final(self).store() == old(self).store().insert(b@.hash, b@)
                &&& final(self).tip_hash@ == b@.hash
                &&& final(self).stored_tip@ == b@.hash
            },
    {
        let mut i: usize = 0;
        while i < transactions.len()
            invariant
                i <= transactions@.len(),
                self.wf(),
                *self == *old(self),
                forall|k: int|
                    0 <= k < i ==> verify_result(#[trigger] transactions@[k]@, self.chain_txs())
                        == Ok::<bool, ChainError>(true),
            decreases transactions@.len() - i,
        {
            match transactions[i].verify(self) {
                Ok(true) => {},
                Ok(false) => return Err(ChainError::InvalidTransaction),
                Err(e) => {
                    proof {
                        crate::transaction::lemma_verify_error(
                            transactions@[i as int]@,
                            self.chain_txs(),
                            0,
                        );
                    }
                    return Err(e);
                },
            }
            i = i + 1;
        }
        let best_height = match self.get_best_height() {
            Ok(h) => h,
            Err(e) => return Err(e),
        };
        if best_height == usize::MAX {
            return Err(ChainError::NoBlockchain);
        }
        let block = Block::new_block(self.get_tip_hash(), transactions, best_height + 1);
        self.put_block(block.duplicate());
        self.stored_tip = block.hash.clone();
        self.tip_hash = block.hash.clone();
        Ok(block)
    }
}

/// Every stored block other than a genesis block refers to a stored block one height below it.
pub open spec fn linked(store: Map<Seq<char>, BlockModel>) -> bool {
    forall|h: Seq<char>|
        #[trigger] store.contains_key(h) && store[h].pre_block_hash != genesis_prev() ==> {
            &&& store.contains_key(store[h].pre_block_hash)
            &&& store[store[h].pre_block_hash].height + 1 == store[h].height
        }
}

/// A block mined on top of a stored tip keeps the store linked: its predecessor is the tip and
/// it stands one above it.
pub proof fn lemma_mined_block_keeps_links(
    store: Map<Seq<char>, BlockModel>,
    tip: Seq<char>,
    b: BlockModel,
)
    requires
        linked(store),
        store.contains_key(tip),
        !store.contains_key(b.hash),
        b.pre_block_hash == tip,
        b.height == store[tip].height + 1,
    ensures
        linked(store.insert(b.hash, b)),
{
    let s2 = store.insert(b.hash, b);
    assert forall|h: Seq<char>|
        #[trigger] s2.contains_key(h) && s2[h].pre_block_hash != genesis_prev() implies {
            &&& s2.contains_key(s2[h].pre_block_hash)
            &&& s2[s2[h].pre_block_hash].height + 1 == s2[h].height
        } by {
        if h != b.hash {
            assert(store.contains_key(h));
            let p = store[h].pre_block_hash;
            assert(store.contains_key(p));
            assert(p != b.hash);
        }
    }
}

/// A chain of one genesis block is linked.
pub proof fn lemma_genesis_linked(c: Blockchain)
    requires
        c.wf(),
        c.blocks@.len() == 1,
        c.store_view()[0].pre_block_hash == genesis_prev(),
    ensures
        linked(c.store()),
{
    assert forall|h: Seq<char>|
        #[trigger] c.store().contains_key(h) && c.store()[h].pre_block_hash != genesis_prev()
        implies false by {
        let k = block_index(c.store_view(), h);
        assert(k == 0);
    }
}

} // verus!
