use vstd::prelude::*;

use crate::block::txs_view;
use crate::encoding::{bytes_eq, copy_bytes, hex_encode, hex_lower, str_eq};
use crate::transaction::{Transaction, TxModel};

verus! {

/// Pending transactions keyed by the hex text of their id.
pub struct MemoryPool {
    pub inner: Vec<(String, Transaction)>,
}

impl MemoryPool {
    /// Each transaction is held under the hex text of its id, and no two entries share a key.
    pub open spec fn wf(&self) -> bool {
        &&& forall|i: int|
            0 <= i < self.inner@.len() ==> (#[trigger] self.inner@[i]).0@ == hex_lower(
                self.inner@[i].1@.id,
            )
        &&& forall|i: int, j: int|
            0 <= i < self.inner@.len() && 0 <= j < self.inner@.len() && (
            #[trigger] self.inner@[i]).0@ == (#[trigger] self.inner@[j]).0@ ==> i == j
    }

    /// Whether a transaction is held under `key`.
    pub open spec fn holds(&self, key: Seq<char>) -> bool {
        exists|i: int| 0 <= i < self.inner@.len() && (#[trigger] self.inner@[i]).0@ == key
    }

    /// The transaction held under `key`.
    pub open spec fn tx_of(&self, key: Seq<char>) -> TxModel {
        self.inner@[choose|i: int|
            0 <= i < self.inner@.len() && (#[trigger] self.inner@[i]).0@ == key].1@
    }

    /// An empty pool.
    pub fn new() -> (r: MemoryPool)
        ensures
            r.wf(),
            r.inner@.len() == 0,
    {
        MemoryPool { inner: Vec::new() }
    }

    fn position(&self, txid_hex: &str) -> (r: Option<usize>)
        requires
            self.wf(),
        ensures
            r is None <==> !self.holds(txid_hex@),
            r matches Some(i) ==> i < self.inner@.len() && self.inner@[i as int].0@ == txid_hex@
                && self.inner@[i as int].1@ == self.tx_of(txid_hex@),
    {
        let mut i: usize = 0;
        while i < self.inner.len()
            invariant
                i <= self.inner@.len(),
                self.wf(),
                forall|k: int| 0 <= k < i ==> (#[trigger] self.inner@[k]).0@ != txid_hex@,
            decreases self.inner@.len() - i,
        {
            if str_eq(self.inner[i].0.as_str(), txid_hex) {
                proof {
                    assert(self.holds(txid_hex@));
                    let j = choose|j: int|
                        0 <= j < self.inner@.len() && (#[trigger] self.inner@[j]).0@ == txid_hex@;
                    assert(self.inner@[j].0@ == self.inner@[i as int].0@);
                }
                return Some(i);
            }
            i = i + 1;
        }
        None
    }

    /// Whether a transaction is held under `txid_hex`.
    pub fn contains(&self, txid_hex: &str) -> (r: bool)
        requires
            self.wf(),
        ensures
            r == self.holds(txid_hex@),
    {
        self.position(txid_hex).is_some()
    }

    /// Holds `tx` under the hex text of its id, replacing a transaction held there.
    pub fn add(&mut self, tx: Transaction)
        requires
            old(self).wf(),
        ensures
            final(self).wf(),
            final(self).holds(crate::encoding::hex_lower(tx@.id)),
            final(self).tx_of(crate::encoding::hex_lower(tx@.id)) == tx@,
            forall|k: Seq<char>|
                k != crate::encoding::hex_lower(tx@.id) ==> (final(self).holds(k) <==> old(self).holds(k))
                    && (old(self).holds(k) ==> final(self).tx_of(k) == old(self).tx_of(k)),
    {
        let key = hex_encode(tx.get_id());
        let ghost kv = key@;
        let ghost tv = tx@;
        let ghost prev = self.inner@;
        match self.position(key.as_str()) {
            Some(i) => {
                self.inner.set(i, (key, tx));
                proof {
                    assert(forall|k: int|
                        0 <= k < prev.len() ==> (#[trigger] self.inner@[k]).0@ == prev[k].0@);
                    assert(forall|k: int|
                        0 <= k < prev.len() && k != i ==> (#[trigger] self.inner@[k]) == prev[k]);
                    self.lemma_frame(*old(self), kv);
                    assert(self.inner@[i as int].0@ == kv);
                    let j = choose|j: int|
                        0 <= j < self.inner@.len() && (#[trigger] self.inner@[j]).0@ == kv;
                    assert(self.inner@[j].0@ == self.inner@[i as int].0@);
                }
            },
            None => {
                self.inner.push((key, tx));
                proof {
                    assert(forall|k: int| 0 <= k < prev.len() ==> (#[trigger] self.inner@[k]) == prev[k]);
                    assert(self.inner@[prev.len() as int].0@ == kv);
                    assert(forall|k: int| 0 <= k < prev.len() ==> (#[trigger] prev[k]).0@ != kv);
                    self.lemma_frame(*old(self), kv);
                    let j = choose|j: int|
                        0 <= j < self.inner@.len() && (#[trigger] self.inner@[j]).0@ == kv;
                    assert(self.inner@[j].0@ == self.inner@[prev.len() as int].0@);
                }
            },
        }
    }

    /// Entries whose key is not `key` are kept at the same place: the pool is unchanged there.
    proof fn lemma_frame(&self, before: MemoryPool, key: Seq<char>)
        requires
            self.wf(),
            before.wf(),
            forall|k: int|
                0 <= k < before.inner@.len() && (#[trigger] before.inner@[k]).0@ != key ==> k
                    < self.inner@.len() && self.inner@[k] == before.inner@[k],
            forall|k: int|
                0 <= k < self.inner@.len() && (#[trigger] self.inner@[k]).0@ != key ==> k
                    < before.inner@.len() && self.inner@[k] == before.inner@[k],
        ensures
            forall|k: Seq<char>|
                k != key ==> (self.holds(k) <==> before.holds(k)) && (before.holds(k)
                    ==> self.tx_of(k) == before.tx_of(k)),
    {
        assert forall|k: Seq<char>| k != key implies (self.holds(k) <==> before.holds(k)) && (
        before.holds(k) ==> self.tx_of(k) == before.tx_of(k)) by {
            if self.holds(k) {
                let j = choose|j: int|
                    0 <= j < self.inner@.len() && (#[trigger] self.inner@[j]).0@ == k;
                assert(before.inner@[j].0@ == k);
            }
            if before.holds(k) {
                let j = choose|j: int|
                    0 <= j < before.inner@.len() && (#[trigger] before.inner@[j]).0@ == k;
                assert(self.inner@[j].0@ == k);
                let j2 = choose|j2: int|
                    0 <= j2 < self.inner@.len() && (#[trigger] self.inner@[j2]).0@ == k;
                assert(self.inner@[j2].0@ == self.inner@[j].0@);
            }
        }
    }

    /// The transaction held under `txid_hex`.
    pub fn get(&self, txid_hex: &str) -> (r: Option<Transaction>)
        requires
            self.wf(),
        ensures
            r is Some <==> self.holds(txid_hex@),
            r matches Some(t) ==> t@ == self.tx_of(txid_hex@),
    {
        match self.position(txid_hex) {
            Some(i) => Some(self.inner[i].1.duplicate()),
            None => None,
        }
    }

    /// Drops the transaction held under `txid_hex`, if any.
    pub fn remove(&mut self, txid_hex: &str)
        requires
            old(self).wf(),
        ensures
            final(self).wf(),
            !final(self).holds(txid_hex@),
            forall|k: Seq<char>|
                k != txid_hex@ ==> (final(self).holds(k) <==> old(self).holds(k))
                    && (old(self).holds(k) ==> final(self).tx_of(k) == old(self).tx_of(k)),
    {
        match self.position(txid_hex) {
            Some(i) => {
                let ghost prev = self.inner@;
                self.inner.remove(i);
                proof {
                    assert forall|a: int, b: int|
                        0 <= a < self.inner@.len() && 0 <= b < self.inner@.len() && (
                        #[trigger] self.inner@[a]).0@ == (#[trigger] self.inner@[b]).0@ implies a
                        == b by {
                        let a2 = if a < i { a } else { a + 1 };
                        let b2 = if b < i { b } else { b + 1 };
                        assert(self.inner@[a] == prev[a2]);
                        assert(self.inner@[b] == prev[b2]);
                    }
                    assert forall|k: Seq<char>| k != txid_hex@ implies (self.holds(k)
                        <==> old(self).holds(k)) && (old(self).holds(k) ==> self.tx_of(k)
                        == old(self).tx_of(k)) by {
                        if self.holds(k) {
                            let j = choose|j: int|
                                0 <= j < self.inner@.len() && (#[trigger] self.inner@[j]).0@ == k;
                            let j2 = if j < i { j } else { j + 1 };
                            assert(prev[j2].0@ == k);
                        }
                        if old(self).holds(k) {
                            let j = choose|j: int|
                                0 <= j < prev.len() && (#[trigger] prev[j]).0@ == k;
                            assert(j != i);
                            let j1 = if j < i { j } else { j - 1 };
                            assert(self.inner@[j1] == prev[j]);
                            let j3 = choose|j3: int|
                                0 <= j3 < self.inner@.len() && (#[trigger] self.inner@[j3]).0@ == k;
                            assert(self.inner@[j3].0@ == self.inner@[j1].0@);
                        }
                    }
                    if self.holds(txid_hex@) {
                        let j = choose|j: int|
                            0 <= j < self.inner@.len() && (#[trigger] self.inner@[j]).0@
                                == txid_hex@;
                        let j2 = if j < i { j } else { j + 1 };
                        assert(prev[j2].0@ == prev[i as int].0@);
                    }
                }
            },
            None => {},
        }
    }

    /// Every transaction held, in the order they were first added; no two share an id.
    pub fn get_all(&self) -> (r: Vec<Transaction>)
        requires
            self.wf(),
        ensures
            r@.len() == self.inner@.len(),
            forall|i: int| 0 <= i < r@.len() ==> (#[trigger] r@[i])@ == self.inner@[i].1@,
            forall|i: int, j: int|
                0 <= i < r@.len() && 0 <= j < r@.len() && (#[trigger] r@[i])@.id == (
                #[trigger] r@[j])@.id ==> i == j,
    {
        let mut out: Vec<Transaction> = Vec::new();
        let mut i: usize = 0;
        while i < self.inner.len()
            invariant
                i <= self.inner@.len(),
                out@.len() == i,
                forall|k: int| 0 <= k < i ==> (#[trigger] out@[k])@ == self.inner@[k].1@,
            decreases self.inner@.len() - i,
        {
            out.push(self.inner[i].1.duplicate());
            i = i + 1;
        }
        proof {
            assert forall|a: int, b: int|
                0 <= a < out@.len() && 0 <= b < out@.len() && (#[trigger] out@[a])@.id == (
                #[trigger] out@[b])@.id implies a == b by {
                assert(self.inner@[a].0@ == hex_lower(self.inner@[a].1@.id));
                assert(self.inner@[b].0@ == hex_lower(self.inner@[b].1@.id));
            }
        }
        out
    }

    /// The number of transactions held.
    pub fn len(&self) -> (r: usize)
        ensures
            r == self.inner@.len(),
    {
        self.inner.len()
    }
}

/// Hashes of blocks still to be fetched, in the order they were announced.
pub struct BlockInTransit {
    pub inner: Vec<Vec<u8>>,
}

/// The values of a sequence of byte strings.
pub open spec fn hashes_view(s: Seq<Vec<u8>>) -> Seq<Seq<u8>> {
    s.map_values(|h: Vec<u8>| h@)
}

/// `q` without the first occurrence of `h`.
pub open spec fn without_first(q: Seq<Seq<u8>>, h: Seq<u8>) -> Seq<Seq<u8>>
    decreases q.len(),
{
    if q.len() == 0 {
        q
    } else if q[0] == h {
        q.drop_first()
    } else {
        seq![q[0]] + without_first(q.drop_first(), h)
    }
}

proof fn lemma_without_first_skip(q: Seq<Seq<u8>>, h: Seq<u8>, i: int)
    requires
        0 <= i <= q.len(),
        forall|k: int| 0 <= k < i ==> q[k] != h,
    ensures
        without_first(q, h) == q.take(i) + without_first(q.subrange(i, q.len() as int), h),
    decreases i,
{
    if i > 0 {
        let r = q.drop_first();
        lemma_without_first_skip(r, h, i - 1);
        assert(r.subrange(i - 1, r.len() as int) =~= q.subrange(i, q.len() as int));
        assert(q.take(i) =~= seq![q[0]] + r.take(i - 1));
    } else {
        assert(q.subrange(0, q.len() as int) =~= q);
        assert(q.take(0) + without_first(q, h) =~= without_first(q, h));
    }
}

impl BlockInTransit {
    pub open spec fn queue(&self) -> Seq<Seq<u8>> {
        hashes_view(self.inner@)
    }

    /// An empty queue.
    pub fn new() -> (r: BlockInTransit)
        ensures
            r.queue().len() == 0,
    {
        BlockInTransit { inner: Vec::new() }
    }

    /// Appends `blocks` in order.
    pub fn add_blocks(&mut self, blocks: &[Vec<u8>])
        ensures
            final(self).queue() == old(self).queue() + hashes_view(blocks@),
    {
        let mut i: usize = 0;
        while i < blocks.len()
            invariant
                i <= blocks@.len(),
                self.queue() == old(self).queue() + hashes_view(blocks@).take(i as int),
            decreases blocks@.len() - i,
        {
            let ghost before = self.queue();
            self.inner.push(copy_bytes(blocks[i].as_slice()));
            proof {
                assert(self.queue() =~= before.push(blocks@[i as int]@));
                assert(hashes_view(blocks@).take(i + 1) =~= hashes_view(blocks@).take(
                    i as int,
                ).push(blocks@[i as int]@));
            }
            i = i + 1;
        }
        assert(hashes_view(blocks@).take(i as int) =~= hashes_view(blocks@));
    }

    /// The number of hashes queued.
    pub fn len(&self) -> (r: usize)
        ensures
            r == self.queue().len(),
    {
        self.inner.len()
    }

    /// The hash at the front of the queue.
    pub fn first(&self) -> (r: Option<Vec<u8>>)
        ensures
            r is None <==> self.queue().len() == 0,
            r matches Some(h) ==> h@ == self.queue()[0],
    {
        if self.inner.len() == 0 {
            None
        } else {
            Some(copy_bytes(self.inner[0].as_slice()))
        }
    }

    /// Drops the first occurrence of `block_hash`, if any.
    pub fn remove(&mut self, block_hash: &[u8])
        ensures
            final(self).queue() == without_first(old(self).queue(), block_hash@),
    {
        let mut i: usize = 0;
        while i < self.inner.len()
            invariant
                i <= self.inner@.len(),
                *self == *old(self),
                forall|k: int| 0 <= k < i ==> (#[trigger] self.queue()[k]) != block_hash@,
            decreases self.inner@.len() - i,
        {
            if bytes_eq(self.inner[i].as_slice(), block_hash) {
                let ghost q = self.queue();
                proof {
                    lemma_without_first_skip(q, block_hash@, i as int);
                    assert(q.subrange(i as int, q.len() as int).drop_first() =~= q.subrange(
                        i + 1,
                        q.len() as int,
                    ));
                }
                self.inner.remove(i);
                assert(self.queue() =~= q.take(i as int) + q.subrange(i + 1, q.len() as int));
                return;
            }
            i = i + 1;
        }
        proof {
            let q = self.queue();
            lemma_without_first_skip(q, block_hash@, i as int);
            assert(q.take(i as int) =~= q);
        }
    }

    /// Empties the queue.
    pub fn clear(&mut self)
        ensures
            final(self).queue().len() == 0,
    {
        self.inner.clear();
    }
}

} // verus!
