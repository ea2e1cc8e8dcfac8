use vstd::prelude::*;
use vstd::utf8::{decode_utf8, encode_utf8, valid_utf8};

use crate::crypto::{current_timestamp, sha256_digest, sha256_of};
use crate::encoding::{
    bytes_field, copy_bytes, i64_bytes, lemma_count_at, lemma_le_bytes_inj, lemma_le_bytes_len,
    lemma_occurs_split, lemma_pow256_8, occurs_at, pow256, push_all, push_field, push_le,
    read_field, read_le, u64_bytes,
};
use crate::error::ChainError;
use crate::proof_of_work::{mined, ProofOfWork};
use crate::transaction::{read_tx, tx_bytes, Transaction, TxModel};

verus! {

/// A block: a timestamped batch of transactions linked to its predecessor by hash.
#[derive(Clone, Debug)]
pub struct Block {
    pub timestamp: i64,
    pub pre_block_hash: String,
    pub hash: String,
    pub transactions: Vec<Transaction>,
    pub nonce: i64,
    pub height: usize,
}

/// The value of a block.
pub struct BlockModel {
    pub timestamp: i64,
    pub pre_block_hash: Seq<char>,
    pub hash: Seq<char>,
    pub transactions: Seq<TxModel>,
    pub nonce: i64,
    pub height: usize,
}

/// The values of a sequence of transactions.
pub open spec fn txs_view(s: Seq<Transaction>) -> Seq<TxModel> {
    s.map_values(|t: Transaction| t@)
}

impl View for Block {
    type V = BlockModel;

    open spec fn view(&self) -> BlockModel {
        BlockModel {
            timestamp: self.timestamp,
            pre_block_hash: self.pre_block_hash@,
            hash: self.hash@,
            transactions: txs_view(self.transactions@),
            nonce: self.nonce,
            height: self.height,
        }
    }
}

/// The predecessor reference of a genesis block.
pub open spec fn genesis_prev() -> Seq<char> {
    seq!['N', 'o', 'n', 'e']
}

pub open spec fn txs_bytes(s: Seq<TxModel>) -> Seq<u8>
    decreases s.len(),
{
    if s.len() == 0 {
        Seq::empty()
    } else {
        txs_bytes(s.drop_last()) + tx_bytes(s.last())
    }
}

/// A string framed by the length of its UTF-8 bytes.
pub open spec fn str_field(s: Seq<char>) -> Seq<u8> {
    bytes_field(encode_utf8(s))
}

/// Serialized block: its fields in order, integers little-endian, strings and lists framed by
/// their length.
pub open spec fn block_bytes(b: BlockModel) -> Seq<u8> {
    i64_bytes(b.timestamp) + str_field(b.pre_block_hash) + str_field(b.hash) + u64_bytes(
        b.transactions.len() as u64,
    ) + txs_bytes(b.transactions) + i64_bytes(b.nonce) + u64_bytes(b.height as u64)
}

/// The concatenation of the ids of a sequence of transactions.
pub open spec fn ids_concat(s: Seq<TxModel>) -> Seq<u8>
    decreases s.len(),
{
    if s.len() == 0 {
        Seq::empty()
    } else {
        ids_concat(s.drop_last()) + s.last().id
    }
}

/// The digest that stands for a block's transactions: SHA-256 of their ids in order.
pub open spec fn transactions_digest(s: Seq<TxModel>) -> Seq<u8> {
    sha256_of(ids_concat(s))
}

/// Relies on std's String::from_utf8: the text that valid UTF-8 bytes encode, `None` for
/// other bytes.
#[verifier::external_body]
fn string_from_utf8(b: Vec<u8>) -> (r: Option<String>)
    ensures
        r is Some <==> valid_utf8(b@),
        r matches Some(s) ==> s@ == decode_utf8(b@),
{
    String::from_utf8(b).ok()
}

fn push_str(out: &mut Vec<u8>, s: &String)
    ensures
        final(out)@ == old(out)@ + str_field(s@),
{
    push_field(out, s.as_str().as_bytes());
}

fn read_str(data: &[u8], pos: usize, Ghost(expect): Ghost<Seq<char>>) -> (r: Option<
    (String, usize),
>)
    ensures
        r matches Some((s, end)) ==> pos <= end <= data@.len() && str_field(s@) == data@.subrange(
            pos as int,
            end as int,
        ),
        occurs_at(data@, pos as int, str_field(expect)) ==> (r matches Some((s, end)) && s@
            == expect && end == pos + str_field(expect).len()),
{
    let ghost present = occurs_at(data@, pos as int, str_field(expect));
    let (bytes, end) = match read_field(data, pos) {
        Some(v) => v,
        None => return None,
    };
    let ghost raw = bytes@;
    proof {
        if present {
            vstd::utf8::encode_utf8_valid_utf8(expect);
            vstd::utf8::encode_utf8_decode_utf8(expect);
            lemma_le_bytes_len(encode_utf8(expect).len() as u64 as nat, 8);
        }
    }
    match string_from_utf8(bytes) {
        Some(s) => {
            proof {
                vstd::utf8::decode_utf8_encode_utf8(raw);
            }
            Some((s, end))
        },
        None => None,
    }
}

fn read_i64(data: &[u8], pos: usize, Ghost(expect): Ghost<i64>) -> (r: Option<i64>)
    ensures
        r matches Some(v) ==> pos + 8 <= data@.len() && i64_bytes(v) == data@.subrange(
            pos as int,
            pos + 8,
        ),
        occurs_at(data@, pos as int, i64_bytes(expect)) ==> r == Some(expect),
{
    proof {
        lemma_le_bytes_len(expect as u64 as nat, 8);
    }
    match read_le(data, pos, 8) {
        Some(raw) => {
            let v: i64 = #[verifier::truncate] (raw as i64);
            assert((v as u64) == raw) by (bit_vector)
                requires
                    v == #[verifier::truncate] (raw as i64),
            ;
            proof {
                if occurs_at(data@, pos as int, i64_bytes(expect)) {
                    lemma_pow256_8();
                    lemma_le_bytes_inj(raw as nat, expect as u64 as nat, 8);
                    assert(v == expect) by (bit_vector)
                        requires
                            v == #[verifier::truncate] (raw as i64),
                            raw == expect as u64,
                    ;
                }
            }
            Some(v)
        },
        None => None,
    }
}

proof fn lemma_txs_concat(a: Seq<TxModel>, b: Seq<TxModel>)
    ensures
        txs_bytes(a + b) == txs_bytes(a) + txs_bytes(b),
    decreases b.len(),
{
    if b.len() == 0 {
        assert(a + b =~= a);
        assert(txs_bytes(a) + txs_bytes(b) =~= txs_bytes(a));
    } else {
        lemma_txs_concat(a, b.drop_last());
        assert((a + b).drop_last() =~= a + b.drop_last());
        assert(txs_bytes(a + b) =~= txs_bytes(a) + txs_bytes(b));
    }
}

proof fn lemma_txs_len(s: Seq<TxModel>)
    ensures
        txs_bytes(s).len() >= s.len(),
    decreases s.len(),
{
    if s.len() > 0 {
        lemma_txs_len(s.drop_last());
        let t = s.last();
        lemma_le_bytes_len(t.id.len() as u64 as nat, 8);
        lemma_le_bytes_len(t.vin.len() as u64 as nat, 8);
        lemma_le_bytes_len(t.vout.len() as u64 as nat, 8);
    }
}

proof fn lemma_tx_at(data: Seq<u8>, p: int, s: Seq<TxModel>, k: int)
    requires
        occurs_at(data, p, txs_bytes(s)),
        0 <= k < s.len(),
    ensures
        occurs_at(data, p + txs_bytes(s.take(k)).len(), tx_bytes(s[k])),
        txs_bytes(s.take(k + 1)) == txs_bytes(s.take(k)) + tx_bytes(s[k]),
{
    let one = seq![s[k]];
    assert(s =~= s.take(k) + one + s.skip(k + 1));
    lemma_txs_concat(s.take(k) + one, s.skip(k + 1));
    lemma_txs_concat(s.take(k), one);
    assert(one.drop_last() =~= Seq::<TxModel>::empty());
    assert(one.last() == s[k]);
    assert(txs_bytes(one.drop_last()) =~= Seq::<u8>::empty());
    assert(txs_bytes(one) =~= tx_bytes(s[k]));
    lemma_occurs_split(data, p, txs_bytes(s.take(k)) + tx_bytes(s[k]), txs_bytes(s.skip(k + 1)));
    lemma_occurs_split(data, p, txs_bytes(s.take(k)), tx_bytes(s[k]));
    assert(s.take(k + 1) =~= s.take(k) + one);
}

proof fn lemma_block_parts(data: Seq<u8>, b: BlockModel)
    requires
        block_bytes(b) == data,
        data.len() < pow256(8),
    ensures
        occurs_at(data, 0, i64_bytes(b.timestamp)),
        occurs_at(data, 8, str_field(b.pre_block_hash)),
        occurs_at(data, 0int + 8 + str_field(b.pre_block_hash).len(), str_field(b.hash)),
        occurs_at(
            data,
            0int + 8 + str_field(b.pre_block_hash).len() + str_field(b.hash).len(),
            u64_bytes(b.transactions.len() as u64),
        ),
        occurs_at(
            data,
            0int + 16 + str_field(b.pre_block_hash).len() + str_field(b.hash).len(),
            txs_bytes(b.transactions),
        ),
        occurs_at(
            data,
            0int + 16 + str_field(b.pre_block_hash).len() + str_field(b.hash).len() + txs_bytes(
                b.transactions,
            ).len(),
            i64_bytes(b.nonce),
        ),
        occurs_at(
            data,
            0int + 24 + str_field(b.pre_block_hash).len() + str_field(b.hash).len() + txs_bytes(
                b.transactions,
            ).len(),
            u64_bytes(b.height as u64),
        ),
        data.len() == 32 + str_field(b.pre_block_hash).len() + str_field(b.hash).len()
            + txs_bytes(b.transactions).len(),
        b.transactions.len() < pow256(8),
{
    lemma_le_bytes_len(b.timestamp as u64 as nat, 8);
    lemma_le_bytes_len(b.transactions.len() as u64 as nat, 8);
    lemma_le_bytes_len(b.nonce as u64 as nat, 8);
    lemma_le_bytes_len(b.height as u64 as nat, 8);
    let p1 = i64_bytes(b.timestamp);
    let p2 = str_field(b.pre_block_hash);
    let p3 = str_field(b.hash);
    let p4 = u64_bytes(b.transactions.len() as u64);
    let p5 = txs_bytes(b.transactions);
    let p6 = i64_bytes(b.nonce);
    let p7 = u64_bytes(b.height as u64);
    assert(data.subrange(0, data.len() as int) =~= data);
    lemma_occurs_split(data, 0, p1 + p2 + p3 + p4 + p5 + p6, p7);
    lemma_occurs_split(data, 0, p1 + p2 + p3 + p4 + p5, p6);
    lemma_occurs_split(data, 0, p1 + p2 + p3 + p4, p5);
    lemma_occurs_split(data, 0, p1 + p2 + p3, p4);
    lemma_occurs_split(data, 0, p1 + p2, p3);
    lemma_occurs_split(data, 0, p1, p2);
    lemma_txs_len(b.transactions);
    lemma_pow256_8();
}

impl Block {
    /// The genesis block: height 0, predecessor "None", the given transaction alone.
    pub fn generate_genesis_block(transaction: &Transaction) -> (r: Block)
        ensures
            r@.pre_block_hash == genesis_prev(),
            r@.transactions == seq![transaction@],
            r@.height == 0,
            mined(r@),
    {
        let mut transactions: Vec<Transaction> = Vec::new();
        transactions.push(transaction.duplicate());
        let none = String::from_str("None");
        proof {
            reveal_strlit("None");
        }
        assert(txs_view(transactions@) =~= seq![transaction@]);
        Self::new_block(none, transactions.as_slice(), 0)
    }

    /// A block on top of `pre_block_hash` holding `transactions` at `height`, stamped with the
    /// current time and mined.
    pub fn new_block(pre_block_hash: String, transactions: &[Transaction], height: usize) -> (r:
        Block)
        ensures
            r@.pre_block_hash == pre_block_hash@,
            r@.transactions == txs_view(transactions@),
            r@.height == height,
            mined(r@),
    {
        let block = Block {
            timestamp: current_timestamp(),
            pre_block_hash,
            hash: String::new(),
            transactions: copy_transactions(transactions),
            nonce: 0,
            height,
        };
        let pow = ProofOfWork::new_proof_of_work(block);
        let (nonce, hash) = pow.run();
        let mut block = pow.block;
        block.nonce = nonce;
        block.hash = hash;
        block
    }

    /// The serialized form: fields in order, integers little-endian, strings and lists framed.
    pub fn serialize(&self) -> (r: Vec<u8>)
        ensures
            r@ == block_bytes(self@),
    {
        let mut out: Vec<u8> = Vec::new();
        push_le(&mut out, self.timestamp as u64, 8);
        push_str(&mut out, &self.pre_block_hash);
        push_str(&mut out, &self.hash);
        push_le(&mut out, self.transactions.len() as u64, 8);
        let ghost head = out@;
        let mut i: usize = 0;
        while i < self.transactions.len()
            invariant
                i <= self.transactions@.len(),
                out@ == head + txs_bytes(txs_view(self.transactions@).take(i as int)),
            decreases self.transactions@.len() - i,
        {
            let b = self.transactions[i].serialize();
            push_all(&mut out, b.as_slice());
            i = i + 1;
            assert(txs_view(self.transactions@).take(i as int).drop_last() =~= txs_view(
                self.transactions@,
            ).take(i - 1));
        }
        assert(txs_view(self.transactions@).take(i as int) =~= txs_view(self.transactions@));
        push_le(&mut out, self.nonce as u64, 8);
        push_le(&mut out, self.height as u64, 8);
        assert(out@ =~= block_bytes(self@));
        out
    }

    /// Reads a block from its serialized form; succeeds exactly on the serialization of a
    /// block, and then returns a block with that serialization.
    #[verifier::rlimit(60)]
    pub fn deserialize(data: &[u8]) -> (r: Result<Block, ChainError>)
        ensures
            r is Ok <==> exists|b: BlockModel| block_bytes(b) == data@,
            r matches Ok(b) ==> block_bytes(b@) == data@,
            r matches Err(e) ==> e == ChainError::Malformed,
    {
        let total: usize = data.len();
        let ghost present = exists|b: BlockModel| block_bytes(b) == data@;
        let ghost e = choose|b: BlockModel| block_bytes(b) == data@;
        proof {
            lemma_pow256_8();
            if present {
                lemma_block_parts(data@, e);
            }
        }
        let timestamp = match read_i64(data, 0, Ghost(e.timestamp)) {
            Some(v) => v,
            None => return Err(ChainError::Malformed),
        };
        let (pre_block_hash, p1) = match read_str(data, 8, Ghost(e.pre_block_hash)) {
            Some(v) => v,
            None => return Err(ChainError::Malformed),
        };
        let (hash, p2) = match read_str(data, p1, Ghost(e.hash)) {
            Some(v) => v,
            None => return Err(ChainError::Malformed),
        };
        let n = match read_le(data, p2, 8) {
            Some(v) => v,
            None => return Err(ChainError::Malformed),
        };
        proof {
            if present {
                lemma_count_at(data@, p2 as int, n, e.transactions.len());
            }
        }
        let p3: usize = p2 + 8;
        let mut pos: usize = p3;
        let mut transactions: Vec<Transaction> = Vec::new();
        let mut k: u64 = 0;
        while k < n
            invariant
                total == data@.len(),
                p3 <= pos <= data@.len(),
                k <= n,
                transactions@.len() == k,
                txs_bytes(txs_view(transactions@)) == data@.subrange(p3 as int, pos as int),
                present == exists|b: BlockModel| block_bytes(b) == data@,
                present ==> block_bytes(e) == data@,
                present ==> n == e.transactions.len(),
                present ==> occurs_at(data@, p3 as int, txs_bytes(e.transactions)),
                present ==> txs_view(transactions@) == e.transactions.take(k as int),
                present ==> pos == p3 + txs_bytes(e.transactions.take(k as int)).len(),
            decreases n - k,
        {
            proof {
                if present {
                    lemma_tx_at(data@, p3 as int, e.transactions, k as int);
                }
            }
            let ghost want = if present { e.transactions[k as int] } else { arbitrary() };
            let (t, next) = match read_tx(data, pos, Ghost(want)) {
                Some(v) => v,
                None => return Err(ChainError::Malformed),
            };
            let ghost before = transactions@;
            transactions.push(t);
            proof {
                assert(txs_view(transactions@).drop_last() =~= txs_view(before));
                assert(txs_bytes(txs_view(transactions@)) =~= data@.subrange(
                    p3 as int,
                    next as int,
                ));
                if present {
                    assert(txs_view(transactions@) =~= e.transactions.take(k + 1));
                }
            }
            pos = next;
            k = k + 1;
        }
        proof {
            if present {
                assert(e.transactions.take(k as int) =~= e.transactions);
            }
        }
        let nonce = match read_i64(data, pos, Ghost(e.nonce)) {
            Some(v) => v,
            None => return Err(ChainError::Malformed),
        };
        let height = match read_le(data, pos + 8, 8) {
            Some(v) => v,
            None => return Err(ChainError::Malformed),
        };
        proof {
            if present {
                lemma_count_at(data@, pos + 8, height, e.height as nat);
            }
        }
        if height > usize::MAX as u64 || pos + 16 != total {
            return Err(ChainError::Malformed);
        }
        let b = Block {
            timestamp,
            pre_block_hash,
            hash,
            transactions,
            nonce,
            height: height as usize,
        };
        proof {
            assert(txs_view(transactions@).len() == transactions@.len());
            assert(b.height as u64 == height);
            assert(block_bytes(b@) =~= data@);
        }
        Ok(b)
    }

    pub fn get_timestamp(&self) -> (r: i64)
        ensures
            r == self.timestamp,
    {
        self.timestamp
    }

    pub fn get_pre_block_hash(&self) -> (r: String)
        ensures
            r@ == self.pre_block_hash@,
    {
        self.pre_block_hash.clone()
    }

    pub fn get_hash(&self) -> (r: &str)
        ensures
            r@ == self.hash@,
    {
        self.hash.as_str()
    }

    /// The UTF-8 bytes of the block's hash text.
    pub fn get_hash_bytes(&self) -> (r: Vec<u8>)
        ensures
            r@ == encode_utf8(self.hash@),
    {
        copy_bytes(self.hash.as_str().as_bytes())
    }

    /// SHA-256 of the ids of the block's transactions, in order.
    pub fn hash_transactions(&self) -> (r: Vec<u8>)
        ensures
            r@ == transactions_digest(self@.transactions),
            r@.len() == 32,
    {
        let mut data: Vec<u8> = Vec::new();
        let mut i: usize = 0;
        while i < self.transactions.len()
            invariant
                i <= self.transactions@.len(),
                data@ == ids_concat(txs_view(self.transactions@).take(i as int)),
            decreases self.transactions@.len() - i,
        {
            push_all(&mut data, self.transactions[i].get_id());
            i = i + 1;
            assert(txs_view(self.transactions@).take(i as int).drop_last() =~= txs_view(
                self.transactions@,
            ).take(i - 1));
        }
        assert(txs_view(self.transactions@).take(i as int) =~= txs_view(self.transactions@));
        sha256_digest(data.as_slice())
    }

    pub fn get_transactions(&self) -> (r: &[Transaction])
        ensures
            r@ == self.transactions@,
    {
        self.transactions.as_slice()
    }

    pub fn get_height(&self) -> (r: usize)
        ensures
            r == self.height,
    {
        self.height
    }

    /// A copy with the same value.
    pub fn duplicate(&self) -> (r: Block)
        ensures
            r@ == self@,
    {
        Block {
            timestamp: self.timestamp,
            pre_block_hash: self.pre_block_hash.clone(),
            hash: self.hash.clone(),
            transactions: copy_transactions(self.transactions.as_slice()),
            nonce: self.nonce,
            height: self.height,
        }
    }
}

/// A copy of a list of transactions, element by element.
pub fn copy_transactions(s: &[Transaction]) -> (r: Vec<Transaction>)
    ensures
        txs_view(r@) == txs_view(s@),
{
    let mut out: Vec<Transaction> = Vec::new();
    let mut i: usize = 0;
    while i < s.len()
        invariant
            i <= s@.len(),
            out@.len() == i,
            forall|k: int| 0 <= k < i ==> (#[trigger] out@[k])@ == s@[k]@,
        decreases s@.len() - i,
    {
        out.push(s[i].duplicate());
        i = i + 1;
    }
    assert(txs_view(out@) =~= txs_view(s@));
    out
}

} // verus!
