use vstd::prelude::*;
use vstd::utf8::encode_utf8;

use crate::block::{txs_view, Block};
use crate::blockchain::{keys_unique, scan, utxo_view, Blockchain};
use crate::encoding::{bytes_eq, copy_bytes, hex_decode, hex_encode, hex_lower};
use crate::error::ChainError;
use crate::transaction::{
    address_hash, copy_outputs, is_coinbase_tx, outputs_view, OutputModel, TXOutput, TxModel,
};
use crate::wallets::{is_valid_address, validate_address};

verus! {

/// Index entries: a key (transaction id bytes, or the bytes of their hex text) and the unspent
/// outputs stored under it.
pub type EntriesModel = Seq<(Seq<u8>, Seq<OutputModel>)>;

pub open spec fn entries_view(v: Seq<(Vec<u8>, Vec<TXOutput>)>) -> EntriesModel {
    v.map_values(|e: (Vec<u8>, Vec<TXOutput>)| (e.0@, outputs_view(e.1@)))
}

/// No two entries share a key.
pub open spec fn entry_keys_unique(es: EntriesModel) -> bool {
    forall|i: int, j: int|
        0 <= i < es.len() && 0 <= j < es.len() && (#[trigger] es[i]).0 == (#[trigger] es[j]).0
            ==> i == j
}

pub open spec fn has_entry(es: EntriesModel, k: Seq<u8>) -> bool {
    exists|j: int| 0 <= j < es.len() && (#[trigger] es[j]).0 == k
}

pub open spec fn entry_index(es: EntriesModel, k: Seq<u8>) -> int {
    choose|j: int| 0 <= j < es.len() && (#[trigger] es[j]).0 == k
}

/// The entries with `v` stored under `k`, replacing what was there.
pub open spec fn put_entry(es: EntriesModel, k: Seq<u8>, v: Seq<OutputModel>) -> EntriesModel {
    if has_entry(es, k) {
        es.update(entry_index(es, k), (k, v))
    } else {
        es.push((k, v))
    }
}

/// The entries without the one under `k`.
pub open spec fn remove_entry(es: EntriesModel, k: Seq<u8>) -> EntriesModel {
    if has_entry(es, k) {
        es.remove(entry_index(es, k))
    } else {
        es
    }
}

/// `outs` without the element at `idx`.
pub open spec fn without_index(outs: Seq<OutputModel>, idx: int) -> Seq<OutputModel> {
    if 0 <= idx < outs.len() {
        outs.remove(idx)
    } else {
        outs
    }
}

/// The key under which a new transaction's outputs are stored: the bytes of its hex id.
pub open spec fn hex_key(id: Seq<u8>) -> Seq<u8> {
    encode_utf8(hex_lower(id))
}

/// Spending the outputs that the inputs `vin` refer to; `None` where one refers to a key that
/// is not stored.
pub open spec fn spend_inputs(es: EntriesModel, vin: Seq<crate::transaction::InputModel>) -> Option<
    EntriesModel,
>
    decreases vin.len(),
{
    if vin.len() == 0 {
        Some(es)
    } else {
        match spend_inputs(es, vin.drop_last()) {
            None => None,
            Some(e) => {
                let i = vin.last();
                if !has_entry(e, i.txid) {
                    None
                } else {
                    let rest = without_index(e[entry_index(e, i.txid)].1, i.vout as int);
                    if rest.len() > 0 {
                        Some(put_entry(e, i.txid, rest))
                    } else {
                        Some(remove_entry(e, i.txid))
                    }
                }
            },
        }
    }
}

/// Applying one transaction: its inputs spend (unless it is a coinbase), then its outputs are
/// stored under its hex id.
pub open spec fn apply_tx(es: EntriesModel, t: TxModel) -> Option<EntriesModel> {
    let spent = if is_coinbase_tx(t) {
        Some(es)
    } else {
        spend_inputs(es, t.vin)
    };
    match spent {
        None => None,
        Some(e) => Some(put_entry(e, hex_key(t.id), t.vout)),
    }
}

/// Applying a block's transactions in order.
pub open spec fn apply_txs(es: EntriesModel, txs: Seq<TxModel>) -> Option<EntriesModel>
    decreases txs.len(),
{
    if txs.len() == 0 {
        Some(es)
    } else {
        match apply_txs(es, txs.drop_last()) {
            None => None,
            Some(e) => apply_tx(e, txs.last()),
        }
    }
}

/// The sum of the values of some outputs.
pub open spec fn outputs_total(outs: Seq<OutputModel>) -> int
    decreases outs.len(),
{
    if outs.len() == 0 {
        0
    } else {
        outputs_total(outs.drop_last()) + outs.last().value
    }
}

/// The sum of the values of all outputs in some groups.
pub open spec fn groups_total<K>(gs: Seq<(K, Seq<OutputModel>)>) -> int
    decreases gs.len(),
{
    if gs.len() == 0 {
        0
    } else {
        groups_total(gs.drop_last()) + outputs_total(gs.last().1)
    }
}

/// Whether every stored output has a non-negative value.
pub open spec fn values_nonneg(es: EntriesModel) -> bool {
    forall|i: int, j: int|
        0 <= i < es.len() && 0 <= j < es[i].1.len() ==> (#[trigger] es[i].1[j]).value >= 0
}

/// The outputs locked to `pkh`, entry after entry.
pub open spec fn locked_outputs(es: EntriesModel, pkh: Seq<u8>) -> Seq<OutputModel>
    decreases es.len(),
{
    if es.len() == 0 {
        Seq::empty()
    } else {
        locked_outputs(es.drop_last(), pkh) + es.last().1.filter(
            |o: OutputModel| o.pub_key_hash == pkh,
        )
    }
}

/// Selection within one entry's outputs, starting from `acc`: while the running sum is below
/// `amount`, every output locked to `pkh` is taken. Returns the sum and the taken indices.
pub open spec fn select_outs(acc: int, outs: Seq<OutputModel>, pkh: Seq<u8>, amount: int) -> (
    int,
    Seq<usize>,
)
    decreases outs.len(),
{
    if outs.len() == 0 {
        (acc, Seq::empty())
    } else {
        let (a, l) = select_outs(acc, outs.drop_last(), pkh, amount);
        if outs.last().pub_key_hash == pkh && a < amount {
            (a + outs.last().value, l.push((outs.len() - 1) as usize))
        } else {
            (a, l)
        }
    }
}

/// Selection over the entries in order: the running sum and, per entry with a taken output, the
/// hex text of its key and the taken indices.
pub open spec fn select(es: EntriesModel, pkh: Seq<u8>, amount: int) -> (
    int,
    Seq<(Seq<char>, Seq<usize>)>,
)
    decreases es.len(),
{
    if es.len() == 0 {
        (0, Seq::empty())
    } else {
        let (a, sel) = select(es.drop_last(), pkh, amount);
        let (a2, l) = select_outs(a, es.last().1, pkh, amount);
        (a2, if l.len() > 0 {
            sel.push((hex_lower(es.last().0), l))
        } else {
            sel
        })
    }
}

/// The index of unspent outputs, over the chain it mirrors.
#[derive(Debug)]
pub struct UTXOSet {
    pub blockchain: Blockchain,
    pub entries: Vec<(Vec<u8>, Vec<TXOutput>)>,
}

impl UTXOSet {
    pub open spec fn view_entries(&self) -> EntriesModel {
        entries_view(self.entries@)
    }

    pub open spec fn wf(&self) -> bool {
        &&& self.blockchain.wf()
        &&& entry_keys_unique(self.view_entries())
    }

    /// An empty index over `blockchain`.
    pub fn new(blockchain: Blockchain) -> (r: UTXOSet)
        ensures
            r.blockchain == blockchain,
            r.entries@.len() == 0,
    {
        UTXOSet { blockchain, entries: Vec::new() }
    }

    pub fn get_blockchain(&self) -> (r: &Blockchain)
        ensures
            *r == self.blockchain,
    {
        &self.blockchain
    }

    /// The number of entries.
    pub fn count_transactions(&self) -> (r: usize)
        ensures
            r == self.entries@.len(),
    {
        self.entries.len()
    }

    /// Rebuilds the index from the chain: one entry per group of the chain's unspent outputs,
    /// keyed by the transaction id bytes.
    pub fn reindex(&mut self)
        requires
            old(self).wf(),
        ensures
            final(self).wf(),
            final(self).blockchain == old(self).blockchain,
            final(self).entries@.len() == scan(old(self).blockchain.chain_txs()).0.len(),
            forall|i: int|
                0 <= i < final(self).entries@.len() ==> hex_lower(
                    #[trigger] final(self).view_entries()[i].0,
                ) == scan(old(self).blockchain.chain_txs()).0[i].0 && final(self).view_entries()[i].1
                    == scan(old(self).blockchain.chain_txs()).0[i].1,
            groups_total(final(self).view_entries()) == groups_total(
                scan(old(self).blockchain.chain_txs()).0,
            ),
    {
        let utxo_map = self.blockchain.find_utxo();
        let ghost u = utxo_view(utxo_map@);
        let mut entries: Vec<(Vec<u8>, Vec<TXOutput>)> = Vec::new();
        let mut i: usize = 0;
        while i < utxo_map.len()
            invariant
                i <= utxo_map@.len(),
                u == utxo_view(utxo_map@),
                u == scan(self.blockchain.chain_txs()).0,
                *self == *old(self),
                keys_unique(u),
                entries@.len() == i,
                forall|k: int|
                    0 <= k < i ==> hex_lower((#[trigger] entries_view(entries@)[k]).0) == u[k].0
                        && entries_view(entries@)[k].1 == u[k].1,
                entry_keys_unique(entries_view(entries@)),
                groups_total(entries_view(entries@)) == groups_total(u.take(i as int)),
            decreases utxo_map@.len() - i,
        {
            let txid = match hex_decode(utxo_map[i].0.as_str()) {
                Some(t) => t,
                None => {
                    proof {
                        assert(false) by {
                            crate::blockchain::lemma_scan_keys_hex(
                                self.blockchain.chain_txs(),
                                i as int,
                            );
                            assert(u[i as int].0 == utxo_map@[i as int].0@);
                        }
                    }
                    Vec::new()
                },
            };
            let outs = copy_outputs(utxo_map[i].1.as_slice());
            let ghost before = entries_view(entries@);
            entries.push((txid, outs));
            proof {
                let ev = entries_view(entries@);
                assert(ev =~= before.push((txid@, u[i as int].1)));
                assert(ev.drop_last() =~= before);
                assert(u.take(i + 1).drop_last() =~= u.take(i as int));
                assert(u.take(i + 1).last() == u[i as int]);
                assert(groups_total(ev) == groups_total(before) + outputs_total(u[i as int].1));
                assert forall|a: int, b: int|
                    0 <= a < ev.len() && 0 <= b < ev.len() && (#[trigger] ev[a]).0 == (
                    #[trigger] ev[b]).0 implies a == b by {
                    assert(hex_lower(ev[a].0) == u[a].0);
                    assert(hex_lower(ev[b].0) == u[b].0);
                }
            }
            i = i + 1;
        }
        assert(u.take(i as int) =~= u);
        self.entries = entries;
    }

    /// Picks outputs locked to `pub_key_hash`, entry after entry, while the running sum is below
    /// `amount`; returns the sum and, per entry, the hex text of its key with the picked
    /// indices. Fails only where the running sum leaves the range of `i64`.
    pub fn find_spendable_outputs(&self, pub_key_hash: &[u8], amount: i32) -> (r: Result<
        (i64, Vec<(String, Vec<usize>)>),
        ChainError,
    >)
        ensures
            r matches Ok((acc, sel)) ==> acc == select(
                self.view_entries(),
                pub_key_hash@,
                amount as int,
            ).0 && selection_view(sel@) == select(
                self.view_entries(),
                pub_key_hash@,
                amount as int,
            ).1,
            r matches Err(e) ==> e == ChainError::AmountOverflow,
            values_nonneg(self.view_entries()) ==> r is Ok,
    {
        let ghost es = self.view_entries();
        let ghost pkh = pub_key_hash@;
        let mut accumulated: i64 = 0;
        let mut unspent_outputs: Vec<(String, Vec<usize>)> = Vec::new();
        let mut i: usize = 0;
        while i < self.entries.len()
            invariant
                i <= self.entries@.len(),
                es == self.view_entries(),
                pkh == pub_key_hash@,
                accumulated == select(es.take(i as int), pkh, amount as int).0,
                selection_view(unspent_outputs@) == select(es.take(i as int), pkh, amount as int).1,
                accumulated <= 0x1_0000_0000,
                values_nonneg(es) ==> accumulated >= 0,
            decreases self.entries@.len() - i,
        {
            let ghost a0 = accumulated as int;
            let outs = self.entries[i].1.as_slice();
            let ghost ov = outputs_view(outs@);
            let mut picked: Vec<usize> = Vec::new();
            let mut j: usize = 0;
            while j < outs.len()
                invariant
                    j <= outs@.len(),
                    i < self.entries@.len(),
                    ov == outputs_view(outs@),
                    ov == es[i as int].1,
                    pkh == pub_key_hash@,
                    (accumulated as int, picked@) == select_outs(a0, ov.take(j as int), pkh, amount as int),
                    accumulated <= 0x1_0000_0000,
                    values_nonneg(es) ==> accumulated >= 0,
                    es == self.view_entries(),
                decreases outs@.len() - j,
            {
                proof {
                    assert(ov.take(j + 1).drop_last() =~= ov.take(j as int));
                    assert(ov.take(j + 1).last() == ov[j as int]);
                }
                proof {
                    if values_nonneg(es) {
                        assert(es[i as int].1[j as int].value >= 0);
                    }
                }
                if outs[j].is_locked_with_key(pub_key_hash) && accumulated < amount as i64 {
                    match accumulated.checked_add(outs[j].value as i64) {
                        Some(v) => accumulated = v,
                        None => return Err(ChainError::AmountOverflow),
                    }
                    picked.push(j);
                }
                j = j + 1;
            }
            assert(ov.take(j as int) =~= ov);
            proof {
                assert(es.take(i + 1).drop_last() =~= es.take(i as int));
                assert(es.take(i + 1).last() == es[i as int]);
            }
            if picked.len() > 0 {
                let key = hex_encode(self.entries[i].0.as_slice());
                let ghost before = unspent_outputs@;
                unspent_outputs.push((key, picked));
                proof {
                    assert(selection_view(unspent_outputs@) =~= selection_view(before).push(
                        (hex_lower(es[i as int].0), picked@),
                    ));
                }
            }
            i = i + 1;
        }
        assert(es.take(i as int) =~= es);
        Ok((accumulated, unspent_outputs))
    }

    /// The outputs locked to `pub_key_hash`, entry after entry.
    pub fn find_utxo(&self, pub_key_hash: &[u8]) -> (r: Vec<TXOutput>)
        ensures
            outputs_view(r@) == locked_outputs(self.view_entries(), pub_key_hash@),
    {
        let ghost es = self.view_entries();
        let mut utxos: Vec<TXOutput> = Vec::new();
        let mut i: usize = 0;
        while i < self.entries.len()
            invariant
                i <= self.entries@.len(),
                es == self.view_entries(),
                outputs_view(utxos@) == locked_outputs(es.take(i as int), pub_key_hash@),
            decreases self.entries@.len() - i,
        {
            let outs = self.entries[i].1.as_slice();
            let ghost ov = outputs_view(outs@);
            let ghost start = outputs_view(utxos@);
            let mut j: usize = 0;
            while j < outs.len()
                invariant
                    j <= outs@.len(),
                    i < self.entries@.len(),
                    ov == outputs_view(outs@),
                    ov == es[i as int].1,
                    outputs_view(utxos@) == start + locked_in(ov.take(j as int), pub_key_hash@),
                decreases outs@.len() - j,
            {
                proof {
                    assert(ov.take(j + 1).drop_last() =~= ov.take(j as int));
                    assert(ov.take(j + 1).last() == ov[j as int]);
                }
                if outs[j].is_locked_with_key(pub_key_hash) {
                    let ghost before = utxos@;
                    utxos.push(outs[j].duplicate());
                    assert(outputs_view(utxos@) =~= outputs_view(before).push(ov[j as int]));
                }
                j = j + 1;
            }
            proof {
                assert(ov.take(j as int) =~= ov);
                assert(es.take(i + 1).drop_last() =~= es.take(i as int));
                assert(es.take(i + 1).last() == es[i as int]);
                lemma_locked_in_filter(ov, pub_key_hash@);
            }
            i = i + 1;
        }
        assert(es.take(i as int) =~= es);
        utxos
    }

    /// The sum of the values of the outputs locked to `pub_key_hash`; `None` where a partial sum
    /// leaves the range of `i64`.
    pub fn get_balance(&self, pub_key_hash: &[u8]) -> (r: Option<i64>)
        ensures
            r matches Some(b) ==> b == outputs_total(
                locked_outputs(self.view_entries(), pub_key_hash@),
            ),
            (forall|k: int|
                0 <= k <= locked_outputs(self.view_entries(), pub_key_hash@).len() ==> i64::MIN
                    <= #[trigger] outputs_total(
                    locked_outputs(self.view_entries(), pub_key_hash@).take(k),
                ) <= i64::MAX) ==> r is Some,
    {
        let utxos = self.find_utxo(pub_key_hash);
        let ghost ov = outputs_view(utxos@);
        let mut balance: i64 = 0;
        let mut i: usize = 0;
        while i < utxos.len()
            invariant
                i <= utxos@.len(),
                ov == outputs_view(utxos@),
                ov == locked_outputs(self.view_entries(), pub_key_hash@),
                balance == outputs_total(ov.take(i as int)),
            decreases utxos@.len() - i,
        {
            proof {
                assert(ov.take(i + 1).drop_last() =~= ov.take(i as int));
                assert(ov.take(i + 1).last() == ov[i as int]);
            }
            match balance.checked_add(utxos[i].value as i64) {
                Some(v) => balance = v,
                None => {
                    assert(ov == locked_outputs(self.view_entries(), pub_key_hash@));
                    assert(outputs_total(ov.take(i + 1)) == balance + utxos@[i as int].value);
                    return None;
                },
            }
            i = i + 1;
        }
        assert(ov.take(i as int) =~= ov);
        Some(balance)
    }

    /// The balance of an address: the sum of the values of the outputs locked to the public-key
    /// hash it carries. Fails on an address that is not well formed.
    pub fn balance_of_address(&self, address: &str) -> (r: Result<i64, ChainError>)
        ensures
            !is_valid_address(address@) <==> r == Err::<i64, ChainError>(ChainError::InvalidAddress),
            r matches Ok(b) ==> b == outputs_total(
                locked_outputs(self.view_entries(), address_hash(address@)),
            ),
            r matches Err(e) ==> e == ChainError::InvalidAddress || e == ChainError::AmountOverflow,
            is_valid_address(address@) && (forall|k: int|
                0 <= k <= locked_outputs(self.view_entries(), address_hash(address@)).len()
                    ==> i64::MIN <= #[trigger] outputs_total(
                    locked_outputs(self.view_entries(), address_hash(address@)).take(k),
                ) <= i64::MAX) ==> r is Ok,
    {
        if !validate_address(address) {
            return Err(ChainError::InvalidAddress);
        }
        let payload = crate::crypto::base58_decode(address);
        let pub_key_hash = crate::encoding::copy_range(
            payload.as_slice(),
            1,
            payload.len() - crate::transaction::ADDRESS_CHECK_SUM_LEN,
        );
        assert(pub_key_hash@ == address_hash(address@));
        match self.get_balance(pub_key_hash.as_slice()) {
            Some(b) => Ok(b),
            None => Err(ChainError::AmountOverflow),
        }
    }
}

/// The outputs of `outs` locked to `pkh`, in order.
pub open spec fn locked_in(outs: Seq<OutputModel>, pkh: Seq<u8>) -> Seq<OutputModel>
    decreases outs.len(),
{
    if outs.len() == 0 {
        Seq::empty()
    } else if outs.last().pub_key_hash == pkh {
        locked_in(outs.drop_last(), pkh).push(outs.last())
    } else {
        locked_in(outs.drop_last(), pkh)
    }
}

proof fn lemma_locked_in_filter(outs: Seq<OutputModel>, pkh: Seq<u8>)
    ensures
        locked_in(outs, pkh) == outs.filter(|o: OutputModel| o.pub_key_hash == pkh),
    decreases outs.len(),
{
    reveal(Seq::filter);
    if outs.len() > 0 {
        lemma_locked_in_filter(outs.drop_last(), pkh);
    }
}

/// The value of a selection: hex key text and picked indices per entry.
pub open spec fn selection_view(v: Seq<(String, Vec<usize>)>) -> Seq<(Seq<char>, Seq<usize>)> {
    v.map_values(|e: (String, Vec<usize>)| (e.0@, e.1@))
}

/// The position of the entry under `key`.
fn find_key(entries: &Vec<(Vec<u8>, Vec<TXOutput>)>, key: &[u8]) -> (r: Option<usize>)
    requires
        entry_keys_unique(entries_view(entries@)),
    ensures
        r is None <==> !has_entry(entries_view(entries@), key@),
        r matches Some(i) ==> i < entries@.len() && i == entry_index(entries_view(entries@), key@),
{
    let ghost es = entries_view(entries@);
    let mut i: usize = 0;
    while i < entries.len()
        invariant
            i <= entries@.len(),
            es == entries_view(entries@),
            entry_keys_unique(es),
            forall|k: int| 0 <= k < i ==> (#[trigger] entries@[k]).0@ != key@,
        decreases entries@.len() - i,
    {
        if bytes_eq(entries[i].0.as_slice(), key) {
            proof {
                assert(es[i as int].0 == key@);
                assert(has_entry(es, key@));
                let j = entry_index(es, key@);
                assert(0 <= j < es.len() && es[j].0 == key@);
                assert(es[j].0 == es[i as int].0);
            }
            return Some(i);
        }
        i = i + 1;
    }
    proof {
        if has_entry(es, key@) {
            let j = choose|j: int| 0 <= j < es.len() && (#[trigger] es[j]).0 == key@;
            assert(es[j].0 == entries@[j].0@);
        }
    }
    None
}

/// A copy of index entries.
fn copy_entries(es: &Vec<(Vec<u8>, Vec<TXOutput>)>) -> (r: Vec<(Vec<u8>, Vec<TXOutput>)>)
    ensures
        entries_view(r@) == entries_view(es@),
{
    let mut out: Vec<(Vec<u8>, Vec<TXOutput>)> = Vec::new();
    let mut i: usize = 0;
    while i < es.len()
        invariant
            i <= es@.len(),
            out@.len() == i,
            forall|k: int|
                0 <= k < i ==> (#[trigger] out@[k]).0@ == es@[k].0@ && outputs_view(out@[k].1@)
                    == outputs_view(es@[k].1@),
        decreases es@.len() - i,
    {
        out.push((copy_bytes(es[i].0.as_slice()), copy_outputs(es[i].1.as_slice())));
        i = i + 1;
    }
    assert(entries_view(out@) =~= entries_view(es@));
    out
}

/// Stores `outs` under `key` in `es`, replacing what was there.
fn put_in(es: &mut Vec<(Vec<u8>, Vec<TXOutput>)>, key: Vec<u8>, outs: Vec<TXOutput>)
    requires
        entry_keys_unique(entries_view(old(es)@)),
    ensures
        entry_keys_unique(entries_view(final(es)@)),
        entries_view(final(es)@) == put_entry(entries_view(old(es)@), key@, outputs_view(outs@)),
{
    let ghost e0 = entries_view(es@);
    let ghost kv = key@;
    let ghost ovs = outputs_view(outs@);
    match find_key(es, key.as_slice()) {
        Some(i) => {
            es.set(i, (key, outs));
            proof {
                let e1 = entries_view(es@);
                assert(e1 =~= e0.update(i as int, (kv, ovs)));
                assert forall|a: int, b: int|
                    0 <= a < e1.len() && 0 <= b < e1.len() && (#[trigger] e1[a]).0 == (
                    #[trigger] e1[b]).0 implies a == b by {
                    assert(e1[a].0 == e0[a].0);
                    assert(e1[b].0 == e0[b].0);
                }
            }
        },
        None => {
            es.push((key, outs));
            proof {
                let e1 = entries_view(es@);
                assert(e1 =~= e0.push((kv, ovs)));
                assert forall|a: int, b: int|
                    0 <= a < e1.len() && 0 <= b < e1.len() && (#[trigger] e1[a]).0 == (
                    #[trigger] e1[b]).0 implies a == b by {
                    if a < e0.len() {
                        assert(e1[a] == e0[a]);
                    }
                    if b < e0.len() {
                        assert(e1[b] == e0[b]);
                    }
                }
            }
        },
    }
}

/// `outs` without the element at `idx`.
fn copy_without(outs: &[TXOutput], idx: usize) -> (r: Vec<TXOutput>)
    ensures
        outputs_view(r@) == without_index(outputs_view(outs@), idx as int),
{
    let ghost ov = outputs_view(outs@);
    let mut rest: Vec<TXOutput> = Vec::new();
    let mut j: usize = 0;
    while j < outs.len()
        invariant
            j <= outs@.len(),
            ov == outputs_view(outs@),
            outputs_view(rest@) == if j <= idx {
                ov.take(j as int)
            } else {
                ov.take(idx as int) + ov.subrange(idx + 1, j as int)
            },
        decreases outs@.len() - j,
    {
        if j != idx {
            let ghost before = rest@;
            rest.push(outs[j].duplicate());
            proof {
                assert(outputs_view(rest@) =~= outputs_view(before).push(ov[j as int]));
                if j < idx {
                    assert(ov.take(j + 1) =~= ov.take(j as int).push(ov[j as int]));
                } else {
                    assert(ov.subrange(idx + 1, j + 1) =~= ov.subrange(idx + 1, j as int).push(
                        ov[j as int],
                    ));
                }
            }
        } else {
            assert(ov.subrange(idx + 1, j + 1) =~= Seq::<OutputModel>::empty());
            assert(ov.take(idx as int) + ov.subrange(idx + 1, j + 1) =~= ov.take(j as int));
        }
        j = j + 1;
    }
    proof {
        if idx < outs@.len() {
            assert(ov.take(idx as int) + ov.subrange(idx + 1, ov.len() as int) =~= ov.remove(
                idx as int,
            ));
        } else {
            assert(ov.take(j as int) =~= ov);
        }
    }
    rest
}

proof fn lemma_spend_none(es: EntriesModel, vin: Seq<crate::transaction::InputModel>, m: int)
    requires
        0 <= m <= vin.len(),
        spend_inputs(es, vin.take(m)) is None,
    ensures
        spend_inputs(es, vin) is None,
    decreases vin.len() - m,
{
    if m < vin.len() {
        assert(vin.take(m + 1).drop_last() =~= vin.take(m));
        lemma_spend_none(es, vin, m + 1);
    } else {
        assert(vin.take(m) =~= vin);
    }
}

proof fn lemma_apply_none(es: EntriesModel, txs: Seq<TxModel>, m: int)
    requires
        0 <= m <= txs.len(),
        apply_txs(es, txs.take(m)) is None,
    ensures
        apply_txs(es, txs) is None,
    decreases txs.len() - m,
{
    if m < txs.len() {
        assert(txs.take(m + 1).drop_last() =~= txs.take(m));
        lemma_apply_none(es, txs, m + 1);
    } else {
        assert(txs.take(m) =~= txs);
    }
}

impl UTXOSet {
    /// Applies a new block: each transaction's inputs spend the outputs they refer to (unless
    /// it is a coinbase), then its outputs are stored under the bytes of its hex id. Fails,
    /// changing nothing, where an input refers to a key that is not stored.
    pub fn update(&mut self, block: &Block) -> (r: Result<(), ChainError>)
        requires
            old(self).wf(),
        ensures
            final(self).wf(),
            final(self).blockchain == old(self).blockchain,
            r is Ok <==> apply_txs(old(self).view_entries(), block@.transactions) is Some,
            r is Ok ==> Some(final(self).view_entries()) == apply_txs(
                old(self).view_entries(),
                block@.transactions,
            ),
            r matches Err(e) ==> e == ChainError::UtxoNotFound && final(self).entries@ == old(
                self,
            ).entries@,
    {
        let ghost e0 = self.view_entries();
        let ghost tv = block@.transactions;
        let mut es = copy_entries(&self.entries);
        let txs = block.get_transactions();
        let mut i: usize = 0;
        while i < txs.len()
            invariant
                i <= txs@.len(),
                tv == txs_view(txs@),
                *self == *old(self),
                self.wf(),
                e0 == old(self).view_entries(),
                tv == block@.transactions,
                entry_keys_unique(entries_view(es@)),
                apply_txs(e0, tv.take(i as int)) == Some(entries_view(es@)),
            decreases txs@.len() - i,
        {
            let tx = &txs[i];
            let ghost t = tx@;
            let ghost es_start = entries_view(es@);
            proof {
                assert(tv.take(i + 1).drop_last() =~= tv.take(i as int));
                assert(tv.take(i + 1).last() == t);
            }
            if !tx.is_coinbase() {
                let vin = tx.get_vin();
                let mut m: usize = 0;
                while m < vin.len()
                    invariant
                        m <= vin@.len(),
                        i < txs@.len(),
                        *self == *old(self),
                        self.wf(),
                        e0 == old(self).view_entries(),
                        tv == block@.transactions,
                        tv == txs_view(txs@),
                        t == tv[i as int],
                        !is_coinbase_tx(t),
                        apply_txs(e0, tv.take(i as int)) == Some(es_start),
                        tv.take(i + 1).drop_last() == tv.take(i as int),
                        tv.take(i + 1).last() == t,
                        vin@ == tx.vin@,
                        t == tx@,
                        entry_keys_unique(entries_view(es@)),
                        spend_inputs(es_start, t.vin.take(m as int)) == Some(entries_view(es@)),
                    decreases vin@.len() - m,
                {
                    proof {
                        assert(t.vin.take(m + 1).drop_last() =~= t.vin.take(m as int));
                        assert(t.vin.take(m + 1).last() == t.vin[m as int]);
                    }
                    let input = &vin[m];
                    match find_key(&es, input.get_txid()) {
                        None => {
                            proof {
                                lemma_spend_none(es_start, t.vin, m + 1);
                                assert(apply_txs(e0, tv.take(i + 1)) is None);
                                lemma_apply_none(e0, tv, i + 1);
                            }
                            return Err(ChainError::UtxoNotFound);
                        },
                        Some(idx) => {
                            let rest = copy_without(es[idx].1.as_slice(), input.vout);
                            if rest.len() > 0 {
                                put_in(&mut es, copy_bytes(input.get_txid()), rest);
                            } else {
                                let ghost before = entries_view(es@);
                                es.remove(idx);
                                proof {
                                    assert(entries_view(es@) =~= before.remove(idx as int));
                                    let e1 = entries_view(es@);
                                    assert forall|a: int, b: int|
                                        0 <= a < e1.len() && 0 <= b < e1.len() && (
                                        #[trigger] e1[a]).0 == (#[trigger] e1[b]).0 implies a
                                        == b by {
                                        let a2 = if a < idx { a } else { a + 1 };
                                        let b2 = if b < idx { b } else { b + 1 };
                                        assert(e1[a] == before[a2]);
                                        assert(e1[b] == before[b2]);
                                    }
                                }
                            }
                        },
                    }
                    m = m + 1;
                }
                assert(t.vin.take(m as int) =~= t.vin);
            }
            let key = hex_encode(tx.get_id());
            let key_bytes = copy_bytes(key.as_str().as_bytes());
            put_in(&mut es, key_bytes, copy_outputs(tx.get_vout()));
            i = i + 1;
        }
        assert(tv.take(i as int) =~= tv);
        self.entries = es;
        Ok(())
    }
}

/// The key of every group of a selection is the hex text of some byte string.
pub proof fn lemma_select_keys_hex(es: EntriesModel, pkh: Seq<u8>, amount: int)
    ensures
        forall|i: int|
            0 <= i < select(es, pkh, amount).1.len() ==> exists|b: Seq<u8>| hex_lower(b) == (
            #[trigger] select(es, pkh, amount).1[i]).0,
    decreases es.len(),
{
    if es.len() > 0 {
        lemma_select_keys_hex(es.drop_last(), pkh, amount);
        let prev = select(es.drop_last(), pkh, amount).1;
        let cur = select(es, pkh, amount).1;
        assert forall|i: int| 0 <= i < cur.len() implies exists|b: Seq<u8>| hex_lower(b) == (
        #[trigger] cur[i]).0 by {
            if i < prev.len() {
                assert(cur[i] == prev[i]);
            } else {
                assert(hex_lower(es.last().0) == cur[i].0);
            }
        }
    }
}

/// The largest sum a selection can reach: below the amount before each pick, and an output's
/// value is at most `i32::MAX`.
pub open spec fn select_bound(amount: int) -> int {
    if amount - 1 + 0x7fff_ffff > 0 {
        amount - 1 + 0x7fff_ffff
    } else {
        0
    }
}

proof fn lemma_select_outs_facts(acc: int, outs: Seq<OutputModel>, pkh: Seq<u8>, amount: int)
    ensures
        acc <= select_bound(amount) ==> select_outs(acc, outs, pkh, amount).0 <= select_bound(amount),
        select_outs(acc, outs, pkh, amount).1.len() == 0 ==> select_outs(acc, outs, pkh, amount).0
            == acc,
    decreases outs.len(),
{
    if outs.len() > 0 {
        lemma_select_outs_facts(acc, outs.drop_last(), pkh, amount);
    }
}

/// A selection never sums above `select_bound(amount)`, and one that picks nothing sums to zero.
pub proof fn lemma_select_facts(es: EntriesModel, pkh: Seq<u8>, amount: int)
    ensures
        select(es, pkh, amount).0 <= select_bound(amount),
        select(es, pkh, amount).1.len() == 0 ==> select(es, pkh, amount).0 == 0,
    decreases es.len(),
{
    if es.len() > 0 {
        lemma_select_facts(es.drop_last(), pkh, amount);
        let (a, sel) = select(es.drop_last(), pkh, amount);
        lemma_select_outs_facts(a, es.last().1, pkh, amount);
    }
}

} // verus!
