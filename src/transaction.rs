use vstd::prelude::*;

use crate::crypto::{base58_decode, base58_payload, ripemd160_of, sha256_digest, sha256_of};
use crate::encoding::{
    bytes_eq, lemma_count_at, pow256, bytes_field, copy_bytes, copy_range, i32_bytes, lemma_le_bytes_inj,
    lemma_le_bytes_len, lemma_occurs_split, lemma_pow256_8, occurs_at, push_field, push_le,
    read_field, read_le, u64_bytes,
};
use crate::blockchain::{find_tx, Blockchain};
use crate::crypto::{ecdsa_accepts, ecdsa_p256_sha256_sign_digest, ecdsa_p256_sha256_sign_verify};
use crate::encoding::hex_lower;
use crate::encoding::hex_decode;
use crate::error::ChainError;
use crate::utxo_set::{select, selection_view, values_nonneg, UTXOSet};
use crate::wallets::{is_valid_address, validate_address, Wallets};

verus! {

/// The reward that a coinbase transaction pays.
pub const SUBSIDY: i32 = 10;

/// Length of the checksum at the end of an address payload.
pub const ADDRESS_CHECK_SUM_LEN: usize = 4;

/// A reference to an output of an earlier transaction, with the spender's proof.
#[derive(Clone, Debug, Default)]
pub struct TXInput {
    pub txid: Vec<u8>,
    pub vout: usize,
    pub signature: Vec<u8>,
    pub pub_key: Vec<u8>,
}

/// An amount locked to the hash of a public key.
#[derive(Clone, Debug)]
pub struct TXOutput {
    pub value: i32,
    pub pub_key_hash: Vec<u8>,
}

/// A transfer: inputs that spend earlier outputs, and new outputs.
#[derive(Clone, Debug, Default)]
pub struct Transaction {
    pub id: Vec<u8>,
    pub vin: Vec<TXInput>,
    pub vout: Vec<TXOutput>,
}

/// The value of an input.
pub struct InputModel {
    pub txid: Seq<u8>,
    pub vout: usize,
    pub signature: Seq<u8>,
    pub pub_key: Seq<u8>,
}

/// The value of an output.
pub struct OutputModel {
    pub value: i32,
    pub pub_key_hash: Seq<u8>,
}

/// The value of a transaction.
pub struct TxModel {
    pub id: Seq<u8>,
    pub vin: Seq<InputModel>,
    pub vout: Seq<OutputModel>,
}

impl View for TXInput {
    type V = InputModel;

    open spec fn view(&self) -> InputModel {
        InputModel {
            txid: self.txid@,
            vout: self.vout,
            signature: self.signature@,
            pub_key: self.pub_key@,
        }
    }
}

impl View for TXOutput {
    type V = OutputModel;

    open spec fn view(&self) -> OutputModel {
        OutputModel { value: self.value, pub_key_hash: self.pub_key_hash@ }
    }
}

/// The values of a sequence of inputs.
pub open spec fn inputs_view(s: Seq<TXInput>) -> Seq<InputModel> {
    s.map_values(|i: TXInput| i@)
}

/// The values of a sequence of outputs.
pub open spec fn outputs_view(s: Seq<TXOutput>) -> Seq<OutputModel> {
    s.map_values(|o: TXOutput| o@)
}

impl View for Transaction {
    type V = TxModel;

    open spec fn view(&self) -> TxModel {
        TxModel { id: self.id@, vin: inputs_view(self.vin@), vout: outputs_view(self.vout@) }
    }
}

/// The hash that locks outputs to the owner of a public key: RIPEMD-160 of SHA-256.
pub open spec fn pub_key_hash_of(pub_key: Seq<u8>) -> Seq<u8> {
    ripemd160_of(sha256_of(pub_key))
}

/// The public-key hash that an address carries: its payload without the version byte and the
/// checksum.
pub open spec fn address_hash(address: Seq<char>) -> Seq<u8> {
    let p = base58_payload(address);
    p.subrange(1, p.len() - ADDRESS_CHECK_SUM_LEN)
}

/// Whether an address decodes to a payload long enough to carry a version byte and a checksum.
pub open spec fn address_decodes(address: Seq<char>) -> bool {
    base58_payload(address).len() > ADDRESS_CHECK_SUM_LEN
}

/// Serialized input: its fields in order, byte strings framed by their length.
pub open spec fn input_bytes(i: InputModel) -> Seq<u8> {
    bytes_field(i.txid) + u64_bytes(i.vout as u64) + bytes_field(i.signature) + bytes_field(
        i.pub_key,
    )
}

/// Serialized output: the value, then the framed public-key hash.
pub open spec fn output_bytes(o: OutputModel) -> Seq<u8> {
    i32_bytes(o.value) + bytes_field(o.pub_key_hash)
}

pub open spec fn inputs_bytes(s: Seq<InputModel>) -> Seq<u8>
    decreases s.len(),
{
    if s.len() == 0 {
        Seq::empty()
    } else {
        inputs_bytes(s.drop_last()) + input_bytes(s.last())
    }
}

pub open spec fn outputs_bytes(s: Seq<OutputModel>) -> Seq<u8>
    decreases s.len(),
{
    if s.len() == 0 {
        Seq::empty()
    } else {
        outputs_bytes(s.drop_last()) + output_bytes(s.last())
    }
}

/// Serialized transaction: the framed id, the counted inputs, the counted outputs.
pub open spec fn tx_bytes(t: TxModel) -> Seq<u8> {
    bytes_field(t.id) + u64_bytes(t.vin.len() as u64) + inputs_bytes(t.vin) + u64_bytes(
        t.vout.len() as u64,
    ) + outputs_bytes(t.vout)
}

/// The transaction with its id cleared.
pub open spec fn without_id(t: TxModel) -> TxModel {
    TxModel { id: Seq::empty(), ..t }
}

/// The id that a transaction's content determines: SHA-256 of its serialization with the id
/// cleared.
pub open spec fn tx_hash(t: TxModel) -> Seq<u8> {
    sha256_of(tx_bytes(without_id(t)))
}

/// A coinbase transaction has exactly one input, and that input carries no public key.
pub open spec fn is_coinbase_tx(t: TxModel) -> bool {
    t.vin.len() == 1 && t.vin[0].pub_key.len() == 0
}

/// An input with only its reference kept: signature and public key cleared.
pub open spec fn trim_input(i: InputModel) -> InputModel {
    InputModel { signature: Seq::empty(), pub_key: Seq::empty(), ..i }
}

/// The trimmed copy: same id and outputs, inputs reduced to their references.
pub open spec fn trimmed(t: TxModel) -> TxModel {
    TxModel { vin: t.vin.map_values(|i: InputModel| trim_input(i)), ..t }
}

/// The digest that input `idx` signs: the hash of the trimmed copy in which that input carries
/// the public-key hash of the output it spends.
pub open spec fn signing_digest(t: TxModel, idx: int, prev_pub_key_hash: Seq<u8>) -> Seq<u8> {
    let c = trimmed(t);
    tx_hash(
        TxModel {
            vin: c.vin.update(idx, InputModel { pub_key: prev_pub_key_hash, ..c.vin[idx] }),
            ..c
        },
    )
}

impl TXInput {
    /// An input that refers to output `vout` of transaction `txid`, unsigned and without key.
    pub fn new(txid: &[u8], vout: usize) -> (r: TXInput)
        ensures
            r@ == trim_input(InputModel { txid: txid@, vout, signature: seq![], pub_key: seq![] }),
    {
        TXInput { txid: copy_bytes(txid), vout, signature: Vec::new(), pub_key: Vec::new() }
    }

    pub fn get_txid(&self) -> (r: &[u8])
        ensures
            r@ == self.txid@,
    {
        self.txid.as_slice()
    }

    pub fn get_vout(&self) -> (r: usize)
        ensures
            r == self.vout,
    {
        self.vout
    }

    pub fn get_pub_key(&self) -> (r: &[u8])
        ensures
            r@ == self.pub_key@,
    {
        self.pub_key.as_slice()
    }

    /// Whether this input's public key hashes to `pub_key_hash`.
    pub fn use_key(&self, pub_key_hash: &[u8]) -> (r: bool)
        ensures
            r == (pub_key_hash_of(self.pub_key@) == pub_key_hash@),
    {
        let locking_hash = hash_pub_key(self.pub_key.as_slice());
        bytes_eq(locking_hash.as_slice(), pub_key_hash)
    }

    /// A copy with the same value.
    pub fn duplicate(&self) -> (r: TXInput)
        ensures
            r@ == self@,
    {
        TXInput {
            txid: copy_bytes(self.txid.as_slice()),
            vout: self.vout,
            signature: copy_bytes(self.signature.as_slice()),
            pub_key: copy_bytes(self.pub_key.as_slice()),
        }
    }
}

/// RIPEMD-160 of SHA-256 of a public key.
pub fn hash_pub_key(pub_key: &[u8]) -> (r: Vec<u8>)
    ensures
        r@ == pub_key_hash_of(pub_key@),
        r@.len() == 20,
{
    let pub_key_sha256 = sha256_digest(pub_key);
    crate::crypto::ripemd160_digest(pub_key_sha256.as_slice())
}

impl TXOutput {
    /// An output of `value` locked to the public-key hash that `address` carries.
    pub fn new(value: i32, address: &str) -> (r: TXOutput)
        requires
            address_decodes(address@),
        ensures
            r@ == (OutputModel { value, pub_key_hash: address_hash(address@) }),
    {
        let mut output = TXOutput { value, pub_key_hash: Vec::new() };
        output.lock(address);
        output
    }

    fn lock(&mut self, address: &str)
        requires
            address_decodes(address@),
        ensures
            final(self)@ == (OutputModel { value: old(self).value, pub_key_hash: address_hash(address@) }),
    {
        let payload = base58_decode(address);
        let pub_key_hash = copy_range(
            payload.as_slice(),
            1,
            payload.len() - ADDRESS_CHECK_SUM_LEN,
        );
        self.pub_key_hash = pub_key_hash;
    }

    pub fn get_value(&self) -> (r: i32)
        ensures
            r == self.value,
    {
        self.value
    }

    pub fn get_pub_key_hash(&self) -> (r: &[u8])
        ensures
            r@ == self.pub_key_hash@,
    {
        self.pub_key_hash.as_slice()
    }

    /// Whether this output is locked to `pub_key_hash`.
    pub fn is_locked_with_key(&self, pub_key_hash: &[u8]) -> (r: bool)
        ensures
            r == (self.pub_key_hash@ == pub_key_hash@),
    {
        bytes_eq(self.pub_key_hash.as_slice(), pub_key_hash)
    }

    /// A copy with the same value.
    pub fn duplicate(&self) -> (r: TXOutput)
        ensures
            r@ == self@,
    {
        TXOutput { value: self.value, pub_key_hash: copy_bytes(self.pub_key_hash.as_slice()) }
    }
}

/// A copy of a list of outputs, element by element.
pub fn copy_outputs(s: &[TXOutput]) -> (r: Vec<TXOutput>)
    ensures
        outputs_view(r@) == outputs_view(s@),
{
    let mut out: Vec<TXOutput> = Vec::new();
    let mut i: usize = 0;
    while i < s.len()
        invariant
            i <= s@.len(),
            out@.len() == i,
            forall|k: int| 0 <= k < i ==> (#[trigger] out@[k])@ == s@[k]@,
        decreases s@.len() - i,
    {
        out.push(s[i].duplicate());
        i = i + 1;
    }
    assert(outputs_view(out@) =~= outputs_view(s@));
    out
}

/// A copy of a list of inputs, element by element.
pub fn copy_inputs(s: &[TXInput]) -> (r: Vec<TXInput>)
    ensures
        inputs_view(r@) == inputs_view(s@),
{
    let mut out: Vec<TXInput> = Vec::new();
    let mut i: usize = 0;
    while i < s.len()
        invariant
            i <= s@.len(),
            out@.len() == i,
            forall|k: int| 0 <= k < i ==> (#[trigger] out@[k])@ == s@[k]@,
        decreases s@.len() - i,
    {
        out.push(s[i].duplicate());
        i = i + 1;
    }
    assert(inputs_view(out@) =~= inputs_view(s@));
    out
}

fn push_input(out: &mut Vec<u8>, i: &TXInput)
    ensures
        final(out)@ == old(out)@ + input_bytes(i@),
{
    push_field(out, i.txid.as_slice());
    push_le(out, i.vout as u64, 8);
    push_field(out, i.signature.as_slice());
    push_field(out, i.pub_key.as_slice());
    assert(out@ =~= old(out)@ + input_bytes(i@));
}

fn push_output(out: &mut Vec<u8>, o: &TXOutput)
    ensures
        final(out)@ == old(out)@ + output_bytes(o@),
{
    push_le(out, o.value as u32 as u64, 4);
    push_field(out, o.pub_key_hash.as_slice());
    assert(out@ =~= old(out)@ + output_bytes(o@));
}

proof fn lemma_input_parts(data: Seq<u8>, pos: int, x: InputModel)
    requires
        occurs_at(data, pos, input_bytes(x)),
    ensures
        occurs_at(data, pos, bytes_field(x.txid)),
        occurs_at(data, pos + 8 + x.txid.len(), u64_bytes(x.vout as u64)),
        occurs_at(data, pos + 16 + x.txid.len(), bytes_field(x.signature)),
        occurs_at(data, pos + 24 + x.txid.len() + x.signature.len(), bytes_field(x.pub_key)),
        input_bytes(x).len() == 32 + x.txid.len() + x.signature.len() + x.pub_key.len(),
{
    lemma_le_bytes_len(x.txid.len() as u64 as nat, 8);
    lemma_le_bytes_len(x.vout as u64 as nat, 8);
    lemma_le_bytes_len(x.signature.len() as u64 as nat, 8);
    lemma_le_bytes_len(x.pub_key.len() as u64 as nat, 8);
    let a = bytes_field(x.txid);
    let b = u64_bytes(x.vout as u64);
    let c = bytes_field(x.signature);
    let d = bytes_field(x.pub_key);
    lemma_occurs_split(data, pos, a + b + c, d);
    lemma_occurs_split(data, pos, a + b, c);
    lemma_occurs_split(data, pos, a, b);
}

proof fn lemma_output_parts(data: Seq<u8>, pos: int, x: OutputModel)
    requires
        occurs_at(data, pos, output_bytes(x)),
    ensures
        occurs_at(data, pos, i32_bytes(x.value)),
        occurs_at(data, pos + 4, bytes_field(x.pub_key_hash)),
        output_bytes(x).len() == 12 + x.pub_key_hash.len(),
{
    lemma_le_bytes_len(x.value as u32 as nat, 4);
    lemma_le_bytes_len(x.pub_key_hash.len() as u64 as nat, 8);
    lemma_occurs_split(data, pos, i32_bytes(x.value), bytes_field(x.pub_key_hash));
}

fn read_input(data: &[u8], pos: usize, Ghost(expect): Ghost<InputModel>) -> (r: Option<
    (TXInput, usize),
>)
    ensures
        r matches Some((x, end)) ==> pos <= end <= data@.len() && input_bytes(x@)
            == data@.subrange(pos as int, end as int),
        occurs_at(data@, pos as int, input_bytes(expect)) ==> (r matches Some((x, end)) && x@
            == expect && end == pos + input_bytes(expect).len()),
{
    let total: usize = data.len();
    let ghost present = occurs_at(data@, pos as int, input_bytes(expect));
    proof {
        if present {
            lemma_input_parts(data@, pos as int, expect);
        }
    }
    let (txid, p1) = match read_field(data, pos) {
        Some(v) => v,
        None => return None,
    };
    let vout = match read_le(data, p1, 8) {
        Some(v) => v,
        None => return None,
    };
    proof {
        lemma_pow256_8();
        if present {
            lemma_count_at(data@, p1 as int, vout, expect.vout as nat);
        }
    }
    if vout > usize::MAX as u64 {
        return None;
    }
    let p2: usize = p1 + 8;
    let (signature, p3) = match read_field(data, p2) {
        Some(v) => v,
        None => return None,
    };
    let (pub_key, p4) = match read_field(data, p3) {
        Some(v) => v,
        None => return None,
    };
    let x = TXInput { txid, vout: vout as usize, signature, pub_key };
    proof {
        assert(u64_bytes(x.vout as u64) == data@.subrange(p1 as int, p2 as int));
        assert(input_bytes(x@) =~= data@.subrange(pos as int, p4 as int));
    }
    Some((x, p4))
}

fn read_output(data: &[u8], pos: usize, Ghost(expect): Ghost<OutputModel>) -> (r: Option<
    (TXOutput, usize),
>)
    ensures
        r matches Some((x, end)) ==> pos <= end <= data@.len() && output_bytes(x@)
            == data@.subrange(pos as int, end as int),
        occurs_at(data@, pos as int, output_bytes(expect)) ==> (r matches Some((x, end)) && x@
            == expect && end == pos + output_bytes(expect).len()),
{
    let total: usize = data.len();
    let ghost present = occurs_at(data@, pos as int, output_bytes(expect));
    proof {
        if present {
            lemma_output_parts(data@, pos as int, expect);
        }
    }
    let raw = match read_le(data, pos, 4) {
        Some(v) => v,
        None => return None,
    };
    let p1: usize = pos + 4;
    let (pub_key_hash, p2) = match read_field(data, p1) {
        Some(v) => v,
        None => return None,
    };
    proof {
        lemma_le_bytes_len(raw as nat, 4);
    }
    assert(raw < 0x1_0000_0000) by {
        reveal_with_fuel(crate::encoding::pow256, 5);
    }
    let small: u32 = raw as u32;
    let value: i32 = #[verifier::truncate] (small as i32);
    assert((value as u32) == small) by (bit_vector)
        requires
            value == #[verifier::truncate] (small as i32),
    ;
    proof {
        if present {
            let e = expect.value;
            assert((e as u32) < 0x1_0000_0000u64);
            reveal_with_fuel(crate::encoding::pow256, 5);
            lemma_le_bytes_inj(raw as nat, e as u32 as nat, 4);
            assert(value == e) by (bit_vector)
                requires
                    value == #[verifier::truncate] (small as i32),
                    small == e as u32,
            ;
        }
    }
    let x = TXOutput { value, pub_key_hash };
    proof {
        assert(output_bytes(x@) =~= data@.subrange(pos as int, p2 as int));
    }
    Some((x, p2))
}

impl Transaction {
    /// The serialized form: framed id, counted inputs, counted outputs, integers little-endian.
    pub fn serialize(&self) -> (r: Vec<u8>)
        ensures
            r@ == tx_bytes(self@),
    {
        let mut out: Vec<u8> = Vec::new();
        push_field(&mut out, self.id.as_slice());
        push_le(&mut out, self.vin.len() as u64, 8);
        let ghost head = out@;
        let mut i: usize = 0;
        while i < self.vin.len()
            invariant
                i <= self.vin@.len(),
                out@ == head + inputs_bytes(inputs_view(self.vin@).take(i as int)),
            decreases self.vin@.len() - i,
        {
            push_input(&mut out, &self.vin[i]);
            i = i + 1;
            assert(inputs_view(self.vin@).take(i as int).drop_last() =~= inputs_view(
                self.vin@,
            ).take(i - 1));
        }
        assert(inputs_view(self.vin@).take(i as int) =~= inputs_view(self.vin@));
        push_le(&mut out, self.vout.len() as u64, 8);
        let ghost mid = out@;
        let mut j: usize = 0;
        while j < self.vout.len()
            invariant
                j <= self.vout@.len(),
                out@ == mid + outputs_bytes(outputs_view(self.vout@).take(j as int)),
            decreases self.vout@.len() - j,
        {
            push_output(&mut out, &self.vout[j]);
            j = j + 1;
            assert(outputs_view(self.vout@).take(j as int).drop_last() =~= outputs_view(
                self.vout@,
            ).take(j - 1));
        }
        assert(outputs_view(self.vout@).take(j as int) =~= outputs_view(self.vout@));
        assert(out@ =~= tx_bytes(self@));
        out
    }

    /// Reads a transaction from its serialized form; succeeds exactly on the serialization of a
    /// transaction, and then returns a transaction with that serialization.
    pub fn deserialize(data: &[u8]) -> (r: Result<Transaction, ChainError>)
        ensures
            r is Ok <==> exists|t: TxModel| tx_bytes(t) == data@,
            r matches Ok(t) ==> tx_bytes(t@) == data@,
            r matches Err(e) ==> e == ChainError::Malformed,
    {
        let ghost expect = choose|t: TxModel| tx_bytes(t) == data@;
        proof {
            if exists|t: TxModel| tx_bytes(t) == data@ {
                assert(data@.subrange(0, data@.len() as int) =~= data@);
            }
        }
        match read_tx(data, 0, Ghost(expect)) {
            Some((t, end)) => {
                if end == data.len() {
                    assert(data@.subrange(0, end as int) =~= data@);
                    Ok(t)
                } else {
                    Err(ChainError::Malformed)
                }
            },
            None => Err(ChainError::Malformed),
        }
    }

    /// The id that this transaction's content determines: SHA-256 of its serialization with the
    /// id cleared.
    fn hash(&self) -> (r: Vec<u8>)
        ensures
            r@ == tx_hash(self@),
            r@.len() == 32,
    {
        let tx_copy = Transaction {
            id: Vec::new(),
            vin: copy_inputs(self.vin.as_slice()),
            vout: copy_outputs(self.vout.as_slice()),
        };
        assert(tx_copy@ == without_id(self@));
        sha256_digest(tx_copy.serialize().as_slice())
    }

    /// The trimmed copy: same id and outputs, inputs reduced to their references.
    fn trimmed_copy(&self) -> (r: Transaction)
        ensures
            r@ == trimmed(self@),
    {
        let mut inputs: Vec<TXInput> = Vec::new();
        let mut i: usize = 0;
        while i < self.vin.len()
            invariant
                i <= self.vin@.len(),
                inputs@.len() == i,
                forall|k: int| 0 <= k < i ==> (#[trigger] inputs@[k])@ == trim_input(self.vin@[k]@),
            decreases self.vin@.len() - i,
        {
            inputs.push(TXInput::new(self.vin[i].txid.as_slice(), self.vin[i].vout));
            i = i + 1;
        }
        let r = Transaction {
            id: copy_bytes(self.id.as_slice()),
            vin: inputs,
            vout: copy_outputs(self.vout.as_slice()),
        };
        assert(r@.vin =~= trimmed(self@).vin);
        r
    }

    /// Whether this is a coinbase transaction: one input, carrying no public key.
    pub fn is_coinbase(&self) -> (r: bool)
        ensures
            r == is_coinbase_tx(self@),
    {
        self.vin.len() == 1 && self.vin[0].pub_key.len() == 0
    }

    pub fn get_id(&self) -> (r: &[u8])
        ensures
            r@ == self.id@,
    {
        self.id.as_slice()
    }

    pub fn get_id_bytes(&self) -> (r: Vec<u8>)
        ensures
            r@ == self.id@,
    {
        copy_bytes(self.id.as_slice())
    }

    pub fn get_vin(&self) -> (r: &[TXInput])
        ensures
            r@ == self.vin@,
    {
        self.vin.as_slice()
    }

    pub fn get_vout(&self) -> (r: &[TXOutput])
        ensures
            r@ == self.vout@,
    {
        self.vout.as_slice()
    }

    /// A copy with the same value.
    pub fn duplicate(&self) -> (r: Transaction)
        ensures
            r@ == self@,
    {
        Transaction {
            id: copy_bytes(self.id.as_slice()),
            vin: copy_inputs(self.vin.as_slice()),
            vout: copy_outputs(self.vout.as_slice()),
        }
    }
}

proof fn lemma_inputs_concat(a: Seq<InputModel>, b: Seq<InputModel>)
    ensures
        inputs_bytes(a + b) == inputs_bytes(a) + inputs_bytes(b),
    decreases b.len(),
{
    if b.len() == 0 {
        assert(a + b =~= a);
        assert(inputs_bytes(a) + inputs_bytes(b) =~= inputs_bytes(a));
    } else {
        lemma_inputs_concat(a, b.drop_last());
        assert((a + b).drop_last() =~= a + b.drop_last());
        assert(inputs_bytes(a + b) =~= inputs_bytes(a) + inputs_bytes(b));
    }
}

proof fn lemma_outputs_concat(a: Seq<OutputModel>, b: Seq<OutputModel>)
    ensures
        outputs_bytes(a + b) == outputs_bytes(a) + outputs_bytes(b),
    decreases b.len(),
{
    if b.len() == 0 {
        assert(a + b =~= a);
        assert(outputs_bytes(a) + outputs_bytes(b) =~= outputs_bytes(a));
    } else {
        lemma_outputs_concat(a, b.drop_last());
        assert((a + b).drop_last() =~= a + b.drop_last());
        assert(outputs_bytes(a + b) =~= outputs_bytes(a) + outputs_bytes(b));
    }
}

proof fn lemma_inputs_len(s: Seq<InputModel>)
    ensures
        inputs_bytes(s).len() >= s.len(),
    decreases s.len(),
{
    if s.len() > 0 {
        lemma_inputs_len(s.drop_last());
        let x = s.last();
        lemma_le_bytes_len(x.txid.len() as u64 as nat, 8);
        lemma_le_bytes_len(x.vout as u64 as nat, 8);
        lemma_le_bytes_len(x.signature.len() as u64 as nat, 8);
        lemma_le_bytes_len(x.pub_key.len() as u64 as nat, 8);
    }
}

proof fn lemma_outputs_len(s: Seq<OutputModel>)
    ensures
        outputs_bytes(s).len() >= s.len(),
    decreases s.len(),
{
    if s.len() > 0 {
        lemma_outputs_len(s.drop_last());
        let x = s.last();
        lemma_le_bytes_len(x.value as u32 as nat, 4);
        lemma_le_bytes_len(x.pub_key_hash.len() as u64 as nat, 8);
    }
}

proof fn lemma_input_at(data: Seq<u8>, p: int, s: Seq<InputModel>, k: int)
    requires
        occurs_at(data, p, inputs_bytes(s)),
        0 <= k < s.len(),
    ensures
        occurs_at(data, p + inputs_bytes(s.take(k)).len(), input_bytes(s[k])),
        inputs_bytes(s.take(k + 1)) == inputs_bytes(s.take(k)) + input_bytes(s[k]),
{
    let one = seq![s[k]];
    assert(s =~= s.take(k) + one + s.skip(k + 1));
    lemma_inputs_concat(s.take(k) + one, s.skip(k + 1));
    lemma_inputs_concat(s.take(k), one);
    assert(one.drop_last() =~= Seq::<InputModel>::empty());
    assert(one.last() == s[k]);
    assert(inputs_bytes(one.drop_last()) =~= Seq::<u8>::empty());
    assert(inputs_bytes(one) =~= input_bytes(s[k]));
    lemma_occurs_split(data, p, inputs_bytes(s.take(k)) + input_bytes(s[k]), inputs_bytes(s.skip(k + 1)));
    lemma_occurs_split(data, p, inputs_bytes(s.take(k)), input_bytes(s[k]));
    assert(s.take(k + 1) =~= s.take(k) + one);
}

proof fn lemma_output_at(data: Seq<u8>, p: int, s: Seq<OutputModel>, k: int)
    requires
        occurs_at(data, p, outputs_bytes(s)),
        0 <= k < s.len(),
    ensures
        occurs_at(data, p + outputs_bytes(s.take(k)).len(), output_bytes(s[k])),
        outputs_bytes(s.take(k + 1)) == outputs_bytes(s.take(k)) + output_bytes(s[k]),
{
    let one = seq![s[k]];
    assert(s =~= s.take(k) + one + s.skip(k + 1));
    lemma_outputs_concat(s.take(k) + one, s.skip(k + 1));
    lemma_outputs_concat(s.take(k), one);
    assert(one.drop_last() =~= Seq::<OutputModel>::empty());
    assert(one.last() == s[k]);
    assert(outputs_bytes(one.drop_last()) =~= Seq::<u8>::empty());
    assert(outputs_bytes(one) =~= output_bytes(s[k]));
    lemma_occurs_split(data, p, outputs_bytes(s.take(k)) + output_bytes(s[k]), outputs_bytes(s.skip(k + 1)));
    lemma_occurs_split(data, p, outputs_bytes(s.take(k)), output_bytes(s[k]));
    assert(s.take(k + 1) =~= s.take(k) + one);
}

proof fn lemma_tx_parts(data: Seq<u8>, pos: int, t: TxModel)
    requires
        occurs_at(data, pos, tx_bytes(t)),
        data.len() < pow256(8),
    ensures
        occurs_at(data, pos, bytes_field(t.id)),
        occurs_at(data, pos + 8 + t.id.len(), u64_bytes(t.vin.len() as u64)),
        occurs_at(data, pos + 16 + t.id.len(), inputs_bytes(t.vin)),
        occurs_at(
            data,
            pos + 16 + t.id.len() + inputs_bytes(t.vin).len(),
            u64_bytes(t.vout.len() as u64),
        ),
        occurs_at(
            data,
            pos + 24 + t.id.len() + inputs_bytes(t.vin).len(),
            outputs_bytes(t.vout),
        ),
        tx_bytes(t).len() == 24 + t.id.len() + inputs_bytes(t.vin).len() + outputs_bytes(
            t.vout,
        ).len(),
        t.vin.len() < pow256(8),
        t.vout.len() < pow256(8),
{
    lemma_le_bytes_len(t.id.len() as u64 as nat, 8);
    lemma_le_bytes_len(t.vin.len() as u64 as nat, 8);
    lemma_le_bytes_len(t.vout.len() as u64 as nat, 8);
    let a = bytes_field(t.id);
    let b = u64_bytes(t.vin.len() as u64);
    let c = inputs_bytes(t.vin);
    let d = u64_bytes(t.vout.len() as u64);
    let e = outputs_bytes(t.vout);
    lemma_occurs_split(data, pos, a + b + c + d, e);
    lemma_occurs_split(data, pos, a + b + c, d);
    lemma_occurs_split(data, pos, a + b, c);
    lemma_occurs_split(data, pos, a, b);
    lemma_inputs_len(t.vin);
    lemma_outputs_len(t.vout);
    lemma_pow256_8();
}

/// Reads a serialized transaction at `pos`: the transaction and the position after it. Where
/// the serialization of `expect` stands at `pos`, that is what is read.
#[verifier::rlimit(60)]
pub(crate) fn read_tx(data: &[u8], pos: usize, Ghost(expect): Ghost<TxModel>) -> (r: Option<
    (Transaction, usize),
>)
    ensures
        r matches Some((t, end)) ==> pos <= end <= data@.len() && tx_bytes(t@)
            == data@.subrange(pos as int, end as int),
        occurs_at(data@, pos as int, tx_bytes(expect)) ==> (r matches Some((t, end)) && t@
            == expect && end == pos + tx_bytes(expect).len()),
{
    let total: usize = data.len();
    let ghost present = occurs_at(data@, pos as int, tx_bytes(expect));
    proof {
        lemma_pow256_8();
        if present {
            lemma_tx_parts(data@, pos as int, expect);
        }
    }
    let (id, p0) = match read_field(data, pos) {
        Some(v) => v,
        None => return None,
    };
    let n_in = match read_le(data, p0, 8) {
        Some(v) => v,
        None => return None,
    };
    proof {
        if present {
            lemma_count_at(data@, p0 as int, n_in, expect.vin.len());
        }
    }
    let p1: usize = p0 + 8;
    let mut cur: usize = p1;
    let mut vin: Vec<TXInput> = Vec::new();
    let mut k: u64 = 0;
    while k < n_in
        invariant
            total == data@.len(),
            pos <= p1 <= cur <= data@.len(),
            k <= n_in,
            vin@.len() == k,
            inputs_bytes(inputs_view(vin@)) == data@.subrange(p1 as int, cur as int),
            present == occurs_at(data@, pos as int, tx_bytes(expect)),
            present ==> n_in == expect.vin.len(),
            present ==> occurs_at(data@, p1 as int, inputs_bytes(expect.vin)),
            present ==> inputs_view(vin@) == expect.vin.take(k as int),
            present ==> cur == p1 + inputs_bytes(expect.vin.take(k as int)).len(),
            present ==> p1 == pos + 16 + expect.id.len(),
            present ==> id@ == expect.id,
        decreases n_in - k,
    {
        proof {
            if present {
                lemma_input_at(data@, p1 as int, expect.vin, k as int);
            }
        }
        let ghost want = if present { expect.vin[k as int] } else { arbitrary() };
        let (x, next) = match read_input(data, cur, Ghost(want)) {
            Some(v) => v,
            None => return None,
        };
        let ghost before = vin@;
        vin.push(x);
        proof {
            assert(inputs_view(vin@).drop_last() =~= inputs_view(before));
            assert(inputs_bytes(inputs_view(vin@)) =~= data@.subrange(p1 as int, next as int));
            if present {
                assert(inputs_view(vin@) =~= expect.vin.take(k + 1));
            }
        }
        cur = next;
        k = k + 1;
    }
    proof {
        if present {
            assert(expect.vin.take(k as int) =~= expect.vin);
        }
    }
    let n_out = match read_le(data, cur, 8) {
        Some(v) => v,
        None => return None,
    };
    proof {
        if present {
            lemma_count_at(data@, cur as int, n_out, expect.vout.len());
        }
    }
    let p2: usize = cur + 8;
    let mut pos2: usize = p2;
    let mut vout: Vec<TXOutput> = Vec::new();
    let mut m: u64 = 0;
    while m < n_out
        invariant
            total == data@.len(),
            pos <= p2 <= pos2 <= data@.len(),
            m <= n_out,
            vout@.len() == m,
            outputs_bytes(outputs_view(vout@)) == data@.subrange(p2 as int, pos2 as int),
            present == occurs_at(data@, pos as int, tx_bytes(expect)),
            present ==> n_out == expect.vout.len(),
            present ==> occurs_at(data@, p2 as int, outputs_bytes(expect.vout)),
            present ==> outputs_view(vout@) == expect.vout.take(m as int),
            present ==> pos2 == p2 + outputs_bytes(expect.vout.take(m as int)).len(),
        decreases n_out - m,
    {
        proof {
            if present {
                lemma_output_at(data@, p2 as int, expect.vout, m as int);
            }
        }
        let ghost want = if present { expect.vout[m as int] } else { arbitrary() };
        let (x, next) = match read_output(data, pos2, Ghost(want)) {
            Some(v) => v,
            None => return None,
        };
        let ghost before = vout@;
        vout.push(x);
        proof {
            assert(outputs_view(vout@).drop_last() =~= outputs_view(before));
            assert(outputs_bytes(outputs_view(vout@)) =~= data@.subrange(
                p2 as int,
                next as int,
            ));
            if present {
                assert(outputs_view(vout@) =~= expect.vout.take(m + 1));
            }
        }
        pos2 = next;
        m = m + 1;
    }
    let t = Transaction { id, vin, vout };
    proof {
        assert(tx_bytes(t@) =~= data@.subrange(pos as int, pos2 as int));
        if present {
            assert(expect.vout.take(m as int) =~= expect.vout);
        }
    }
    Some((t, pos2))
}

/// The public-key hash of the output that an input spends, found in `txs`; `None` where no
/// transaction there has the input's transaction id, or that transaction has no such output.
pub open spec fn prev_output_hash(txs: Seq<TxModel>, i: InputModel) -> Option<Seq<u8>> {
    match find_tx(txs, i.txid) {
        Some(p) => if i.vout < p.vout.len() {
            Some(p.vout[i.vout as int].pub_key_hash)
        } else {
            None
        },
        None => None,
    }
}

/// Checking the inputs from `i` on: an input whose spent output is not found is an error; one
/// whose signature does not check out ends the check with `false`.
pub open spec fn verify_from(t: TxModel, txs: Seq<TxModel>, i: int) -> Result<bool, ChainError>
    decreases t.vin.len() - i,
{
    if i >= t.vin.len() || i < 0 {
        Ok(true)
    } else {
        match prev_output_hash(txs, t.vin[i]) {
            None => Err(ChainError::PreviousTransactionMissing),
            Some(h) => if !ecdsa_accepts(
                t.vin[i].pub_key,
                t.vin[i].signature,
                signing_digest(t, i, h),
            ) {
                Ok(false)
            } else {
                verify_from(t, txs, i + 1)
            },
        }
    }
}

/// The outcome of verifying a transaction against the transactions of a chain: a coinbase is
/// valid; otherwise every input must carry a signature that checks out under its public key
/// for its signing digest.
pub open spec fn verify_result(t: TxModel, txs: Seq<TxModel>) -> Result<bool, ChainError> {
    if is_coinbase_tx(t) {
        Ok(true)
    } else {
        verify_from(t, txs, 0)
    }
}

/// Verification fails only for a spent output that is not found.
pub proof fn lemma_verify_error(t: TxModel, txs: Seq<TxModel>, i: int)
    ensures
        verify_from(t, txs, i) is Err ==> verify_from(t, txs, i) == Err::<bool, ChainError>(
            ChainError::PreviousTransactionMissing,
        ),
    decreases t.vin.len() - i,
{
    if 0 <= i < t.vin.len() {
        lemma_verify_error(t, txs, i + 1);
    }
}

/// The transaction with every input's signature cleared.
pub open spec fn unsigned(t: TxModel) -> TxModel {
    TxModel {
        vin: t.vin.map_values(|i: InputModel| InputModel { signature: Seq::empty(), ..i }),
        ..t
    }
}

/// Whether `t2` differs from `t1` at most in the inputs' signatures.
pub open spec fn same_but_signatures(t1: TxModel, t2: TxModel) -> bool {
    &&& t1.id == t2.id
    &&& t1.vout == t2.vout
    &&& t1.vin.len() == t2.vin.len()
    &&& forall|i: int|
        0 <= i < t1.vin.len() ==> (#[trigger] t1.vin[i]).txid == t2.vin[i].txid && t1.vin[i].vout
            == t2.vin[i].vout && t1.vin[i].pub_key == t2.vin[i].pub_key
}

/// The (hex text of transaction id, output index) pairs of a selection, group after group.
pub open spec fn selection_pairs(sel: Seq<(Seq<char>, Seq<usize>)>) -> Seq<(Seq<char>, usize)>
    decreases sel.len(),
{
    if sel.len() == 0 {
        Seq::empty()
    } else {
        selection_pairs(sel.drop_last()) + sel.last().1.map_values(|v: usize| (sel.last().0, v))
    }
}

/// The references of a transaction's inputs: hex text of transaction id and output index.
pub open spec fn input_refs(vin: Seq<InputModel>) -> Seq<(Seq<char>, usize)> {
    vin.map_values(|i: InputModel| (hex_lower(i.txid), i.vout))
}

impl Transaction {
    /// A coinbase transaction paying the subsidy to `to`: one input with no reference, no key
    /// and a fresh random tag as its signature; one output; the id its content determines.
    /// Fails where `to` does not decode to an address payload.
    pub fn new_coinbase_tx(to: &str) -> (r: Result<Transaction, ChainError>)
        ensures
            r is Err <==> !address_decodes(to@),
            r matches Err(e) ==> e == ChainError::InvalidAddress,
            r matches Ok(t) ==> {
                &&& t@.vout == seq![OutputModel { value: SUBSIDY, pub_key_hash: address_hash(to@) }]
                &&& t@.vin.len() == 1
                &&& t@.vin[0].txid.len() == 0
                &&& t@.vin[0].vout == 0
                &&& t@.vin[0].pub_key.len() == 0
                &&& t@.vin[0].signature.len() == 16
                &&& is_coinbase_tx(t@)
                &&& t@.id == tx_hash(t@)
            },
    {
        let payload = base58_decode(to);
        if payload.len() <= ADDRESS_CHECK_SUM_LEN {
            return Err(ChainError::InvalidAddress);
        }
        let txout = TXOutput::new(SUBSIDY, to);
        let tx_input = TXInput {
            txid: Vec::new(),
            vout: 0,
            signature: crate::crypto::random_tag(),
            pub_key: Vec::new(),
        };
        let mut vin: Vec<TXInput> = Vec::new();
        vin.push(tx_input);
        let mut vout: Vec<TXOutput> = Vec::new();
        vout.push(txout);
        let mut tx = Transaction { id: Vec::new(), vin, vout };
        let id = tx.hash();
        let ghost before = tx@;
        tx.id = id;
        proof {
            assert(without_id(tx@) == without_id(before));
            assert(tx@.vout =~= seq![OutputModel { value: SUBSIDY, pub_key_hash: address_hash(to@) }]);
        }
        Ok(tx)
    }

    /// The digest that input `idx` signs, given the public-key hash of the output it spends.
    fn signing_hash(&self, idx: usize, prev_pub_key_hash: &[u8]) -> (r: Vec<u8>)
        requires
            idx < self.vin@.len(),
        ensures
            r@ == signing_digest(self@, idx as int, prev_pub_key_hash@),
    {
        let c = self.trimmed_copy();
        assert(inputs_view(c.vin@).len() == c.vin@.len());
        assert(inputs_view(self.vin@).len() == self.vin@.len());
        let mut vin = copy_inputs(c.vin.as_slice());
        assert(inputs_view(vin@).len() == vin@.len());
        let entry = TXInput {
            txid: copy_bytes(c.vin[idx].txid.as_slice()),
            vout: c.vin[idx].vout,
            signature: Vec::new(),
            pub_key: copy_bytes(prev_pub_key_hash),
        };
        vin.set(idx, entry);
        let tc = Transaction {
            id: copy_bytes(c.id.as_slice()),
            vin,
            vout: copy_outputs(c.vout.as_slice()),
        };
        proof {
            let cv = trimmed(self@);
            assert(tc@.vin =~= cv.vin.update(
                idx as int,
                InputModel { pub_key: prev_pub_key_hash@, ..cv.vin[idx as int] },
            ));
        }
        tc.hash()
    }

    /// Signs every input with the private key `pkcs8`: input `i` signs the digest of the trimmed
    /// copy in which it carries the public-key hash of the output it spends. Only signatures
    /// change. Fails where a spent output is not found in `blockchain`'s chain, or signing fails.
    pub fn sign(&mut self, blockchain: &Blockchain, pkcs8: &[u8]) -> (r: Result<(), ChainError>)
        requires
            blockchain.wf(),
        ensures
            same_but_signatures(old(self)@, final(self)@),
            r is Ok ==> forall|i: int|
                0 <= i < old(self)@.vin.len() ==> prev_output_hash(
                    blockchain.chain_txs(),
                    #[trigger] old(self)@.vin[i],
                ) is Some,
            (exists|i: int|
                0 <= i < old(self)@.vin.len() && prev_output_hash(
                    blockchain.chain_txs(),
                    #[trigger] old(self)@.vin[i],
                ) is None) ==> r is Err,
            r matches Err(e) ==> e == ChainError::PreviousTransactionMissing || e
                == ChainError::SigningFailed,
            old(self)@.vin.len() == 0 ==> r is Ok,
            r == Err::<(), ChainError>(ChainError::PreviousTransactionMissing) ==> exists|i: int|
                0 <= i < old(self)@.vin.len() && prev_output_hash(
                    blockchain.chain_txs(),
                    #[trigger] old(self)@.vin[i],
                ) is None,
            old(self)@.vin.len() > 0 && prev_output_hash(blockchain.chain_txs(), old(self)@.vin[0])
                is None ==> r == Err::<(), ChainError>(ChainError::PreviousTransactionMissing),
    {
        let ghost t0 = self@;
        let n: usize = self.vin.len();
        let mut idx: usize = 0;
        while idx < n
            invariant
                idx <= n == self.vin@.len(),
                blockchain.wf(),
                t0 == old(self)@,
                same_but_signatures(t0, self@),
                forall|i: int|
                    0 <= i < idx ==> prev_output_hash(blockchain.chain_txs(), #[trigger] t0.vin[i])
                        is Some,
            decreases n - idx,
        {
            let prev = match prev_pub_key_hash(blockchain, &self.vin[idx]) {
                Some(h) => h,
                None => {
                    assert(prev_output_hash(blockchain.chain_txs(), t0.vin[idx as int]) is None);
                    return Err(ChainError::PreviousTransactionMissing);
                },
            };
            let digest = self.signing_hash(idx, prev.as_slice());
            let signature = match ecdsa_p256_sha256_sign_digest(pkcs8, digest.as_slice()) {
                Some(sig) => sig,
                None => return Err(ChainError::SigningFailed),
            };
            let signed = TXInput {
                txid: copy_bytes(self.vin[idx].txid.as_slice()),
                vout: self.vin[idx].vout,
                signature,
                pub_key: copy_bytes(self.vin[idx].pub_key.as_slice()),
            };
            let ghost before = self@;
            self.vin.set(idx, signed);
            proof {
                assert forall|i: int| 0 <= i < t0.vin.len() implies (#[trigger] t0.vin[i]).txid
                    == self@.vin[i].txid && t0.vin[i].vout == self@.vin[i].vout
                    && t0.vin[i].pub_key == self@.vin[i].pub_key by {
                    if i != idx {
                        assert(self@.vin[i] == before.vin[i]);
                    }
                }
            }
            idx = idx + 1;
        }
        Ok(())
    }

    /// Verifies the signatures of the inputs against `blockchain`'s chain (a coinbase is valid
    /// as it stands).
    pub fn verify(&self, blockchain: &Blockchain) -> (r: Result<bool, ChainError>)
        requires
            blockchain.wf(),
        ensures
            r == verify_result(self@, blockchain.chain_txs()),
    {
        if self.is_coinbase() {
            return Ok(true);
        }
        let ghost txs = blockchain.chain_txs();
        let mut idx: usize = 0;
        while idx < self.vin.len()
            invariant
                idx <= self.vin@.len(),
                blockchain.wf(),
                txs == blockchain.chain_txs(),
                !is_coinbase_tx(self@),
                verify_result(self@, txs) == verify_from(self@, txs, idx as int),
            decreases self.vin@.len() - idx,
        {
            let prev = match prev_pub_key_hash(blockchain, &self.vin[idx]) {
                Some(h) => h,
                None => return Err(ChainError::PreviousTransactionMissing),
            };
            let digest = self.signing_hash(idx, prev.as_slice());
            let ok = ecdsa_p256_sha256_sign_verify(
                self.vin[idx].pub_key.as_slice(),
                self.vin[idx].signature.as_slice(),
                digest.as_slice(),
            );
            if !ok {
                return Ok(false);
            }
            idx = idx + 1;
        }
        Ok(true)
    }
}

/// The public-key hash of the output that `input` spends, looked up in `blockchain`'s chain.
fn prev_pub_key_hash(blockchain: &Blockchain, input: &TXInput) -> (r: Option<Vec<u8>>)
    requires
        blockchain.wf(),
    ensures
        r matches Some(h) ==> prev_output_hash(blockchain.chain_txs(), input@) == Some(h@),
        r is None ==> prev_output_hash(blockchain.chain_txs(), input@) is None,
{
    match blockchain.find_transaction(input.txid.as_slice()) {
        None => None,
        Some(prev_tx) => {
            if input.vout < prev_tx.vout.len() {
                Some(copy_bytes(prev_tx.vout[input.vout].pub_key_hash.as_slice()))
            } else {
                None
            }
        },
    }
}

/// The outputs of a payment of `amount` to `to` from `from`, where the picked outputs add up to
/// `accumulated`: the payment, and the change back to `from` where there is any.
pub open spec fn payment_outputs(amount: i32, to: Seq<char>, from: Seq<char>, accumulated: int) -> Seq<
    OutputModel,
> {
    let pay = OutputModel { value: amount, pub_key_hash: address_hash(to) };
    if accumulated > amount {
        seq![pay, OutputModel { value: (accumulated - amount) as i32, pub_key_hash: address_hash(from) }]
    } else {
        seq![pay]
    }
}

/// The outputs a payment of `amount` from `from` picks: the selection over the index for the
/// public-key hash of the wallet held for `from`.
pub open spec fn payment_selection(utxo_set: &UTXOSet, wallets: &Wallets, from: Seq<char>, amount: i32) -> (
    int,
    Seq<(Seq<char>, Seq<usize>)>,
) {
    select(
        utxo_set.view_entries(),
        pub_key_hash_of(wallets.wallet_of(from).public_key@),
        amount as int,
    )
}

/// Whether the chain holds the output that a reference (hex text of a transaction id, index)
/// names.
pub open spec fn reference_found(txs: Seq<TxModel>, p: (Seq<char>, usize)) -> bool {
    exists|b: Seq<u8>|
        #[trigger] hex_lower(b) == p.0 && prev_output_hash(
            txs,
            InputModel { txid: b, vout: p.1, signature: Seq::empty(), pub_key: Seq::empty() },
        ) is Some
}

/// An input whose spent output is not found names a reference that the chain does not hold.
proof fn lemma_missing_reference(
    txs: Seq<TxModel>,
    vin: Seq<InputModel>,
    pairs: Seq<(Seq<char>, usize)>,
    i: int,
)
    requires
        input_refs(vin) == pairs,
        0 <= i < vin.len(),
        prev_output_hash(txs, vin[i]) is None,
    ensures
        0 <= i < pairs.len(),
        !reference_found(txs, pairs[i]),
{
    assert(pairs[i] == input_refs(vin)[i]);
    if reference_found(txs, pairs[i]) {
        let b = choose|b: Seq<u8>|
            #[trigger] hex_lower(b) == pairs[i].0 && prev_output_hash(
                txs,
                InputModel { txid: b, vout: pairs[i].1, signature: Seq::empty(), pub_key: Seq::empty() },
            ) is Some;
        crate::encoding::lemma_hex_lower_inj(b, vin[i].txid);
    }
}

impl Transaction {
    /// A signed payment of `amount` from the wallet of `from` to `to`. Outputs of `from` are
    /// picked from the index (see `UTXOSet::find_spendable_outputs`); each picked output becomes
    /// an input carrying the sender's public key; the outputs are the payment and any change.
    /// The id is computed before signing.
    pub fn new_utxo_transaction(
        from: &str,
        to: &str,
        amount: i32,
        utxo_set: &UTXOSet,
        wallets: &Wallets,
    ) -> (r: Result<Transaction, ChainError>)
        requires
            utxo_set.wf(),
            wallets.wf(),
        ensures
            !(is_valid_address(from@) && is_valid_address(to@)) <==> r == Err::<
                Transaction,
                ChainError,
            >(ChainError::InvalidAddress),
            is_valid_address(from@) && is_valid_address(to@) && !wallets.holds(from@) ==> r
                == Err::<Transaction, ChainError>(ChainError::WalletNotFound),
            r == Err::<Transaction, ChainError>(ChainError::NotEnoughFunds) ==> select(
                utxo_set.view_entries(),
                pub_key_hash_of(wallets.wallet_of(from@).public_key@),
                amount as int,
            ).0 < amount,
            is_valid_address(from@) && is_valid_address(to@) && wallets.holds(from@) && select(
                utxo_set.view_entries(),
                pub_key_hash_of(wallets.wallet_of(from@).public_key@),
                amount as int,
            ).0 < amount ==> r is Err,
            r matches Err(e) ==> e == ChainError::InvalidAddress || e == ChainError::WalletNotFound
                || e == ChainError::NotEnoughFunds || e == ChainError::AmountOverflow || e
                == ChainError::PreviousTransactionMissing || e == ChainError::SigningFailed,
            r == Err::<Transaction, ChainError>(ChainError::WalletNotFound) ==> !wallets.holds(
                from@,
            ),
            is_valid_address(from@) && is_valid_address(to@) && wallets.holds(from@)
                && values_nonneg(utxo_set.view_entries()) && payment_selection(
                utxo_set,
                wallets,
                from@,
                amount,
            ).0 < amount ==> r == Err::<Transaction, ChainError>(ChainError::NotEnoughFunds),
            values_nonneg(utxo_set.view_entries()) && amount > i32::MIN ==> r != Err::<
                Transaction,
                ChainError,
            >(ChainError::AmountOverflow),
            r == Err::<Transaction, ChainError>(ChainError::PreviousTransactionMissing) ==> exists|
                k: int,
            |
                0 <= k < selection_pairs(payment_selection(utxo_set, wallets, from@, amount).1).len()
                    && !reference_found(
                    utxo_set.blockchain.chain_txs(),
                    #[trigger] selection_pairs(
                        payment_selection(utxo_set, wallets, from@, amount).1,
                    )[k],
                ),
            is_valid_address(from@) && is_valid_address(to@) && wallets.holds(from@)
                && values_nonneg(utxo_set.view_entries()) && amount > i32::MIN && payment_selection(
                utxo_set,
                wallets,
                from@,
                amount,
            ).0 >= amount && payment_selection(utxo_set, wallets, from@, amount).1.len() == 0
                ==> r is Ok,
            r matches Ok(t) ==> {
                let w = wallets.wallet_of(from@);
                let sel = select(
                    utxo_set.view_entries(),
                    pub_key_hash_of(w.public_key@),
                    amount as int,
                );
                &&& wallets.holds(from@)
                &&& sel.0 >= amount
                &&& input_refs(t@.vin) == selection_pairs(sel.1)
                &&& forall|i: int|
                    0 <= i < t@.vin.len() ==> (#[trigger] t@.vin[i]).pub_key == w.public_key@
                &&& t@.vout == payment_outputs(amount, to@, from@, sel.0)
                &&& t@.id == tx_hash(unsigned(t@))
            },
    {
        if !validate_address(from) || !validate_address(to) {
            return Err(ChainError::InvalidAddress);
        }
        let wallet = match wallets.get_wallet(from) {
            Some(w) => w,
            None => return Err(ChainError::WalletNotFound),
        };
        let public_key_hash = hash_pub_key(wallet.get_public_key());
        let ghost sel = select(utxo_set.view_entries(), public_key_hash@, amount as int);
        let (accumulated, valid_outputs) = match utxo_set.find_spendable_outputs(
            public_key_hash.as_slice(),
            amount,
        ) {
            Ok(v) => v,
            Err(e) => return Err(e),
        };
        if accumulated < amount as i64 {
            return Err(ChainError::NotEnoughFunds);
        }
        proof {
            crate::utxo_set::lemma_select_facts(utxo_set.view_entries(), public_key_hash@, amount as int);
            crate::utxo_set::lemma_select_keys_hex(
                utxo_set.view_entries(),
                public_key_hash@,
                amount as int,
            );
        }
        let ghost sv = selection_view(valid_outputs@);
        let mut inputs: Vec<TXInput> = Vec::new();
        let mut g: usize = 0;
        while g < valid_outputs.len()
            invariant
                g <= valid_outputs@.len(),
                sv == selection_view(valid_outputs@),
                sv == sel.1,
                forall|i: int|
                    0 <= i < sv.len() ==> exists|b: Seq<u8>| hex_lower(b) == (#[trigger] sv[i]).0,
                input_refs(inputs_view(inputs@)) == selection_pairs(sv.take(g as int)),
                forall|i: int|
                    0 <= i < inputs@.len() ==> (#[trigger] inputs@[i]).pub_key@
                        == wallet.public_key@ && inputs@[i].signature@.len() == 0,
            decreases valid_outputs@.len() - g,
        {
            let txid = match hex_decode(valid_outputs[g].0.as_str()) {
                Some(t) => t,
                None => {
                    assert(sv[g as int].0 == valid_outputs@[g as int].0@);
                    assert(false);
                    return Err(ChainError::Malformed);
                },
            };
            let outs = &valid_outputs[g].1;
            let ghost start = input_refs(inputs_view(inputs@));
            let ghost key = sv[g as int].0;
            let mut k: usize = 0;
            while k < outs.len()
                invariant
                    k <= outs@.len(),
                    g < valid_outputs@.len(),
                    outs@ == valid_outputs@[g as int].1@,
                    sv == selection_view(valid_outputs@),
                    key == sv[g as int].0,
                    hex_lower(txid@) == key,
                    input_refs(inputs_view(inputs@)) == start + outs@.take(k as int).map_values(
                        |v: usize| (key, v),
                    ),
                    forall|i: int|
                        0 <= i < inputs@.len() ==> (#[trigger] inputs@[i]).pub_key@
                            == wallet.public_key@ && inputs@[i].signature@.len() == 0,
                decreases outs@.len() - k,
            {
                let ghost before = inputs@;
                let input = TXInput {
                    txid: copy_bytes(txid.as_slice()),
                    vout: outs[k],
                    signature: Vec::new(),
                    pub_key: copy_bytes(wallet.get_public_key()),
                };
                inputs.push(input);
                proof {
                    assert(inputs_view(inputs@) =~= inputs_view(before).push(input@));
                    assert(input_refs(inputs_view(inputs@)) =~= input_refs(inputs_view(before)).push(
                        (key, outs@[k as int]),
                    ));
                    assert(outs@.take(k + 1).map_values(|v: usize| (key, v)) =~= outs@.take(
                        k as int,
                    ).map_values(|v: usize| (key, v)).push((key, outs@[k as int])));
                }
                k = k + 1;
            }
            proof {
                assert(outs@.take(k as int) =~= outs@);
                assert(sv.take(g + 1).drop_last() =~= sv.take(g as int));
                assert(sv.take(g + 1).last() == sv[g as int]);
                assert(sv[g as int].1 == outs@);
            }
            g = g + 1;
        }
        assert(sv.take(g as int) =~= sv);
        let mut outputs: Vec<TXOutput> = Vec::new();
        outputs.push(TXOutput::new(amount, to));
        if accumulated > amount as i64 {
            let change: i64 = match accumulated.checked_sub(amount as i64) {
                Some(c) => c,
                None => return Err(ChainError::AmountOverflow),
            };
            if change > i32::MAX as i64 {
                return Err(ChainError::AmountOverflow);
            }
            outputs.push(TXOutput::new(change as i32, from));
        }
        let mut tx = Transaction { id: Vec::new(), vin: inputs, vout: outputs };
        proof {
            assert(tx@.vout =~= payment_outputs(amount, to@, from@, sel.0));
        }
        let id = tx.hash();
        let ghost t0 = tx@;
        tx.id = id;
        let ghost t1 = tx@;
        proof {
            assert(without_id(t1) == without_id(t0));
            assert forall|i: int| 0 <= i < t0.vin.len() implies (#[trigger] t0.vin[i]).signature
                =~= Seq::<u8>::empty() by {
                assert(t0.vin[i] == tx.vin@[i]@);
            }
            assert(unsigned(t0) =~= t0) by {
                assert(unsigned(t0).vin =~= t0.vin);
            }
            assert(without_id(unsigned(t1)) == without_id(t0)) by {
                assert(unsigned(t1).vin =~= t0.vin);
            }
        }
        proof {
            assert(input_refs(t1.vin) == selection_pairs(sel.1));
        }
        match tx.sign(utxo_set.get_blockchain(), wallet.get_pkcs8()) {
            Ok(()) => {},
            Err(e) => {
                proof {
                    if e == ChainError::PreviousTransactionMissing {
                        let txs = utxo_set.blockchain.chain_txs();
                        let i = choose|i: int|
                            0 <= i < t1.vin.len() && prev_output_hash(txs, #[trigger] t1.vin[i])
                                is None;
                        lemma_missing_reference(txs, t1.vin, selection_pairs(sel.1), i);
                        let ps = payment_selection(utxo_set, wallets, from@, amount);
                        assert(sel == ps);
                        assert(0 <= i < selection_pairs(ps.1).len() && !reference_found(
                            txs,
                            selection_pairs(ps.1)[i],
                        ));
                    }
                }
                return Err(e);
            },
        }
        proof {
            assert(unsigned(tx@).vin =~= unsigned(t1).vin);
            assert(input_refs(tx@.vin) =~= input_refs(t1.vin));
            assert(without_id(unsigned(tx@)) == without_id(t0));
            assert(tx@.id == tx_hash(unsigned(tx@)));
            assert(tx@.vout == payment_outputs(amount, to@, from@, sel.0));
            assert(forall|i: int|
                0 <= i < tx@.vin.len() ==> (#[trigger] tx@.vin[i]).pub_key == t0.vin[i].pub_key);
            assert(forall|i: int|
                0 <= i < t0.vin.len() ==> (#[trigger] t0.vin[i]).pub_key == tx.vin@[i].pub_key@);
        }
        Ok(tx)
    }
}

} // verus!
