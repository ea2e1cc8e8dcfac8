use vstd::prelude::*;
use vstd::arithmetic::power2::{lemma2_to64, lemma_pow2_adds, pow2};
use vstd::utf8::encode_utf8;

use crate::block::{transactions_digest, Block, BlockModel};
use crate::crypto::{sha256_digest, sha256_of};
use crate::encoding::{
    pow256, be_bytes, be_value, hex_encode, hex_lower, le_bytes, push_all, push_be, push_le,
};

verus! {

/// Difficulty: a block hash must have this many leading zero bits.
pub const TARGET_BITS: u32 = 8;

/// The nonce search stops before this value.
pub const MAX_NONCE: i64 = 0x7fff_ffff_ffff_ffff;

/// The bytes that are hashed for a block with a given nonce: the predecessor's hash text, the
/// transactions digest, the timestamp (big-endian), the difficulty (little-endian, four bytes)
/// and the nonce (big-endian).
pub open spec fn header_bytes(b: BlockModel, nonce: i64) -> Seq<u8> {
    encode_utf8(b.pre_block_hash) + transactions_digest(b.transactions) + be_bytes(
        (b.timestamp as u64) as nat,
        8,
    ) + le_bytes(TARGET_BITS as nat, 4) + be_bytes((nonce as u64) as nat, 8)
}

/// The hash of a block's header with a given nonce.
pub open spec fn header_hash(b: BlockModel, nonce: i64) -> Seq<u8> {
    sha256_of(header_bytes(b, nonce))
}

/// Whether a hash meets the target: as a big-endian integer it lies below `2^(256 - TARGET_BITS)`.
pub open spec fn meets_target(hash: Seq<u8>) -> bool {
    be_value(hash) < pow2((256 - TARGET_BITS) as nat)
}

/// The outcome of the nonce search for a block: the nonce is the least one whose header hash
/// meets the target, or `MAX_NONCE` where none below it does; the hash text is the lowercase hex
/// of the header hash at that nonce.
pub open spec fn mined(b: BlockModel) -> bool {
    &&& 0 <= b.nonce <= MAX_NONCE
    &&& forall|n: i64| 0 <= n < b.nonce ==> !meets_target(#[trigger] header_hash(b, n))
    &&& b.nonce < MAX_NONCE ==> meets_target(header_hash(b, b.nonce))
    &&& b.nonce < MAX_NONCE ==> header_hash(b, b.nonce).len() == 32
    &&& b.nonce < MAX_NONCE ==> b.hash == hex_lower(header_hash(b, b.nonce))
}

proof fn lemma_pow2_bytes(k: nat)
    ensures
        pow2(8 * k) == pow256(k),
    decreases k,
{
    if k > 0 {
        lemma_pow2_bytes((k - 1) as nat);
        lemma_pow2_adds(8 * (k - 1) as nat, 8);
        lemma2_to64();
        assert(8 * k == 8 * (k - 1) as nat + 8);
    } else {
        lemma2_to64();
    }
}

proof fn lemma_be_value_lower(s: Seq<u8>)
    requires
        s.len() > 0,
    ensures
        be_value(s) >= s[0] * pow256((s.len() - 1) as nat),
    decreases s.len(),
{
    if s.len() > 1 {
        let p = s.drop_last();
        lemma_be_value_lower(p);
        let x = s[0] as int;
        let q = pow256((s.len() - 2) as nat) as int;
        let bp = be_value(p) as int;
        assert(p[0] == s[0]);
        assert(bp * 256 >= x * q * 256) by (nonlinear_arith)
            requires
                bp >= x * q,
        ;
        let big = pow256((s.len() - 1) as nat) as int;
        assert(big == 256 * q);
        assert(x * big == x * q * 256) by (nonlinear_arith)
            requires
                big == 256 * q,
        ;
        assert(be_value(s) == bp * 256 + s.last());
        assert(be_value(s) >= x * big);
        assert(be_value(s) >= s[0] * pow256((s.len() - 1) as nat));
    } else {
        assert(s.drop_last().len() == 0);
        assert(be_value(s.drop_last()) == 0);
        assert((s.len() - 1) as nat == 0);
        assert(be_value(s) == be_value(s.drop_last()) * 256 + s.last());
        assert(s.last() == s[0]);
        assert(pow256(0) == 1);
        assert(be_value(s) >= s[0] * pow256((s.len() - 1) as nat));
    }
}

/// A mined block's hash text is the 64 lowercase hex digits of a 32-byte digest whose first byte
/// is zero.
pub proof fn lemma_mined_hash_shape(b: BlockModel)
    requires
        mined(b),
        b.nonce < MAX_NONCE,
    ensures
        header_hash(b, b.nonce).len() == 32,
        header_hash(b, b.nonce)[0] == 0,
        b.hash.len() == 64,
{
    let h = header_hash(b, b.nonce);
    crate::encoding::lemma_hex_lower_len(h);
    lemma_be_value_lower(h);
    lemma_pow2_bytes(31);
    assert(8 * 31nat == 256 - TARGET_BITS);
    if h[0] > 0 {
        let q = pow256(31) as int;
        assert(h[0] * q >= q) by (nonlinear_arith)
            requires
                h[0] >= 1,
                q >= 0,
        ;
    }
}

/// Relies on num_bigint: BigInt::from_bytes_be with Sign::Plus reads the hash as a big-endian
/// unsigned integer, and `<` compares it with `1 << shift`.
#[verifier::external_body]
fn below_power_of_two(hash: &[u8], shift: usize) -> (r: bool)
    ensures
        r == (be_value(hash@) < pow2(shift as nat)),
{
    let value = num_bigint::BigInt::from_bytes_be(num_bigint::Sign::Plus, hash);
    let target = num_bigint::BigInt::from(1) << shift;
    value < target
}

/// A block paired with the target its hash must meet.
pub struct ProofOfWork {
    pub block: Block,
}

impl ProofOfWork {
    pub fn new_proof_of_work(block: Block) -> (r: ProofOfWork)
        ensures
            r.block@ == block@,
    {
        ProofOfWork { block }
    }

    /// The header bytes for `nonce`.
    fn prepare_data(&self, nonce: i64) -> (r: Vec<u8>)
        ensures
            r@ == header_bytes(self.block@, nonce),
    {
        let mut data: Vec<u8> = Vec::new();
        push_all(&mut data, self.block.pre_block_hash.as_str().as_bytes());
        let transactions_hash = self.block.hash_transactions();
        push_all(&mut data, transactions_hash.as_slice());
        push_be(&mut data, self.block.timestamp as u64, 8);
        push_le(&mut data, TARGET_BITS as u64, 4);
        push_be(&mut data, nonce as u64, 8);
        data
    }

    /// Searches nonces upward from zero for the first whose header hash meets the target; returns
    /// it with the hex text of that hash.
    pub fn run(&self) -> (r: (i64, String))
        ensures
            mined(BlockModel { nonce: r.0, hash: r.1@, ..self.block@ }),
    {
        let ghost b = self.block@;
        let mut nonce: i64 = 0;
        let mut hash: Vec<u8> = Vec::new();
        let mut found = false;
        while !found && nonce < MAX_NONCE
            invariant
                0 <= nonce <= MAX_NONCE,
                b == self.block@,
                forall|n: i64| 0 <= n < nonce ==> !meets_target(#[trigger] header_hash(b, n)),
                found ==> nonce < MAX_NONCE && hash@ == header_hash(b, nonce) && meets_target(
                    hash@,
                ) && hash@.len() == 32,
            decreases MAX_NONCE - nonce, (if found { 0int } else { 1int }),
        {
            let data = self.prepare_data(nonce);
            hash = sha256_digest(data.as_slice());
            if below_power_of_two(hash.as_slice(), (256 - TARGET_BITS) as usize) {
                found = true;
            } else {
                nonce = nonce + 1;
            }
        }
        let text = hex_encode(hash.as_slice());
        proof {
            let m = BlockModel { nonce, hash: text@, ..b };
            assert forall|n: i64| 0 <= n < nonce implies !meets_target(
                #[trigger] header_hash(m, n),
            ) by {
                assert(header_bytes(m, n) == header_bytes(b, n));
                assert(!meets_target(header_hash(b, n)));
            }
            assert(header_bytes(m, nonce) == header_bytes(b, nonce));
        }
        (nonce, text)
    }
}

} // verus!
