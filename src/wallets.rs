use vstd::prelude::*;

use crate::crypto::{base58_decode, base58_encode, base58_payload, base58_text, new_key_pair, sha256_digest, sha256_of};
use crate::encoding::{bytes_eq, copy_bytes, copy_range, push_all, str_eq};
use crate::error::ChainError;
use crate::transaction::{hash_pub_key, pub_key_hash_of, ADDRESS_CHECK_SUM_LEN};

verus! {

/// The version byte that starts every address payload.
pub const VERSION: u8 = 0x00;

/// A key pair: the PKCS#8 document of the private key and the raw public key.
#[derive(Debug)]
pub struct Wallet {
    pub pkcs8: Vec<u8>,
    pub public_key: Vec<u8>,
}

/// The checksum of an address payload head: the first four bytes of its double SHA-256.
pub open spec fn checksum_of(payload: Seq<u8>) -> Seq<u8> {
    sha256_of(sha256_of(payload)).subrange(0, ADDRESS_CHECK_SUM_LEN as int)
}

/// The payload an address encodes for a public-key hash: version byte, hash, checksum of both.
pub open spec fn address_payload(pub_key_hash: Seq<u8>) -> Seq<u8> {
    seq![VERSION] + pub_key_hash + checksum_of(seq![VERSION] + pub_key_hash)
}

/// The address of a public-key hash.
pub open spec fn address_of_hash(pub_key_hash: Seq<u8>) -> Seq<char> {
    base58_text(address_payload(pub_key_hash))
}

/// Whether an address is well formed: it decodes to a payload of at least five bytes that starts
/// with the version byte and ends with the checksum of what precedes the checksum.
pub open spec fn is_valid_address(address: Seq<char>) -> bool {
    let p = base58_payload(address);
    &&& p.len() > ADDRESS_CHECK_SUM_LEN
    &&& p[0] == VERSION
    &&& p.subrange(p.len() - ADDRESS_CHECK_SUM_LEN, p.len() as int) == checksum_of(
        p.subrange(0, p.len() - ADDRESS_CHECK_SUM_LEN),
    )
}

/// The first four bytes of the double SHA-256 of `payload`.
fn checksum(payload: &[u8]) -> (r: Vec<u8>)
    ensures
        r@ == checksum_of(payload@),
        r@.len() == ADDRESS_CHECK_SUM_LEN,
{
    let first_sha = sha256_digest(payload);
    let second_sha = sha256_digest(first_sha.as_slice());
    copy_range(second_sha.as_slice(), 0, ADDRESS_CHECK_SUM_LEN)
}

impl Wallet {
    /// A wallet with a freshly generated key pair.
    pub fn try_new() -> (r: Result<Wallet, ChainError>)
        ensures
            r matches Err(e) ==> e == ChainError::KeyGenerationFailed,
            r matches Ok(w) ==> w.public_key@.len() == 65,
    {
        match new_key_pair() {
            Some((pkcs8, public_key)) => Ok(Wallet { pkcs8, public_key }),
            None => Err(ChainError::KeyGenerationFailed),
        }
    }

    /// The address of this wallet's public key.
    pub fn get_address(&self) -> (r: String)
        ensures
            r@ == address_of_hash(pub_key_hash_of(self.public_key@)),
            is_valid_address(r@),
    {
        let pub_key_hash = hash_pub_key(self.public_key.as_slice());
        convert_address(pub_key_hash.as_slice())
    }

    pub fn get_public_key(&self) -> (r: &[u8])
        ensures
            r@ == self.public_key@,
    {
        self.public_key.as_slice()
    }

    pub fn get_pkcs8(&self) -> (r: &[u8])
        ensures
            r@ == self.pkcs8@,
    {
        self.pkcs8.as_slice()
    }

    /// A copy with the same keys.
    pub fn duplicate(&self) -> (r: Wallet)
        ensures
            r.pkcs8@ == self.pkcs8@,
            r.public_key@ == self.public_key@,
    {
        Wallet {
            pkcs8: copy_bytes(self.pkcs8.as_slice()),
            public_key: copy_bytes(self.public_key.as_slice()),
        }
    }
}

/// Whether `address` is a well-formed address: it decodes, carries the version byte, and its
/// checksum matches.
pub fn validate_address(address: &str) -> (r: bool)
    ensures
        r == is_valid_address(address@),
{
    let decoded = base58_decode(address);
    let address_len = decoded.len();
    if address_len <= ADDRESS_CHECK_SUM_LEN {
        return false;
    }
    let version = decoded[0];
    if version != VERSION {
        return false;
    }
    let target = copy_range(decoded.as_slice(), 0, address_len - ADDRESS_CHECK_SUM_LEN);
    let actual_checksum = copy_range(
        decoded.as_slice(),
        address_len - ADDRESS_CHECK_SUM_LEN,
        address_len,
    );
    let expected_checksum = checksum(target.as_slice());
    bytes_eq(expected_checksum.as_slice(), actual_checksum.as_slice())
}

/// The address of a public-key hash: Base58 of the version byte, the hash and the checksum of
/// both.
pub fn convert_address(pub_key_hash: &[u8]) -> (r: String)
    ensures
        r@ == address_of_hash(pub_key_hash@),
        is_valid_address(r@),
{
    let mut address: Vec<u8> = Vec::new();
    address.push(VERSION);
    push_all(&mut address, pub_key_hash);
    let ghost head = address@;
    let checksum = checksum(address.as_slice());
    push_all(&mut address, checksum.as_slice());
    proof {
        assert(head =~= seq![VERSION] + pub_key_hash@);
        assert(address@ =~= address_payload(pub_key_hash@));
        crate::crypto::lemma_base58_round_trip(address@);
        let p = address@;
        assert(p.subrange(0, p.len() - ADDRESS_CHECK_SUM_LEN) =~= head);
        assert(p.subrange(p.len() - ADDRESS_CHECK_SUM_LEN, p.len() as int) =~= checksum@);
    }
    base58_encode(address.as_slice())
}

/// A set of wallets keyed by address.
pub struct Wallets {
    pub wallets: Vec<(String, Wallet)>,
}

impl Wallets {
    /// No two entries share an address.
    pub open spec fn wf(&self) -> bool {
        forall|i: int, j: int|
            0 <= i < self.wallets@.len() && 0 <= j < self.wallets@.len() && (
            #[trigger] self.wallets@[i]).0@ == (#[trigger] self.wallets@[j]).0@ ==> i == j
    }

    /// Whether a wallet is held for `address`.
    pub open spec fn holds(&self, address: Seq<char>) -> bool {
        exists|i: int| 0 <= i < self.wallets@.len() && (#[trigger] self.wallets@[i]).0@ == address
    }

    /// The wallet held for `address`.
    pub open spec fn wallet_of(&self, address: Seq<char>) -> Wallet {
        self.wallets@[choose|i: int|
            0 <= i < self.wallets@.len() && (#[trigger] self.wallets@[i]).0@ == address].1
    }

    /// An empty set.
    pub fn new() -> (r: Wallets)
        ensures
            r.wf(),
            r.wallets@.len() == 0,
    {
        Wallets { wallets: Vec::new() }
    }

    /// Adds `wallet` under `address`, replacing a wallet held there before.
    pub fn insert(&mut self, address: String, wallet: Wallet)
        requires
            old(self).wf(),
        ensures
            final(self).wf(),
            final(self).holds(address@),
            forall|a: Seq<char>| a != address@ ==> (final(self).holds(a) <==> old(self).holds(a)),
            forall|i: int|
                0 <= i < final(self).wallets@.len() && (#[trigger] final(self).wallets@[i]).0@
                    == address@ ==> final(self).wallets@[i].1 == wallet,
    {
        let mut i: usize = 0;
        while i < self.wallets.len()
            invariant
                i <= self.wallets@.len(),
                self.wf(),
                *self == *old(self),
                forall|k: int| 0 <= k < i ==> (#[trigger] self.wallets@[k]).0@ != address@,
            decreases self.wallets@.len() - i,
        {
            if str_eq(self.wallets[i].0.as_str(), address.as_str()) {
                let ghost prev = self.wallets@;
                self.wallets.set(i, (address, wallet));
                proof {
                    assert(forall|k: int|
                        0 <= k < prev.len() ==> (#[trigger] self.wallets@[k]).0@ == prev[k].0@);
                    assert(self.wallets@[i as int].0@ == address@);
                    assert forall|a: Seq<char>| a != address@ implies (self.holds(a)
                        <==> old(self).holds(a)) by {
                        if self.holds(a) {
                            let k = choose|k: int|
                                0 <= k < self.wallets@.len() && (#[trigger] self.wallets@[k]).0@
                                    == a;
                            assert(old(self).wallets@[k].0@ == a);
                        }
                        if old(self).holds(a) {
                            let k = choose|k: int|
                                0 <= k < prev.len() && (#[trigger] old(self).wallets@[k]).0@ == a;
                            assert(self.wallets@[k].0@ == a);
                        }
                    }
                }
                return;
            }
            i = i + 1;
        }
        let ghost prev = self.wallets@;
        self.wallets.push((address, wallet));
        proof {
            assert(self.wallets@[prev.len() as int].0@ == address@);
            assert(forall|k: int| 0 <= k < prev.len() ==> (#[trigger] self.wallets@[k]) == prev[k]);
            assert forall|a: Seq<char>| a != address@ implies (self.holds(a) <==> old(self).holds(
                a,
            )) by {
                if self.holds(a) {
                    let k = choose|k: int|
                        0 <= k < self.wallets@.len() && (#[trigger] self.wallets@[k]).0@ == a;
                    assert(old(self).wallets@[k].0@ == a);
                }
                if old(self).holds(a) {
                    let k = choose|k: int|
                        0 <= k < prev.len() && (#[trigger] old(self).wallets@[k]).0@ == a;
                    assert(self.wallets@[k].0@ == a);
                }
            }
        }
    }

    /// Generates a wallet, adds it, and returns its address.
    pub fn create_wallet(&mut self) -> (r: Result<String, ChainError>)
        requires
            old(self).wf(),
        ensures
            final(self).wf(),
            r matches Ok(a) ==> final(self).holds(a@),
            r matches Ok(a) ==> forall|b: Seq<char>| b != a@ ==> (final(self).holds(b) <==> old(self).holds(b)),
            r matches Ok(a) ==> forall|i: int|
                0 <= i < final(self).wallets@.len() && (#[trigger] final(self).wallets@[i]).0@
                    == a@ ==> a@ == address_of_hash(pub_key_hash_of(final(self).wallets@[i].1.public_key@)),
            r is Err ==> *final(self) == *old(self),
            r matches Ok(a) ==> is_valid_address(a@),
            r matches Ok(a) ==> a@ == address_of_hash(
                pub_key_hash_of(final(self).wallet_of(a@).public_key@),
            ),
    {
        let wallet = match Wallet::try_new() {
            Ok(w) => w,
            Err(e) => return Err(e),
        };
        let address = wallet.get_address();
        let ghost pk = wallet.public_key@;
        self.insert(address.clone(), wallet);
        proof {
            assert(self.holds(address@));
            let j = choose|j: int|
                0 <= j < self.wallets@.len() && (#[trigger] self.wallets@[j]).0@ == address@;
            assert(self.wallets@[j].1.public_key@ == pk);
        }
        Ok(address)
    }

    /// The wallet held for `address`, if any.
    pub fn get_wallet(&self, address: &str) -> (r: Option<&Wallet>)
        requires
            self.wf(),
        ensures
            r is Some <==> self.holds(address@),
            r matches Some(w) ==> *w == self.wallet_of(address@),
    {
        let mut i: usize = 0;
        while i < self.wallets.len()
            invariant
                i <= self.wallets@.len(),
                self.wf(),
                forall|k: int| 0 <= k < i ==> (#[trigger] self.wallets@[k]).0@ != address@,
            decreases self.wallets@.len() - i,
        {
            if str_eq(self.wallets[i].0.as_str(), address) {
                proof {
                    assert(self.holds(address@));
                    let j = choose|j: int|
                        0 <= j < self.wallets@.len() && (#[trigger] self.wallets@[j]).0@ == address@;
                    assert(self.wallets@[j].0@ == self.wallets@[i as int].0@);
                }
                return Some(&self.wallets[i].1);
            }
            i = i + 1;
        }
        None
    }

    /// The addresses held, in insertion order.
    pub fn get_addresses(&self) -> (r: Vec<String>)
        ensures
            r@.len() == self.wallets@.len(),
            forall|i: int| 0 <= i < r@.len() ==> (#[trigger] r@[i])@ == self.wallets@[i].0@,
    {
        let mut out: Vec<String> = Vec::new();
        let mut i: usize = 0;
        while i < self.wallets.len()
            invariant
                i <= self.wallets@.len(),
                out@.len() == i,
                forall|k: int| 0 <= k < i ==> (#[trigger] out@[k])@ == self.wallets@[k].0@,
            decreases self.wallets@.len() - i,
        {
            out.push(self.wallets[i].0.clone());
            i = i + 1;
        }
        out
    }
}

} // verus!
