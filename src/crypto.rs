use vstd::prelude::*;
use crate::encoding::{be_value, min_be};
use vstd::arithmetic::div_mod::{
    lemma_fundamental_div_mod_converse_div, lemma_fundamental_div_mod_converse_mod,
};
use ring::signature::KeyPair;
use ripemd::Digest;

verus! {

/// The SHA-256 digest of a byte string.
pub uninterp spec fn sha256_of(b: Seq<u8>) -> Seq<u8>;

/// The RIPEMD-160 digest of a byte string.
pub uninterp spec fn ripemd160_of(b: Seq<u8>) -> Seq<u8>;

/// Whether an ECDSA P-256 / SHA-256 signature (fixed-width form) over a message checks out
/// under a raw public key.
pub uninterp spec fn ecdsa_accepts(public_key: Seq<u8>, signature: Seq<u8>, message: Seq<u8>) -> bool;

/// Relies on ring::digest::digest with SHA256: the digest of the data, 32 bytes long.
#[verifier::external_body]
pub fn sha256_digest(data: &[u8]) -> (r: Vec<u8>)
    ensures
        r@ == sha256_of(data@),
        r@.len() == 32,
{
    ring::digest::digest(&ring::digest::SHA256, data).as_ref().to_vec()
}

/// Relies on ripemd::Ripemd160::digest: the digest of the data, 20 bytes long.
#[verifier::external_body]
pub fn ripemd160_digest(data: &[u8]) -> (r: Vec<u8>)
    ensures
        r@ == ripemd160_of(data@),
        r@.len() == 20,
{
    ripemd::Ripemd160::digest(data).to_vec()
}

/// Relies on ring's EcdsaKeyPair::generate_pkcs8 and from_pkcs8 with P-256 / SHA-256: a fresh
/// random key pair as its PKCS#8 document and its raw public key, or `None` where the system's
/// random source fails. The public key is an uncompressed P-256 point: 65 bytes.
#[verifier::external_body]
pub fn new_key_pair() -> (r: Option<(Vec<u8>, Vec<u8>)>)
    ensures
        r matches Some((pkcs8, public_key)) ==> public_key@.len() == 65,
{
    let alg = &ring::signature::ECDSA_P256_SHA256_FIXED_SIGNING;
    let rng = ring::rand::SystemRandom::new();
    let pkcs8 = ring::signature::EcdsaKeyPair::generate_pkcs8(alg, &rng).ok()?;
    let pair = ring::signature::EcdsaKeyPair::from_pkcs8(alg, pkcs8.as_ref(), &rng).ok()?;
    Some((pkcs8.as_ref().to_vec(), pair.public_key().as_ref().to_vec()))
}

/// Relies on ring's EcdsaKeyPair::sign with P-256 / SHA-256: a randomized signature of the
/// message, or `None` where the key is rejected or the random source fails.
#[verifier::external_body]
pub fn ecdsa_p256_sha256_sign_digest(pkcs8: &[u8], message: &[u8]) -> (r: Option<Vec<u8>>) {
    let alg = &ring::signature::ECDSA_P256_SHA256_FIXED_SIGNING;
    let rng = ring::rand::SystemRandom::new();
    let pair = ring::signature::EcdsaKeyPair::from_pkcs8(alg, pkcs8, &rng).ok()?;
    Some(pair.sign(&rng, message).ok()?.as_ref().to_vec())
}

/// Relies on ring's UnparsedPublicKey::verify with ECDSA_P256_SHA256_FIXED: whether the
/// signature of the message checks out under the public key.
#[verifier::external_body]
pub fn ecdsa_p256_sha256_sign_verify(public_key: &[u8], signature: &[u8], message: &[u8]) -> (r:
    bool)
    ensures
        r == ecdsa_accepts(public_key@, signature@, message@),
{
    let alg = &ring::signature::ECDSA_P256_SHA256_FIXED;
    ring::signature::UnparsedPublicKey::new(alg, public_key).verify(message, signature).is_ok()
}

/// Relies on uuid::Uuid::new_v4: sixteen random bytes, used as a unique tag.
#[verifier::external_body]
pub fn random_tag() -> (r: Vec<u8>)
    ensures
        r@.len() == 16,
{
    uuid::Uuid::new_v4().as_bytes().to_vec()
}

/// Relies on std::time::SystemTime::now: the current time in whole seconds since the UNIX
/// epoch (zero where the clock stands before the epoch).
#[verifier::external_body]
pub fn current_timestamp() -> (r: i64) {
    match std::time::SystemTime::now().duration_since(std::time::UNIX_EPOCH) {
        Ok(d) => d.as_secs() as i64,
        Err(_) => 0,
    }
}

/// The Base58 digit (Bitcoin alphabet `1-9 A-H J-N P-Z a-k m-z`) for a value below 58.
pub open spec fn b58_char(d: nat) -> char {
    if d < 9 {
        ((49 + d) as u8) as char
    } else if d < 17 {
        ((56 + d) as u8) as char
    } else if d < 22 {
        ((57 + d) as u8) as char
    } else if d < 33 {
        ((58 + d) as u8) as char
    } else if d < 44 {
        ((64 + d) as u8) as char
    } else {
        ((65 + d) as u8) as char
    }
}

/// The value of a Base58 digit, or `None` for a character outside the alphabet.
pub open spec fn b58_digit(c: char) -> Option<nat> {
    let u = c as u32;
    if 49 <= u <= 57 {
        Some((u - 49) as nat)
    } else if 65 <= u <= 72 {
        Some((u - 56) as nat)
    } else if 74 <= u <= 78 {
        Some((u - 57) as nat)
    } else if 80 <= u <= 90 {
        Some((u - 58) as nat)
    } else if 97 <= u <= 107 {
        Some((u - 64) as nat)
    } else if 109 <= u <= 122 {
        Some((u - 65) as nat)
    } else {
        None
    }
}

/// The shortest Base58 digits of `n`: empty for zero.
pub open spec fn b58_digits(n: nat) -> Seq<char>
    decreases n,
{
    if n == 0 {
        Seq::empty()
    } else {
        b58_digits(n / 58).push(b58_char(n % 58))
    }
}

/// The number of zero bytes that start `b`.
pub open spec fn leading_zero_bytes(b: Seq<u8>) -> nat
    decreases b.len(),
{
    if b.len() > 0 && b[0] == 0 {
        1 + leading_zero_bytes(b.drop_first())
    } else {
        0
    }
}

/// The number of '1' digits that start `s`.
pub open spec fn leading_ones(s: Seq<char>) -> nat
    decreases s.len(),
{
    if s.len() > 0 && s[0] == '1' {
        1 + leading_ones(s.drop_first())
    } else {
        0
    }
}

/// Whether every character of `s` is a Base58 digit.
pub open spec fn b58_valid(s: Seq<char>) -> bool {
    forall|i: int| 0 <= i < s.len() ==> (#[trigger] b58_digit(s[i])) is Some
}

/// The number that Base58 digits stand for, most significant first.
pub open spec fn b58_value(s: Seq<char>) -> nat
    decreases s.len(),
{
    if s.len() == 0 {
        0
    } else {
        b58_value(s.drop_last()) * 58 + match b58_digit(s.last()) {
            Some(d) => d,
            None => 0,
        }
    }
}

/// The Base58 text of a byte string: one '1' per leading zero byte, then the shortest digits of
/// the bytes read as a big-endian number.
pub open spec fn base58_text(b: Seq<u8>) -> Seq<char> {
    Seq::new(leading_zero_bytes(b), |i: int| '1') + b58_digits(be_value(b))
}

/// The bytes that a Base58 text stands for: one zero byte per leading '1', then the shortest
/// big-endian bytes of the number the digits stand for; empty where a character is not a digit.
pub open spec fn base58_payload(s: Seq<char>) -> Seq<u8> {
    if b58_valid(s) {
        Seq::new(leading_ones(s), |i: int| 0u8) + min_be(b58_value(s))
    } else {
        Seq::empty()
    }
}

proof fn lemma_digit_char(d: nat)
    requires
        d < 58,
    ensures
        b58_digit(b58_char(d)) == Some(d),
        b58_char(d) == '1' <==> d == 0,
{
}

proof fn lemma_digits_valid_value(n: nat)
    ensures
        b58_valid(b58_digits(n)),
        b58_value(b58_digits(n)) == n,
        n > 0 ==> b58_digits(n).len() > 0 && b58_digits(n)[0] != '1',
    decreases n,
{
    if n > 0 {
        lemma_digits_valid_value(n / 58);
        lemma_digit_char(n % 58);
        let d = b58_digits(n);
        assert(d.drop_last() =~= b58_digits(n / 58));
        assert forall|i: int| 0 <= i < d.len() implies (#[trigger] b58_digit(d[i])) is Some by {
            if i < d.len() - 1 {
                assert(d[i] == b58_digits(n / 58)[i]);
            }
        }
        if n / 58 == 0 {
            assert(n % 58 == n);
        }
    }
}

proof fn lemma_ones_prefix(z: nat, d: Seq<char>)
    requires
        d.len() == 0 || d[0] != '1',
    ensures
        leading_ones(Seq::new(z, |i: int| '1') + d) == z,
    decreases z,
{
    let t = Seq::new(z, |i: int| '1') + d;
    if z > 0 {
        lemma_ones_prefix((z - 1) as nat, d);
        assert(t.drop_first() =~= Seq::new((z - 1) as nat, |i: int| '1') + d);
    } else {
        assert(t =~= d);
    }
}

proof fn lemma_ones_value(z: nat, d: Seq<char>)
    ensures
        b58_value(Seq::new(z, |i: int| '1') + d) == b58_value(d),
    decreases d.len(), z,
{
    let t = Seq::new(z, |i: int| '1') + d;
    if d.len() > 0 {
        lemma_ones_value(z, d.drop_last());
        assert(t.drop_last() =~= Seq::new(z, |i: int| '1') + d.drop_last());
    } else if z > 0 {
        lemma_ones_value((z - 1) as nat, d);
        assert(t.drop_last() =~= Seq::new((z - 1) as nat, |i: int| '1') + d);
        assert(t =~= Seq::new(z, |i: int| '1'));
    } else {
        assert(t =~= d);
    }
}

proof fn lemma_ones_valid(z: nat, d: Seq<char>)
    requires
        b58_valid(d),
    ensures
        b58_valid(Seq::new(z, |i: int| '1') + d),
{
    let t = Seq::new(z, |i: int| '1') + d;
    assert forall|i: int| 0 <= i < t.len() implies (#[trigger] b58_digit(t[i])) is Some by {
        if i < z {
            assert(t[i] == '1');
        } else {
            assert(t[i] == d[i - z]);
        }
    }
}

proof fn lemma_leading_zeros(x: Seq<u8>)
    ensures
        leading_zero_bytes(x) <= x.len(),
        forall|i: int| 0 <= i < leading_zero_bytes(x) ==> x[i] == 0,
        leading_zero_bytes(x) < x.len() ==> x[leading_zero_bytes(x) as int] != 0,
    decreases x.len(),
{
    if x.len() > 0 && x[0] == 0 {
        lemma_leading_zeros(x.drop_first());
        assert forall|i: int| 0 <= i < leading_zero_bytes(x) implies x[i] == 0 by {
            if i > 0 {
                assert(x[i] == x.drop_first()[i - 1]);
            }
        }
    }
}

proof fn lemma_zeros_value(x: Seq<u8>, z: nat)
    requires
        z <= x.len(),
        forall|i: int| 0 <= i < z ==> x[i] == 0,
    ensures
        be_value(x) == be_value(x.subrange(z as int, x.len() as int)),
    decreases x.len(),
{
    let r = x.subrange(z as int, x.len() as int);
    if x.len() > z {
        lemma_zeros_value(x.drop_last(), z);
        assert(r.drop_last() =~= x.drop_last().subrange(z as int, x.drop_last().len() as int));
    } else if x.len() > 0 {
        lemma_zeros_value(x.drop_last(), (z - 1) as nat);
        assert(x.drop_last().subrange(z - 1, x.drop_last().len() as int).len() == 0);
        assert(r.len() == 0);
    }
}

proof fn lemma_value_zero(r: Seq<u8>)
    requires
        be_value(r) == 0,
    ensures
        forall|i: int| 0 <= i < r.len() ==> r[i] == 0,
    decreases r.len(),
{
    if r.len() > 0 {
        lemma_value_zero(r.drop_last());
        assert forall|i: int| 0 <= i < r.len() implies r[i] == 0 by {
            if i < r.len() - 1 {
                assert(r[i] == r.drop_last()[i]);
            }
        }
    }
}

proof fn lemma_min_be_value(r: Seq<u8>)
    requires
        r.len() == 0 || r[0] != 0,
    ensures
        min_be(be_value(r)) == r,
    decreases r.len(),
{
    if r.len() > 0 {
        let p = r.drop_last();
        let n = be_value(r);
        lemma_min_be_value(p);
        if n == 0 {
            lemma_value_zero(r);
        }
        lemma_fundamental_div_mod_converse_div(n as int, 256, be_value(p) as int, r.last() as int);
        lemma_fundamental_div_mod_converse_mod(n as int, 256, be_value(p) as int, r.last() as int);
        assert(r =~= p.push(r.last()));
    } else {
        assert(min_be(0) =~= r);
    }
}

/// Decoding the Base58 text of any byte string gives the byte string back.
pub proof fn lemma_base58_round_trip(x: Seq<u8>)
    ensures
        base58_payload(base58_text(x)) == x,
{
    let z = leading_zero_bytes(x);
    let n = be_value(x);
    let d = b58_digits(n);
    let t = base58_text(x);
    lemma_leading_zeros(x);
    lemma_digits_valid_value(n);
    lemma_ones_valid(z, d);
    lemma_ones_value(z, d);
    lemma_ones_prefix(z, d);
    let r = x.subrange(z as int, x.len() as int);
    lemma_zeros_value(x, z);
    lemma_min_be_value(r);
    assert(base58_payload(t) == Seq::new(z, |i: int| 0u8) + r);
    assert(x =~= Seq::new(z, |i: int| 0u8) + r);
}

/// Relies on bs58::encode(..).into_string (Bitcoin alphabet): the Base58 text of the bytes.
#[verifier::external_body]
pub fn base58_encode(data: &[u8]) -> (r: String)
    ensures
        r@ == base58_text(data@),
{
    bs58::encode(data).into_string()
}

/// Relies on bs58::decode(..).into_vec (Bitcoin alphabet): the decoded bytes; on its error (a
/// character outside the alphabet), empty.
#[verifier::external_body]
pub fn base58_decode(data: &str) -> (r: Vec<u8>)
    ensures
        r@ == base58_payload(data@),
{
    bs58::decode(data).into_vec().unwrap_or_default()
}

} // verus!
