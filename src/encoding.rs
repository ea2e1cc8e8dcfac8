use vstd::prelude::*;
use vstd::arithmetic::div_mod::{
    lemma_fundamental_div_mod_converse_div, lemma_fundamental_div_mod_converse_mod,
};

verus! {

/// The lowercase hexadecimal digit for a value below 16.
pub open spec fn hex_digit(v: u8) -> char {
    if v < 10 {
        ((v + 48) as u8) as char
    } else {
        ((v + 87) as u8) as char
    }
}

/// Lowercase hexadecimal text of a byte string: two digits per byte, high nibble first.
pub open spec fn hex_lower(b: Seq<u8>) -> Seq<char>
    decreases b.len(),
{
    if b.len() == 0 {
        Seq::empty()
    } else {
        seq![hex_digit(b[0] / 16), hex_digit(b[0] % 16)] + hex_lower(b.drop_first())
    }
}

pub proof fn lemma_hex_lower_len(b: Seq<u8>)
    ensures
        hex_lower(b).len() == 2 * b.len(),
    decreases b.len(),
{
    if b.len() > 0 {
        lemma_hex_lower_len(b.drop_first());
    }
}

/// Distinct byte strings have distinct hex texts.
pub proof fn lemma_hex_lower_inj(a: Seq<u8>, b: Seq<u8>)
    requires
        hex_lower(a) == hex_lower(b),
    ensures
        a == b,
    decreases a.len(),
{
    lemma_hex_lower_len(a);
    lemma_hex_lower_len(b);
    if a.len() > 0 {
        let ha = hex_lower(a);
        let x = a[0];
        let y = b[0];
        assert(ha[0] == hex_digit(x / 16) && ha[1] == hex_digit(x % 16));
        assert(hex_lower(b)[0] == hex_digit(y / 16) && hex_lower(b)[1] == hex_digit(y % 16));
        assert(x / 16 == y / 16);
        assert(x % 16 == y % 16);
        assert(x == y) by {
            assert(x == 16 * (x / 16) + x % 16);
            assert(y == 16 * (y / 16) + y % 16);
        }
        assert(ha.subrange(2, ha.len() as int) =~= hex_lower(a.drop_first()));
        assert(hex_lower(b).subrange(2, ha.len() as int) =~= hex_lower(b.drop_first()));
        lemma_hex_lower_inj(a.drop_first(), b.drop_first());
        assert(a =~= seq![x] + a.drop_first());
        assert(b =~= seq![y] + b.drop_first());
    } else {
        assert(a =~= b);
    }
}

/// Relies on data_encoding::HEXLOWER.encode: two lowercase digits for each byte.
#[verifier::external_body]
pub fn hex_encode(b: &[u8]) -> (r: String)
    ensures
        r@ == hex_lower(b@),
{
    data_encoding::HEXLOWER.encode(b)
}

/// `256` raised to `k`.
pub open spec fn pow256(k: nat) -> nat
    decreases k,
{
    if k == 0 {
        1
    } else {
        256 * pow256((k - 1) as nat)
    }
}

/// A byte string read as a big-endian unsigned integer.
pub open spec fn be_value(s: Seq<u8>) -> nat
    decreases s.len(),
{
    if s.len() == 0 {
        0
    } else {
        be_value(s.drop_last()) * 256 + s.last() as nat
    }
}

/// The shortest big-endian bytes of `n`: empty for zero, else no leading zero byte.
pub open spec fn min_be(n: nat) -> Seq<u8>
    decreases n,
{
    if n == 0 {
        Seq::empty()
    } else {
        min_be(n / 256).push((n % 256) as u8)
    }
}

/// The `k` lowest bytes of `n`, least significant first.
pub open spec fn le_bytes(n: nat, k: nat) -> Seq<u8>
    decreases k,
{
    if k == 0 {
        Seq::empty()
    } else {
        seq![(n % 256) as u8] + le_bytes(n / 256, (k - 1) as nat)
    }
}

/// The `k` lowest bytes of `n`, most significant first.
pub open spec fn be_bytes(n: nat, k: nat) -> Seq<u8>
    decreases k,
{
    if k == 0 {
        Seq::empty()
    } else {
        be_bytes(n / 256, (k - 1) as nat) + seq![(n % 256) as u8]
    }
}

/// An unsigned 64-bit integer as eight little-endian bytes.
pub open spec fn u64_bytes(n: u64) -> Seq<u8> {
    le_bytes(n as nat, 8)
}

/// A signed 32-bit integer as four little-endian two's-complement bytes.
pub open spec fn i32_bytes(v: i32) -> Seq<u8> {
    le_bytes((v as u32) as nat, 4)
}

/// A signed 64-bit integer as eight little-endian two's-complement bytes.
pub open spec fn i64_bytes(v: i64) -> Seq<u8> {
    le_bytes((v as u64) as nat, 8)
}

/// A byte string framed by its length: eight little-endian length bytes, then the bytes.
pub open spec fn bytes_field(b: Seq<u8>) -> Seq<u8> {
    u64_bytes(b.len() as u64) + b
}

pub proof fn lemma_le_bytes_len(n: nat, k: nat)
    ensures
        le_bytes(n, k).len() == k,
    decreases k,
{
    if k > 0 {
        lemma_le_bytes_len(n / 256, (k - 1) as nat);
    }
}

pub proof fn lemma_be_bytes_len(n: nat, k: nat)
    ensures
        be_bytes(n, k).len() == k,
    decreases k,
{
    if k > 0 {
        lemma_be_bytes_len(n / 256, (k - 1) as nat);
    }
}

/// Appends the `k` lowest bytes of `n`, least significant first.
pub fn push_le(out: &mut Vec<u8>, n: u64, k: usize)
    ensures
        final(out)@ == old(out)@ + le_bytes(n as nat, k as nat),
{
    let mut x: u64 = n;
    let mut i: usize = 0;
    while i < k
        invariant
            i <= k,
            out@ + le_bytes(x as nat, (k - i) as nat) == old(out)@ + le_bytes(n as nat, k as nat),
        decreases k - i,
    {
        let ghost before = out@;
        out.push((x % 256) as u8);
        proof {
            assert(le_bytes(x as nat, (k - i) as nat) == seq![(x % 256) as u8] + le_bytes(
                (x / 256) as nat,
                (k - i - 1) as nat,
            ));
            assert(out@ + le_bytes((x / 256) as nat, (k - i - 1) as nat) =~= before + le_bytes(
                x as nat,
                (k - i) as nat,
            ));
        }
        x = x / 256;
        i = i + 1;
    }
    assert(out@ =~= out@ + le_bytes(x as nat, 0));
}

/// Appends the `k` lowest bytes of `n`, most significant first.
pub fn push_be(out: &mut Vec<u8>, n: u64, k: usize)
    ensures
        final(out)@ == old(out)@ + be_bytes(n as nat, k as nat),
{
    let mut tail: Vec<u8> = Vec::new();
    let mut x: u64 = n;
    let mut i: usize = 0;
    while i < k
        invariant
            i <= k,
            be_bytes(x as nat, (k - i) as nat) + tail@ == be_bytes(n as nat, k as nat),
        decreases k - i,
    {
        let ghost before = tail@;
        tail.insert(0, (x % 256) as u8);
        proof {
            assert(be_bytes(x as nat, (k - i) as nat) == be_bytes(
                (x / 256) as nat,
                (k - i - 1) as nat,
            ) + seq![(x % 256) as u8]);
            assert(be_bytes((x / 256) as nat, (k - i - 1) as nat) + tail@ =~= be_bytes(
                x as nat,
                (k - i) as nat,
            ) + before);
        }
        x = x / 256;
        i = i + 1;
    }
    assert(tail@ =~= be_bytes(x as nat, 0) + tail@);
    let mut j: usize = 0;
    let ghost start = out@;
    while j < tail.len()
        invariant
            j <= tail@.len(),
            out@ == start + tail@.subrange(0, j as int),
        decreases tail@.len() - j,
    {
        out.push(tail[j]);
        j = j + 1;
        assert(out@ =~= start + tail@.subrange(0, j as int));
    }
    assert(tail@.subrange(0, tail@.len() as int) =~= tail@);
}

/// Appends all of `b`.
pub fn push_all(out: &mut Vec<u8>, b: &[u8])
    ensures
        final(out)@ == old(out)@ + b@,
{
    let mut j: usize = 0;
    while j < b.len()
        invariant
            j <= b@.len(),
            out@ == old(out)@ + b@.subrange(0, j as int),
        decreases b@.len() - j,
    {
        out.push(b[j]);
        j = j + 1;
        assert(out@ =~= old(out)@ + b@.subrange(0, j as int));
    }
    assert(b@.subrange(0, b@.len() as int) =~= b@);
}

/// Appends `b` framed by its length.
pub fn push_field(out: &mut Vec<u8>, b: &[u8])
    ensures
        final(out)@ == old(out)@ + bytes_field(b@),
{
    push_le(out, b.len() as u64, 8);
    push_all(out, b);
    assert(out@ =~= old(out)@ + bytes_field(b@));
}

proof fn lemma_pow256_bound(k: nat)
    requires
        k <= 7,
    ensures
        pow256(k) <= 0x100000000000000,
{
    reveal_with_fuel(pow256, 8);
    assert(k == 0 || k == 1 || k == 2 || k == 3 || k == 4 || k == 5 || k == 6 || k == 7);
}

/// Reads the `k` bytes at `pos` as a little-endian unsigned integer, or `None` where the
/// data ends before them.
pub fn read_le(data: &[u8], pos: usize, k: usize) -> (r: Option<u64>)
    requires
        k <= 8,
    ensures
        r is None <==> pos + k > data@.len(),
        r matches Some(v) ==> v < pow256(k as nat),
        r matches Some(v) ==> le_bytes(v as nat, k as nat) == data@.subrange(
            pos as int,
            pos + k,
        ),
{
    let len: usize = data.len();
    if pos > len || k > len - pos {
        return None;
    }
    let mut v: u64 = 0;
    let mut j: usize = k;
    while j > 0
        invariant
            j <= k <= 8,
            pos + k <= data@.len() == len,
            v < pow256((k - j) as nat),
            le_bytes(v as nat, (k - j) as nat) == data@.subrange(pos + j, pos + k),
        decreases j,
    {
        let b: u8 = data[pos + j - 1];
        proof {
            lemma_pow256_bound((k - j) as nat);
        }
        let nv: u64 = v * 256 + b as u64;
        proof {
            lemma_fundamental_div_mod_converse_div(nv as int, 256, v as int, b as int);
            lemma_fundamental_div_mod_converse_mod(nv as int, 256, v as int, b as int);
            let n = (k - j + 1) as nat;
            assert(le_bytes(nv as nat, n) == seq![(nv as nat % 256) as u8] + le_bytes(
                nv as nat / 256,
                (n - 1) as nat,
            ));
            assert(le_bytes(nv as nat, n) =~= data@.subrange(pos + j - 1, pos + k));
        }
        v = nv;
        j = j - 1;
    }
    Some(v)
}

/// Whether `piece` stands in `data` at `pos`.
pub open spec fn occurs_at(data: Seq<u8>, pos: int, piece: Seq<u8>) -> bool {
    0 <= pos && pos + piece.len() <= data.len() && data.subrange(pos, pos + piece.len()) == piece
}

/// A concatenation stands somewhere exactly where its parts stand one after the other.
pub proof fn lemma_occurs_split(data: Seq<u8>, pos: int, a: Seq<u8>, b: Seq<u8>)
    requires
        occurs_at(data, pos, a + b),
    ensures
        occurs_at(data, pos, a),
        occurs_at(data, pos + a.len(), b),
{
    assert(data.subrange(pos, pos + a.len()) =~= (a + b).subrange(0, a.len() as int));
    assert((a + b).subrange(0, a.len() as int) =~= a);
    assert(data.subrange(pos + a.len(), pos + a.len() + b.len()) =~= (a + b).subrange(
        a.len() as int,
        (a + b).len() as int,
    ));
    assert((a + b).subrange(a.len() as int, (a + b).len() as int) =~= b);
}

pub proof fn lemma_pow256_8()
    ensures
        pow256(8) == 0x1_0000_0000_0000_0000,
{
    reveal_with_fuel(pow256, 9);
}

/// Distinct values below `256^k` have distinct `k`-byte encodings.
pub proof fn lemma_le_bytes_inj(a: nat, b: nat, k: nat)
    requires
        a < pow256(k),
        b < pow256(k),
        le_bytes(a, k) == le_bytes(b, k),
    ensures
        a == b,
    decreases k,
{
    if k > 0 {
        let la = le_bytes(a, k);
        let lb = le_bytes(b, k);
        assert(la[0] == lb[0]);
        assert(la.drop_first() =~= le_bytes(a / 256, (k - 1) as nat));
        assert(lb.drop_first() =~= le_bytes(b / 256, (k - 1) as nat));
        let p = pow256((k - 1) as nat);
        assert(a / 256 < p) by (nonlinear_arith)
            requires
                a < 256 * p,
        ;
        assert(b / 256 < p) by (nonlinear_arith)
            requires
                b < 256 * p,
        ;
        lemma_le_bytes_inj(a / 256, b / 256, (k - 1) as nat);
        assert(a % 256 == b % 256) by {
            assert((a % 256) as u8 == (b % 256) as u8);
        }
        assert(a == 256 * (a / 256) + a % 256) by (nonlinear_arith);
        assert(b == 256 * (b / 256) + b % 256) by (nonlinear_arith);
    } else {
        reveal_with_fuel(pow256, 1);
    }
}

/// A count read at `p` is the count whose encoding stands there.
pub proof fn lemma_count_at(data: Seq<u8>, p: int, n: u64, len: nat)
    requires
        p + 8 <= data.len(),
        0 <= p,
        le_bytes(n as nat, 8) == data.subrange(p, p + 8),
        occurs_at(data, p, u64_bytes(len as u64)),
        len < pow256(8),
    ensures
        n == len,
{
    lemma_pow256_8();
    lemma_le_bytes_len(len as u64 as nat, 8);
    assert(len as u64 as nat == len);
    lemma_le_bytes_inj(n as nat, len, 8);
}

/// Reads a length-framed byte string at `pos`: the bytes and the position after them.
pub fn read_field(data: &[u8], pos: usize) -> (r: Option<(Vec<u8>, usize)>)
    ensures
        r matches Some((b, end)) ==> pos <= end <= data@.len() && bytes_field(b@)
            == data@.subrange(pos as int, end as int),
        forall|b: Seq<u8>|
            #[trigger] occurs_at(data@, pos as int, bytes_field(b)) ==> (r matches Some((x, end))
                && x@ == b && end == pos + 8 + b.len()),
{
    let total: usize = data.len();
    proof {
        assert forall|b: Seq<u8>| #[trigger] occurs_at(data@, pos as int, bytes_field(b)) implies
            b.len() < pow256(8) && data@.len() >= pos + 8 + b.len() by {
            lemma_pow256_8();
            lemma_le_bytes_len(b.len() as u64 as nat, 8);
            assert(data@.len() == total);
        }
    }
    let n = read_le(data, pos, 8);
    match n {
        None => None,
        Some(len) => {
            let start: usize = pos + 8;
            proof {
                assert forall|b: Seq<u8>| #[trigger] occurs_at(data@, pos as int, bytes_field(b))
                    implies len == b.len() by {
                    lemma_pow256_8();
                    lemma_le_bytes_len(b.len() as u64 as nat, 8);
                    lemma_occurs_split(data@, pos as int, u64_bytes(b.len() as u64), b);
                    lemma_le_bytes_inj(len as nat, b.len() as u64 as nat, 8);
                }
            }
            if len > (data.len() - start) as u64 {
                return None;
            }
            let end: usize = start + len as usize;
            let mut out: Vec<u8> = Vec::new();
            let mut i: usize = start;
            while i < end
                invariant
                    start <= i <= end <= data@.len(),
                    out@ == data@.subrange(start as int, i as int),
                decreases end - i,
            {
                out.push(data[i]);
                i = i + 1;
                assert(out@ =~= data@.subrange(start as int, i as int));
            }
            assert(bytes_field(out@) =~= data@.subrange(pos as int, end as int));
            proof {
                assert forall|b: Seq<u8>| #[trigger] occurs_at(data@, pos as int, bytes_field(b))
                    implies out@ == b by {
                    lemma_le_bytes_len(b.len() as u64 as nat, 8);
                    lemma_occurs_split(data@, pos as int, u64_bytes(b.len() as u64), b);
                }
            }
            Some((out, end))
        },
    }
}

/// Whether two byte strings are equal.
pub fn bytes_eq(a: &[u8], b: &[u8]) -> (r: bool)
    ensures
        r == (a@ == b@),
{
    if a.len() != b.len() {
        return false;
    }
    let mut i: usize = 0;
    while i < a.len()
        invariant
            i <= a@.len() == b@.len(),
            a@.subrange(0, i as int) == b@.subrange(0, i as int),
        decreases a@.len() - i,
    {
        if a[i] != b[i] {
            assert(a@.subrange(0, i + 1)[i as int] != b@.subrange(0, i + 1)[i as int]);
            return false;
        }
        i = i + 1;
        assert(a@.subrange(0, i as int) =~= b@.subrange(0, i as int));
    }
    assert(a@ =~= a@.subrange(0, i as int));
    assert(b@ =~= b@.subrange(0, i as int));
    true
}

/// A copy of a byte string.
pub fn copy_bytes(b: &[u8]) -> (r: Vec<u8>)
    ensures
        r@ == b@,
{
    let mut out: Vec<u8> = Vec::new();
    push_all(&mut out, b);
    assert(out@ =~= b@);
    out
}

/// The bytes `lo..hi` of `b`.
pub fn copy_range(b: &[u8], lo: usize, hi: usize) -> (r: Vec<u8>)
    requires
        lo <= hi <= b@.len(),
    ensures
        r@ == b@.subrange(lo as int, hi as int),
{
    let mut out: Vec<u8> = Vec::new();
    let mut i: usize = lo;
    while i < hi
        invariant
            lo <= i <= hi <= b@.len(),
            out@ == b@.subrange(lo as int, i as int),
        decreases hi - i,
    {
        out.push(b[i]);
        i = i + 1;
        assert(out@ =~= b@.subrange(lo as int, i as int));
    }
    out
}

/// Whether two strings are equal.
pub fn str_eq(a: &str, b: &str) -> (r: bool)
    ensures
        r == (a@ == b@),
{
    let r = bytes_eq(a.as_bytes(), b.as_bytes());
    proof {
        vstd::utf8::encode_utf8_decode_utf8(a@);
        vstd::utf8::encode_utf8_decode_utf8(b@);
    }
    r
}

/// Relies on data_encoding::HEXLOWER.decode: the bytes whose lowercase hex text is `s`; the text
/// of any byte string decodes.
#[verifier::external_body]
pub fn hex_decode(s: &str) -> (r: Option<Vec<u8>>)
    ensures
        r matches Some(v) ==> hex_lower(v@) == s@,
        (exists|b: Seq<u8>| hex_lower(b) == s@) ==> r is Some,
{
    data_encoding::HEXLOWER.decode(s.as_bytes()).ok()
}

} // verus!
