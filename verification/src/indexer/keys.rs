//! Keys under which the indexer stores its records. Numbers are written in
//! lower-case hexadecimal, padded with zeros to at least 8 digits, and the
//! parts of a key are separated by ':'.

use crate::model::hashing::push_bytes;
use crate::indexer::table::bytes_lt;
use crate::model::BlockHeight;
use vstd::prelude::*;

verus! {

/// The ASCII byte of the hexadecimal digit `d`.
pub open spec fn hex_char(d: nat) -> u8 {
    if d < 10 {
        (48 + d) as u8
    } else {
        (87 + d) as u8
    }
}

/// The hexadecimal digits of `x`, most significant first, with no leading
/// zero (zero itself is "0").
pub open spec fn hex_digits(x: nat) -> Seq<u8>
    decreases x,
{
    if x < 16 {
        seq![hex_char(x)]
    } else {
        hex_digits(x / 16).push(hex_char(x % 16))
    }
}

/// `x` written as `{:08x}` writes it.
pub open spec fn hex08(x: nat) -> Seq<u8> {
    let d = hex_digits(x);
    if d.len() < 8 {
        Seq::new((8 - d.len()) as nat, |i: int| 48u8) + d
    } else {
        d
    }
}

/// The separator between the parts of a key.
pub open spec fn colon() -> Seq<u8> {
    seq![58u8]
}

fn hex_char_byte(d: u64) -> (res: u8)
    requires
        d < 16,
    ensures
        res == hex_char(d as nat),
{
    if d < 10 {
        48 + d as u8
    } else {
        87 + d as u8
    }
}

/// Appends `x` as `{:08x}` writes it.
pub fn put_hex08(out: &mut Vec<u8>, x: u64)
    ensures
        final(out)@ == old(out)@ + hex08(x as nat),
{
    let mut digits: Vec<u8> = Vec::new();
    let mut q: u64 = x;
    loop
        invariant_except_break
            hex_digits(x as nat) == hex_digits(q as nat) + digits@,
        ensures
            hex_digits(x as nat) == digits@,
        decreases q,
    {
        let c = hex_char_byte(q % 16);
        let ghost before = digits@;
        digits.insert(0, c);
        proof {
            assert(digits@ =~= seq![c] + before);
            if q >= 16 {
                assert(hex_digits(q as nat) == hex_digits((q / 16) as nat).push(hex_char((q % 16) as nat)));
                assert(hex_digits(q as nat) + before =~= hex_digits((q / 16) as nat) + digits@);
            } else {
                assert(hex_digits(q as nat) =~= seq![c]);
            }
        }
        q = q / 16;
        if q == 0 {
            break;
        }
    }
    let ghost start = out@;
    let n = digits.len();
    let mut pad: usize = 0;
    if n < 8 {
        while pad < 8 - n
            invariant
                n == digits@.len(),
                n < 8,
                pad <= 8 - n,
                out@ == start + Seq::new(pad as nat, |i: int| 48u8),
            decreases 8 - n - pad,
        {
            out.push(48u8);
            proof {
                assert(out@ =~= start + Seq::new((pad + 1) as nat, |i: int| 48u8));
            }
            pad = pad + 1;
        }
    }
    let ghost padded = out@;
    push_bytes(out, digits.as_slice());
    proof {
        if n < 8 {
            assert(out@ =~= start + hex08(x as nat));
        } else {
            assert(padded == start);
            assert(out@ =~= start + hex08(x as nat));
        }
    }
}

/// The key of a blob, from its block height, the index of its
/// transaction in the block and its own index in the transaction.
#[derive(Debug, Default)]
pub struct BlobsKey(pub BlockHeight, pub usize, pub usize);

/// The bytes of the key of a blob.
pub open spec fn blobs_key_bytes(height: u64, tx_index: usize, blob_index: usize) -> Seq<u8> {
    hex08(height as nat) + colon() + hex08(tx_index as nat) + colon() + hex08(blob_index as nat)
}

impl BlobsKey {
    pub fn make_key(&self) -> (res: Vec<u8>)
        ensures
            res@ == blobs_key_bytes(self.0.0, self.1, self.2),
    {
        let mut out: Vec<u8> = Vec::new();
        put_hex08(&mut out, self.0.0);
        out.push(58u8);
        put_hex08(&mut out, self.1 as u64);
        out.push(58u8);
        put_hex08(&mut out, self.2 as u64);
        assert(out@ =~= blobs_key_bytes(self.0.0, self.1, self.2));
        out
    }
}

/// The second key of a blob, from its contract's name, the hash of its
/// transaction and its index in the transaction.
#[derive(Debug, Default)]
pub struct BlobsKeyAlt<'b>(pub &'b str, pub &'b str, pub usize);

/// The bytes of the second key of a blob.
pub open spec fn blobs_key_alt_bytes(contract_name: Seq<char>, tx_hash: Seq<char>, blob_index: usize) -> Seq<u8> {
    vstd::utf8::encode_utf8(contract_name) + colon() + vstd::utf8::encode_utf8(tx_hash) + colon() + hex08(blob_index as nat)
}

impl<'b> BlobsKeyAlt<'b> {
    pub fn make_key(&self) -> (res: Vec<u8>)
        ensures
            res@ == blobs_key_alt_bytes(self.0@, self.1@, self.2),
    {
        let mut out: Vec<u8> = Vec::new();
        push_bytes(&mut out, self.0.as_bytes());
        out.push(58u8);
        push_bytes(&mut out, self.1.as_bytes());
        out.push(58u8);
        put_hex08(&mut out, self.2 as u64);
        assert(out@ =~= blobs_key_alt_bytes(self.0@, self.1@, self.2));
        out
    }
}

/// The key of a proof, from its block height and the index of its
/// transaction in the block.
#[derive(Debug, Default)]
pub struct ProofsKey(pub BlockHeight, pub usize);

/// The bytes of the key of a proof.
pub open spec fn proofs_key_bytes(height: u64, tx_index: usize) -> Seq<u8> {
    hex08(height as nat) + colon() + hex08(tx_index as nat)
}

impl ProofsKey {
    pub fn make_key(&self) -> (res: Vec<u8>)
        ensures
            res@ == proofs_key_bytes(self.0.0, self.1),
    {
        let mut out: Vec<u8> = Vec::new();
        put_hex08(&mut out, self.0.0);
        out.push(58u8);
        put_hex08(&mut out, self.1 as u64);
        assert(out@ =~= proofs_key_bytes(self.0.0, self.1));
        out
    }
}

/// 16 to the power `n`.
pub open spec fn pow16(n: nat) -> nat
    decreases n,
{
    if n == 0 {
        1
    } else {
        16 * pow16((n - 1) as nat)
    }
}

/// The low `n` hexadecimal digits of `x`, most significant first.
pub open spec fn hex_fixed(x: nat, n: nat) -> Seq<u8>
    decreases n,
{
    if n == 0 {
        Seq::empty()
    } else {
        hex_fixed(x / 16, (n - 1) as nat).push(hex_char(x % 16))
    }
}

/// `d` preceded by zeros up to `n` characters.
pub open spec fn pad_zeros(d: Seq<u8>, n: nat) -> Seq<u8> {
    if d.len() < n {
        Seq::new((n - d.len()) as nat, |i: int| 48u8) + d
    } else {
        d
    }
}

proof fn lemma_div16_bound(x: nat, p: nat)
    requires
        x < 16 * p,
    ensures
        x / 16 < p,
{
    assert(x / 16 < p) by (nonlinear_arith)
        requires
            x < 16 * p,
    ;
}

proof fn lemma_hex_digits_len(x: nat, k: nat)
    requires
        k >= 1,
        x < pow16(k),
    ensures
        hex_digits(x).len() <= k,
    decreases x,
{
    if x >= 16 {
        if k == 1 {
            assert(pow16(0) == 1);
            assert(pow16(1) == 16);
        } else {
            lemma_div16_bound(x, pow16((k - 1) as nat));
            if k - 1 == 0 {
            }
            lemma_hex_digits_len(x / 16, (k - 1) as nat);
        }
    }
}

proof fn lemma_hex_fixed_zero(n: nat)
    ensures
        hex_fixed(0, n) == Seq::new(n, |i: int| 48u8),
    decreases n,
{
    if n > 0 {
        lemma_hex_fixed_zero((n - 1) as nat);
        assert(hex_fixed(0, n) =~= Seq::new(n, |i: int| 48u8));
    }
}

/// Below `16^n`, padding the digits of `x` to `n` gives its `n` low digits.
proof fn lemma_pad_is_fixed(x: nat, n: nat)
    requires
        n >= 1,
        x < pow16(n),
    ensures
        pad_zeros(hex_digits(x), n) == hex_fixed(x, n),
    decreases n,
{
    if n == 1 {
        assert(pow16(0) == 1);
        assert(pow16(1) == 16);
        assert(x % 16 == x);
        assert(hex_fixed(x / 16, 0) =~= Seq::<u8>::empty());
        assert(hex_fixed(x, 1) == hex_fixed(x / 16, 0).push(hex_char(x % 16)));
        assert(hex_fixed(x, 1) =~= seq![hex_char(x)]);
    } else if x < 16 {
        lemma_hex_fixed_zero((n - 1) as nat);
        assert(hex_fixed(x, n) == hex_fixed(0, (n - 1) as nat).push(hex_char(x)));
        assert(pad_zeros(hex_digits(x), n) =~= hex_fixed(x, n));
    } else {
        let q = x / 16;
        lemma_div16_bound(x, pow16((n - 1) as nat));
        lemma_pad_is_fixed(q, (n - 1) as nat);
        lemma_hex_digits_len(q, (n - 1) as nat);
        let d = hex_digits(q);
        assert(hex_digits(x) == d.push(hex_char(x % 16)));
        assert(pad_zeros(hex_digits(x), n) =~= pad_zeros(d, (n - 1) as nat).push(hex_char(x % 16)));
    }
}

/// A digit's character grows with the digit.
proof fn lemma_hex_char_monotone(a: nat, b: nat)
    requires
        a < b < 16,
    ensures
        hex_char(a) < hex_char(b),
{
}

/// Equal-length strings in order stay in order whatever follows them.
proof fn lemma_lt_prefix(p1: Seq<u8>, p2: Seq<u8>, s1: Seq<u8>, s2: Seq<u8>)
    requires
        p1.len() == p2.len(),
        bytes_lt(p1, p2),
    ensures
        bytes_lt(p1 + s1, p2 + s2),
    decreases p1.len(),
{
    if p1.len() > 0 && p1[0] == p2[0] {
        assert((p1 + s1).drop_first() =~= p1.drop_first() + s1);
        assert((p2 + s2).drop_first() =~= p2.drop_first() + s2);
        lemma_lt_prefix(p1.drop_first(), p2.drop_first(), s1, s2);
    }
}

/// A common prefix leaves the order of what follows it.
proof fn lemma_lt_common(p: Seq<u8>, s1: Seq<u8>, s2: Seq<u8>)
    requires
        bytes_lt(s1, s2),
    ensures
        bytes_lt(p + s1, p + s2),
    decreases p.len(),
{
    if p.len() > 0 {
        assert((p + s1).drop_first() =~= p.drop_first() + s1);
        assert((p + s2).drop_first() =~= p.drop_first() + s2);
        lemma_lt_common(p.drop_first(), s1, s2);
    } else {
        assert(p + s1 =~= s1);
        assert(p + s2 =~= s2);
    }
}

proof fn lemma_hex_fixed_len(x: nat, n: nat)
    ensures
        hex_fixed(x, n).len() == n,
    decreases n,
{
    if n > 0 {
        lemma_hex_fixed_len(x / 16, (n - 1) as nat);
    }
}

/// Below `16^n`, the `n` low digits are in the order of the numbers.
proof fn lemma_hex_fixed_order(a: nat, b: nat, n: nat)
    requires
        a < b < pow16(n),
    ensures
        bytes_lt(hex_fixed(a, n), hex_fixed(b, n)),
    decreases n,
{
    if n == 0 {
        assert(pow16(0) == 1);
    } else {
        lemma_div16_bound(b, pow16((n - 1) as nat));
        lemma_hex_fixed_len(a / 16, (n - 1) as nat);
        lemma_hex_fixed_len(b / 16, (n - 1) as nat);
        let pa = hex_fixed(a / 16, (n - 1) as nat);
        let pb = hex_fixed(b / 16, (n - 1) as nat);
        let ca = seq![hex_char(a % 16)];
        let cb = seq![hex_char(b % 16)];
        assert(hex_fixed(a, n) =~= pa + ca);
        assert(hex_fixed(b, n) =~= pb + cb);
        if a / 16 < b / 16 {
            lemma_hex_fixed_order(a / 16, b / 16, (n - 1) as nat);
            lemma_lt_prefix(pa, pb, ca, cb);
        } else {
            assert(a / 16 == b / 16);
            assert(a % 16 < b % 16);
            lemma_hex_char_monotone(a % 16, b % 16);
            assert(bytes_lt(ca, cb));
            lemma_lt_common(pa, ca, cb);
        }
    }
}

proof fn lemma_pow16_8()
    ensures
        pow16(8) == 0x1_0000_0000,
{
    assert(pow16(0) == 1);
    assert(pow16(1) == 16);
    assert(pow16(2) == 256);
    assert(pow16(3) == 4096);
    assert(pow16(4) == 65536);
    assert(pow16(5) == 1048576);
    assert(pow16(6) == 16777216);
    assert(pow16(7) == 268435456);
    assert(pow16(8) == 4294967296);
}

/// A key part of a number below 2^32 is its 8 low digits.
proof fn lemma_hex08_small(x: nat)
    requires
        x < 0x1_0000_0000,
    ensures
        hex08(x) == hex_fixed(x, 8),
        hex08(x).len() == 8,
{
    lemma_pow16_8();
    lemma_pad_is_fixed(x, 8);
    lemma_hex_fixed_len(x, 8);
}

/// Below 2^32, key parts are in the order of the numbers.
proof fn lemma_hex08_order(a: nat, b: nat)
    requires
        a < b < 0x1_0000_0000,
    ensures
        bytes_lt(hex08(a), hex08(b)),
{
    lemma_hex08_small(a);
    lemma_hex08_small(b);
    lemma_pow16_8();
    lemma_hex_fixed_order(a, b, 8);
}

/// For heights and indexes below 2^32, the keys of blobs are in the order
/// of (block height, transaction index, blob index): a range of keys is a
/// range of positions in the chain.
pub proof fn lemma_blobs_key_order(h1: u64, t1: usize, b1: usize, h2: u64, t2: usize, b2: usize)
    requires
        h1 < 0x1_0000_0000 && h2 < 0x1_0000_0000,
        t1 < 0x1_0000_0000 && t2 < 0x1_0000_0000,
        b1 < 0x1_0000_0000 && b2 < 0x1_0000_0000,
        h1 < h2 || (h1 == h2 && t1 < t2) || (h1 == h2 && t1 == t2 && b1 < b2),
    ensures
        bytes_lt(blobs_key_bytes(h1, t1, b1), blobs_key_bytes(h2, t2, b2)),
{
    lemma_hex08_small(h1 as nat);
    lemma_hex08_small(h2 as nat);
    lemma_hex08_small(t1 as nat);
    lemma_hex08_small(t2 as nat);
    let k1 = blobs_key_bytes(h1, t1, b1);
    let k2 = blobs_key_bytes(h2, t2, b2);
    let r1 = colon() + hex08(t1 as nat) + colon() + hex08(b1 as nat);
    let r2 = colon() + hex08(t2 as nat) + colon() + hex08(b2 as nat);
    assert(k1 =~= hex08(h1 as nat) + r1);
    assert(k2 =~= hex08(h2 as nat) + r2);
    if h1 < h2 {
        lemma_hex08_order(h1 as nat, h2 as nat);
        lemma_lt_prefix(hex08(h1 as nat), hex08(h2 as nat), r1, r2);
    } else {
        let s1 = hex08(t1 as nat) + colon() + hex08(b1 as nat);
        let s2 = hex08(t2 as nat) + colon() + hex08(b2 as nat);
        let pre = hex08(h1 as nat) + colon();
        assert(k1 =~= pre + s1);
        assert(k2 =~= pre + s2);
        if t1 < t2 {
            lemma_hex08_order(t1 as nat, t2 as nat);
            lemma_lt_prefix(hex08(t1 as nat), hex08(t2 as nat), colon() + hex08(b1 as nat), colon() + hex08(b2 as nat));
            assert(s1 =~= hex08(t1 as nat) + (colon() + hex08(b1 as nat)));
            assert(s2 =~= hex08(t2 as nat) + (colon() + hex08(b2 as nat)));
        } else {
            lemma_hex08_order(b1 as nat, b2 as nat);
            let pre2 = hex08(t1 as nat) + colon();
            assert(s1 =~= pre2 + hex08(b1 as nat));
            assert(s2 =~= pre2 + hex08(b2 as nat));
            lemma_lt_common(pre2, hex08(b1 as nat), hex08(b2 as nat));
        }
        lemma_lt_common(pre, s1, s2);
    }
}

/// For heights and indexes below 2^32, the keys of proofs are in the order
/// of (block height, transaction index).
pub proof fn lemma_proofs_key_order(h1: u64, t1: usize, h2: u64, t2: usize)
    requires
        h1 < 0x1_0000_0000 && h2 < 0x1_0000_0000,
        t1 < 0x1_0000_0000 && t2 < 0x1_0000_0000,
        h1 < h2 || (h1 == h2 && t1 < t2),
    ensures
        bytes_lt(proofs_key_bytes(h1, t1), proofs_key_bytes(h2, t2)),
{
    lemma_hex08_small(h1 as nat);
    lemma_hex08_small(h2 as nat);
    let k1 = proofs_key_bytes(h1, t1);
    let k2 = proofs_key_bytes(h2, t2);
    let r1 = colon() + hex08(t1 as nat);
    let r2 = colon() + hex08(t2 as nat);
    assert(k1 =~= hex08(h1 as nat) + r1);
    assert(k2 =~= hex08(h2 as nat) + r2);
    if h1 < h2 {
        lemma_hex08_order(h1 as nat, h2 as nat);
        lemma_lt_prefix(hex08(h1 as nat), hex08(h2 as nat), r1, r2);
    } else {
        lemma_hex08_order(t1 as nat, t2 as nat);
        let pre = hex08(h1 as nat) + colon();
        assert(k1 =~= pre + hex08(t1 as nat));
        assert(k2 =~= pre + hex08(t2 as nat));
        lemma_lt_common(pre, hex08(t1 as nat), hex08(t2 as nat));
    }
}

} // verus!
