//! Fixed-width integers as bytes, and byte-buffer helpers shared by the
//! wire formats.

use vstd::prelude::*;
use vstd::arithmetic::power::pow;

verus! {

/// The `n` lowest bytes of `v`, most significant first.
pub open spec fn be_bytes(v: nat, n: nat) -> Seq<u8>
    decreases n,
{
    if n == 0 {
        Seq::empty()
    } else {
        be_bytes(v / 256, (n - 1) as nat).push((v % 256) as u8)
    }
}

/// The `n` lowest bytes of `v`, least significant first.
pub open spec fn le_bytes(v: nat, n: nat) -> Seq<u8>
    decreases n,
{
    if n == 0 {
        Seq::empty()
    } else {
        seq![(v % 256) as u8] + le_bytes(v / 256, (n - 1) as nat)
    }
}

/// The number whose big-endian bytes are `s`.
pub open spec fn be_value(s: Seq<u8>) -> nat
    decreases s.len(),
{
    if s.len() == 0 {
        0
    } else {
        be_value(s.drop_last()) * 256 + s.last() as nat
    }
}

/// The number whose little-endian bytes are `s`.
pub open spec fn le_value(s: Seq<u8>) -> nat
    decreases s.len(),
{
    if s.len() == 0 {
        0
    } else {
        s[0] as nat + 256 * le_value(s.drop_first())
    }
}

pub proof fn lemma_be_bytes_len(v: nat, n: nat)
    ensures
        be_bytes(v, n).len() == n,
    decreases n,
{
    if n > 0 {
        lemma_be_bytes_len(v / 256, (n - 1) as nat);
    }
}

pub proof fn lemma_le_bytes_len(v: nat, n: nat)
    ensures
        le_bytes(v, n).len() == n,
    decreases n,
{
    if n > 0 {
        lemma_le_bytes_len(v / 256, (n - 1) as nat);
    }
}

/// Reading the big-endian bytes of `v` gives `v` back, reduced to `n` bytes.
pub proof fn lemma_be_roundtrip(v: nat, n: nat)
    ensures
        be_value(be_bytes(v, n)) == v % (pow(256, n) as nat),
    decreases n,
{
    vstd::arithmetic::power::lemma_pow_positive(256, n);
    if n == 0 {
        vstd::arithmetic::power::lemma_pow0(256);
    } else {
        let n1 = (n - 1) as nat;
        lemma_be_roundtrip(v / 256, n1);
        lemma_be_bytes_len(v / 256, n1);
        let s = be_bytes(v, n);
        assert(s.drop_last() == be_bytes(v / 256, n1));
        let p = pow(256, n1);
        vstd::arithmetic::power::lemma_pow_positive(256, n1);
        vstd::arithmetic::power::lemma_pow_adds(256, 1, n1);
        vstd::arithmetic::power::lemma_pow1(256);
        lemma_mod_split(v, p as nat);
    }
}

/// Reading the little-endian bytes of `v` gives `v` back, reduced to `n` bytes.
pub proof fn lemma_le_roundtrip(v: nat, n: nat)
    ensures
        le_value(le_bytes(v, n)) == v % (pow(256, n) as nat),
    decreases n,
{
    vstd::arithmetic::power::lemma_pow_positive(256, n);
    if n == 0 {
        vstd::arithmetic::power::lemma_pow0(256);
    } else {
        let n1 = (n - 1) as nat;
        lemma_le_roundtrip(v / 256, n1);
        let s = le_bytes(v, n);
        assert(s.drop_first() == le_bytes(v / 256, n1));
        let p = pow(256, n1);
        vstd::arithmetic::power::lemma_pow_positive(256, n1);
        vstd::arithmetic::power::lemma_pow_adds(256, 1, n1);
        vstd::arithmetic::power::lemma_pow1(256);
        lemma_mod_split(v, p as nat);
    }
}

proof fn lemma_mod_split(v: nat, p: nat)
    requires
        p > 0,
    ensures
        (v / 256) % p * 256 + v % 256 == v % (256 * p),
        v % 256 + 256 * ((v / 256) % p) == v % (256 * p),
{
    vstd::arithmetic::div_mod::lemma_breakdown(v as int, 256, p as int);
    assert((v / 256) % p * 256 == 256 * ((v / 256) % p)) by (nonlinear_arith);
}

/// The big-endian bytes of a value read back are the bytes themselves.
pub proof fn lemma_be_value_bytes(s: Seq<u8>)
    ensures
        be_bytes(be_value(s), s.len()) == s,
        be_value(s) < pow(256, s.len()),
    decreases s.len(),
{
    vstd::arithmetic::power::lemma_pow_positive(256, s.len());
    if s.len() == 0 {
        vstd::arithmetic::power::lemma_pow0(256);
    } else {
        let n1 = (s.len() - 1) as nat;
        lemma_be_value_bytes(s.drop_last());
        let v = be_value(s);
        let w = be_value(s.drop_last());
        assert(v / 256 == w && v % 256 == s.last()) by (nonlinear_arith)
            requires v == w * 256 + s.last() as nat, 0 <= s.last() < 256;
        vstd::arithmetic::power::lemma_pow_adds(256, 1, n1);
        vstd::arithmetic::power::lemma_pow1(256);
        let p = pow(256, n1);
        assert(v < 256 * p) by (nonlinear_arith)
            requires v == w * 256 + s.last() as nat, w < p, 0 <= s.last() < 256;
        assert(be_bytes(v, s.len()) == be_bytes(w, n1).push(s.last()));
        assert(s.drop_last().push(s.last()) == s);
    }
}

/// The little-endian bytes of a value read back are the bytes themselves.
pub proof fn lemma_le_value_bytes(s: Seq<u8>)
    ensures
        le_bytes(le_value(s), s.len()) == s,
        le_value(s) < pow(256, s.len()),
    decreases s.len(),
{
    vstd::arithmetic::power::lemma_pow_positive(256, s.len());
    if s.len() == 0 {
        vstd::arithmetic::power::lemma_pow0(256);
    } else {
        let n1 = (s.len() - 1) as nat;
        lemma_le_value_bytes(s.drop_first());
        let v = le_value(s);
        let w = le_value(s.drop_first());
        assert(v / 256 == w && v % 256 == s[0]) by (nonlinear_arith)
            requires v == s[0] as nat + 256 * w, 0 <= s[0] < 256;
        vstd::arithmetic::power::lemma_pow_adds(256, 1, n1);
        vstd::arithmetic::power::lemma_pow1(256);
        let p = pow(256, n1);
        assert(v < 256 * p) by (nonlinear_arith)
            requires v == s[0] as nat + 256 * w, w < p, 0 <= s[0] < 256;
        assert(le_bytes(v, s.len()) == seq![s[0]] + le_bytes(w, n1));
        assert(seq![s[0]] + s.drop_first() == s);
    }
}

/// Only the value modulo `256^n` matters to its `n` bytes.
pub proof fn lemma_be_bytes_mod(v: nat, n: nat)
    ensures
        be_bytes(v, n) == be_bytes(v % (pow(256, n) as nat), n),
{
    lemma_be_roundtrip(v, n);
    lemma_be_bytes_len(v, n);
    lemma_be_value_bytes(be_bytes(v, n));
}

proof fn lemma_byte_split(v: u64)
    ensures
        (v & 0xff) as u8 as nat == (v as nat) % 256,
        v >> 8u64 == v / 256,
{
    assert((v & 0xff) as u8 as nat == (v as nat) % 256) by (bit_vector);
    assert(v >> 8u64 == v / 256) by (bit_vector);
}

/// Append the `n` lowest bytes of `v`, most significant first.
pub fn push_be(buf: &mut Vec<u8>, v: u64, n: usize)
    requires
        n <= 8,
    ensures
        final(buf)@ == old(buf)@ + be_bytes(v as nat, n as nat),
    decreases n,
{
    if n == 0 {
        assert(be_bytes(v as nat, 0) =~= Seq::<u8>::empty());
        return;
    }
    proof {
        lemma_byte_split(v);
    }
    push_be(buf, v >> 8, n - 1);
    buf.push((v & 0xff) as u8);
}

/// Append the `n` lowest bytes of `v`, least significant first.
pub fn push_le(buf: &mut Vec<u8>, v: u64, n: usize)
    requires
        n <= 8,
    ensures
        final(buf)@ == old(buf)@ + le_bytes(v as nat, n as nat),
    decreases n,
{
    if n == 0 {
        assert(le_bytes(v as nat, 0) =~= Seq::<u8>::empty());
        return;
    }
    proof {
        lemma_byte_split(v);
    }
    buf.push((v & 0xff) as u8);
    let ghost mid = buf@;
    push_le(buf, v >> 8, n - 1);
    assert(buf@ == mid + le_bytes(v as nat / 256, (n - 1) as nat));
    assert(old(buf)@ + le_bytes(v as nat, n as nat) =~= mid + le_bytes(v as nat / 256, (n - 1) as nat));
}

/// Append all of `s`.
pub fn append_bytes(buf: &mut Vec<u8>, s: &[u8])
    ensures
        final(buf)@ == old(buf)@ + s@,
{
    let mut i: usize = 0;
    while i < s.len()
        invariant
            i <= s@.len(),
            buf@ == old(buf)@ + s@.subrange(0, i as int),
        decreases s@.len() - i,
    {
        buf.push(s[i]);
        assert(s@.subrange(0, i + 1) == s@.subrange(0, i as int).push(s@[i as int]));
        i = i + 1;
    }
    assert(s@.subrange(0, s@.len() as int) == s@);
}

proof fn lemma_pow256_bound(n: nat)
    requires
        n <= 7,
    ensures
        pow(256, n) <= 0x1_0000_0000_0000_00,
{
    reveal_with_fuel(vstd::arithmetic::power::pow, 8);
    vstd::arithmetic::power::lemma_pow_increases(256, n, 7);
}

/// The number formed by the `n` bytes of `buf` at `pos`, most significant first.
pub fn read_be(buf: &[u8], pos: usize, n: usize) -> (r: u64)
    requires
        n <= 8,
        pos + n <= buf@.len(),
    ensures
        r as nat == be_value(buf@.subrange(pos as int, pos + n)),
    decreases n,
{
    if n == 0 {
        return 0;
    }
    let _len = buf.len();
    let hi = read_be(buf, pos, n - 1);
    let ghost s = buf@.subrange(pos as int, pos + n);
    proof {
        assert(s.drop_last() == buf@.subrange(pos as int, pos + n - 1));
        lemma_be_value_bytes(s.drop_last());
        lemma_pow256_bound((n - 1) as nat);
        assert(hi * 256 + 255 < 0x1_0000_0000_0000_0000) by (nonlinear_arith)
            requires hi < pow(256, (n - 1) as nat), pow(256, (n - 1) as nat) <= 0x1_0000_0000_0000_00;
    }
    hi * 256 + buf[pos + n - 1] as u64
}

/// The number formed by the `n` bytes of `buf` at `pos`, least significant first.
pub fn read_le(buf: &[u8], pos: usize, n: usize) -> (r: u64)
    requires
        n <= 8,
        pos + n <= buf@.len(),
    ensures
        r as nat == le_value(buf@.subrange(pos as int, pos + n)),
    decreases n,
{
    if n == 0 {
        return 0;
    }
    let _len = buf.len();
    let hi = read_le(buf, pos + 1, n - 1);
    let ghost s = buf@.subrange(pos as int, pos + n);
    proof {
        assert(s.drop_first() == buf@.subrange(pos + 1, pos + n));
        lemma_le_value_bytes(s.drop_first());
        lemma_pow256_bound((n - 1) as nat);
        assert(255 + 256 * hi < 0x1_0000_0000_0000_0000) by (nonlinear_arith)
            requires hi < pow(256, (n - 1) as nat), pow(256, (n - 1) as nat) <= 0x1_0000_0000_0000_00;
    }
    buf[pos] as u64 + 256 * hi
}

/// Big-endian reading of the reversed bytes is little-endian reading.
pub proof fn lemma_be_value_reverse(s: Seq<u8>)
    ensures
        be_value(s.reverse()) == le_value(s),
    decreases s.len(),
{
    if s.len() > 0 {
        lemma_be_value_reverse(s.drop_first());
        assert(s.reverse().drop_last() =~= s.drop_first().reverse());
        assert(s.reverse().last() == s[0]);
        assert(be_value(s.drop_first().reverse()) * 256 == 256 * le_value(s.drop_first()));
    }
}

} // verus!
