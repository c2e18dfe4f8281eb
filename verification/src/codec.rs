use vstd::arithmetic::div_mod::{lemma_breakdown, lemma_fundamental_div_mod};
use vstd::prelude::*;

verus! {

/// `256` to the power `n`.
pub open spec fn pow256(n: nat) -> nat
    decreases n,
{
    if n == 0 {
        1
    } else {
        256 * pow256((n - 1) as nat)
    }
}

/// The `n` low bytes of `x`, least significant first.
pub open spec fn le_bytes(x: nat, n: nat) -> Seq<u8>
    decreases n,
{
    if n == 0 {
        Seq::empty()
    } else {
        seq![(x % 256) as u8] + le_bytes(x / 256, (n - 1) as nat)
    }
}

/// The number whose bytes, least significant first, are `s`.
pub open spec fn le_value(s: Seq<u8>) -> nat
    decreases s.len(),
{
    if s.len() == 0 {
        0
    } else {
        s[0] as nat + 256 * le_value(s.drop_first())
    }
}

pub proof fn lemma_pow256_pos(n: nat)
    ensures
        pow256(n) >= 1,
    decreases n,
{
    if n > 0 {
        lemma_pow256_pos((n - 1) as nat);
    }
}

pub proof fn lemma_pow256_small()
    ensures
        pow256(2) == 0x1_0000,
        pow256(4) == 0x1_0000_0000,
        pow256(8) == 0x1_0000_0000_0000_0000,
{
    reveal_with_fuel(pow256, 9);
}

pub proof fn lemma_le_bytes_len(x: nat, n: nat)
    ensures
        le_bytes(x, n).len() == n,
    decreases n,
{
    if n > 0 {
        lemma_le_bytes_len(x / 256, (n - 1) as nat);
    }
}

/// A value read back from `s` is below `256^len`.
pub proof fn lemma_le_value_bound(s: Seq<u8>)
    ensures
        le_value(s) < pow256(s.len()),
    decreases s.len(),
{
    if s.len() > 0 {
        let t = s.drop_first();
        lemma_le_value_bound(t);
        let v = le_value(t);
        let p = pow256(t.len());
        assert(s[0] as nat + 256 * v < 256 * p) by (nonlinear_arith)
            requires
                s[0] < 256,
                v < p,
        ;
    }
}

/// Reading back the `n` low bytes of `x` gives `x` modulo `256^n`.
pub proof fn lemma_le_roundtrip(x: nat, n: nat)
    ensures
        le_value(le_bytes(x, n)) == x % pow256(n),
    decreases n,
{
    if n == 0 {
    } else {
        let m = (n - 1) as nat;
        lemma_le_roundtrip(x / 256, m);
        lemma_pow256_pos(m);
        let s = le_bytes(x, n);
        assert(s.drop_first() =~= le_bytes(x / 256, m));
        lemma_breakdown(x as int, 256, pow256(m) as int);
        assert(pow256(n) == 256 * pow256(m));
    }
}

/// `le_bytes` of a value below `256^n` reads back as the value itself.
pub proof fn lemma_le_roundtrip_small(x: nat, n: nat)
    requires
        x < pow256(n),
    ensures
        le_value(le_bytes(x, n)) == x,
{
    lemma_le_roundtrip(x, n);
    vstd::arithmetic::div_mod::lemma_small_mod(x, pow256(n));
}

/// Two values with equal `n`-byte encodings are equal when both fit.
pub proof fn lemma_le_bytes_injective(x: nat, y: nat, n: nat)
    requires
        x < pow256(n),
        y < pow256(n),
        le_bytes(x, n) == le_bytes(y, n),
    ensures
        x == y,
{
    lemma_le_roundtrip_small(x, n);
    lemma_le_roundtrip_small(y, n);
}

/// Appends the `n` low bytes of `x`, least significant first.
pub fn push_le(buf: &mut Vec<u8>, x: u64, n: usize)
    ensures
        final(buf)@ == old(buf)@ + le_bytes(x as nat, n as nat),
    decreases n,
{
    if n == 0 {
        assert(old(buf)@ + le_bytes(x as nat, 0) =~= old(buf)@);
    } else {
        let b = (x % 256) as u8;
        buf.push(b);
        push_le(buf, x / 256, n - 1);
        assert(old(buf)@ + le_bytes(x as nat, n as nat) =~= old(buf)@.push(b) + le_bytes(
            (x / 256) as nat,
            (n - 1) as nat,
        ));
    }
}

/// Appends a `u16` in little-endian order.
pub fn push_u16(buf: &mut Vec<u8>, x: u16)
    ensures
        final(buf)@ == old(buf)@ + le_bytes(x as nat, 2),
{
    push_le(buf, x as u64, 2);
}

/// Appends a `u32` in little-endian order.
pub fn push_u32(buf: &mut Vec<u8>, x: u32)
    ensures
        final(buf)@ == old(buf)@ + le_bytes(x as nat, 4),
{
    push_le(buf, x as u64, 4);
}

/// Appends a `u64` in little-endian order.
pub fn push_u64(buf: &mut Vec<u8>, x: u64)
    ensures
        final(buf)@ == old(buf)@ + le_bytes(x as nat, 8),
{
    push_le(buf, x, 8);
}

/// Appends bytes unchanged.
pub fn push_bytes(buf: &mut Vec<u8>, data: &[u8])
    ensures
        final(buf)@ == old(buf)@ + data@,
{
    let mut i: usize = 0;
    while i < data.len()
        invariant
            i <= data@.len(),
            buf@ == old(buf)@ + data@.subrange(0, i as int),
        decreases data@.len() - i,
    {
        buf.push(data[i]);
        i += 1;
        assert(buf@ =~= old(buf)@ + data@.subrange(0, i as int));
    }
    assert(data@.subrange(0, data@.len() as int) =~= data@);
}

/// Whether two byte strings are equal.
pub fn bytes_equal(a: &[u8], b: &[u8]) -> (r: bool)
    ensures
        r == (a@ == b@),
{
    if a.len() != b.len() {
        return false;
    }
    let mut i: usize = 0;
    while i < a.len()
        invariant
            a@.len() == b@.len(),
            i <= a@.len(),
            forall|k: int| 0 <= k < i ==> a@[k] == b@[k],
        decreases a@.len() - i,
    {
        if a[i] != b[i] {
            return false;
        }
        i += 1;
    }
    assert(a@ =~= b@);
    true
}

/// A vector holding a copy of `data`.
pub fn owned_bytes(data: &[u8]) -> (v: Vec<u8>)
    ensures
        v@ == data@,
{
    let mut v: Vec<u8> = Vec::new();
    push_bytes(&mut v, data);
    assert(Seq::<u8>::empty() + data@ =~= data@);
    v
}

/// Reads the `n`-byte little-endian number that starts at `off`.
pub fn read_le(bytes: &[u8], off: usize, n: usize) -> (r: u64)
    requires
        n <= 8,
        off + n <= bytes@.len(),
    ensures
        r as nat == le_value(bytes@.subrange(off as int, off + n)),
    decreases n,
{
    let len = bytes.len();
    if n == 0 {
        0
    } else {
        assert(off + 1 <= len);
        let rest = read_le(bytes, off + 1, n - 1);
        let ghost s = bytes@.subrange(off as int, off + n);
        proof {
            assert(s.drop_first() =~= bytes@.subrange(off + 1, off + n));
            assert(s[0] == bytes@[off as int]);
            assert(le_value(s) == s[0] as nat + 256 * le_value(s.drop_first()));
            lemma_le_value_bound(s);
            lemma_pow256_small();
            assert(pow256(n as nat) <= pow256(8)) by {
                lemma_pow256_mono(n as nat, 8);
            }
            assert(le_value(s) < 0x1_0000_0000_0000_0000);
            assert(rest as nat == le_value(s.drop_first()));
            assert(bytes[off as int] as nat + 256 * (rest as nat) < 0x1_0000_0000_0000_0000);
        }
        (bytes[off] as u64) + 256 * rest
    }
}

pub proof fn lemma_pow256_mono(a: nat, b: nat)
    requires
        a <= b,
    ensures
        pow256(a) <= pow256(b),
    decreases b,
{
    if a < b {
        lemma_pow256_mono(a, (b - 1) as nat);
        lemma_pow256_pos((b - 1) as nat);
    }
}

} // verus!
