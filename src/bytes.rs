//! Fixed-width unsigned integers read from byte sequences.
use vstd::prelude::*;

verus! {

/// The unsigned value of `s` read most significant byte first.
pub open spec fn be_value(s: Seq<u8>) -> nat
    decreases s.len(),
{
    if s.len() == 0 {
        0
    } else {
        be_value(s.drop_last()) * 256 + s.last() as nat
    }
}

/// The unsigned value of `s` read least significant byte first.
pub open spec fn le_value(s: Seq<u8>) -> nat
    decreases s.len(),
{
    if s.len() == 0 {
        0
    } else {
        le_value(s.drop_first()) * 256 + s[0] as nat
    }
}

/// 256 to the power `n`.
pub open spec fn radix(n: nat) -> nat
    decreases n,
{
    if n == 0 {
        1
    } else {
        256 * radix((n - 1) as nat)
    }
}

pub proof fn lemma_be_value_bound(s: Seq<u8>)
    ensures
        be_value(s) < radix(s.len()),
    decreases s.len(),
{
    if s.len() > 0 {
        let a = be_value(s.drop_last());
        let r = radix((s.len() - 1) as nat);
        lemma_be_value_bound(s.drop_last());
        let b = s.last() as nat;
        assert(a * 256 + b < 256 * r) by (nonlinear_arith)
            requires
                a < r,
                b < 256,
        ;
    }
}

pub proof fn lemma_le_value_bound(s: Seq<u8>)
    ensures
        le_value(s) < radix(s.len()),
    decreases s.len(),
{
    if s.len() > 0 {
        let a = le_value(s.drop_first());
        let r = radix((s.len() - 1) as nat);
        lemma_le_value_bound(s.drop_first());
        let b = s[0] as nat;
        assert(a * 256 + b < 256 * r) by (nonlinear_arith)
            requires
                a < r,
                b < 256,
        ;
    }
}

pub proof fn lemma_radix_small()
    ensures
        radix(1) == 0x100,
        radix(4) == 0x1_0000_0000,
        radix(8) == 0x1_0000_0000_0000_0000,
{
    reveal_with_fuel(radix, 9);
}

/// Reads `bytes[start..start + len]` as a big-endian unsigned integer.
pub fn read_be(bytes: &[u8], start: usize, len: usize) -> (r: u64)
    requires
        len <= 8,
        start + len <= bytes@.len(),
    ensures
        r as nat == be_value(bytes@.subrange(start as int, start + len)),
{
    let _n = bytes.len();
    let end = start + len;
    let mut v: u64 = 0;
    let mut i: usize = start;
    while i < end
        invariant
            start <= i <= start + len,
            end == start + len,
            start + len <= bytes@.len(),
            len <= 8,
            v as nat == be_value(bytes@.subrange(start as int, i as int)),
        decreases start + len - i,
    {
        let ghost prefix = bytes@.subrange(start as int, i as int);
        let ghost next = bytes@.subrange(start as int, i + 1);
        proof {
            assert(next.drop_last() =~= prefix);
            lemma_be_value_bound(next);
            lemma_radix_small();
            lemma_radix_mono((i + 1 - start) as nat, 8);
        }
        v = v * 256 + bytes[i] as u64;
        i = i + 1;
    }
    v
}

/// Reads `bytes[start..start + len]` as a little-endian unsigned integer.
pub fn read_le(bytes: &[u8], start: usize, len: usize) -> (r: u64)
    requires
        len <= 8,
        start + len <= bytes@.len(),
    ensures
        r as nat == le_value(bytes@.subrange(start as int, start + len)),
{
    let _n = bytes.len();
    let mut v: u64 = 0;
    let mut i: usize = start + len;
    while i > start
        invariant
            start <= i <= start + len,
            start + len <= bytes@.len(),
            len <= 8,
            v as nat == le_value(bytes@.subrange(i as int, start + len)),
        decreases i - start,
    {
        let ghost suffix = bytes@.subrange(i as int, start + len);
        let ghost next = bytes@.subrange(i - 1, start + len);
        proof {
            assert(next.drop_first() =~= suffix);
            lemma_le_value_bound(next);
            lemma_radix_small();
            lemma_radix_mono((start + len - (i - 1)) as nat, 8);
        }
        v = v * 256 + bytes[i - 1] as u64;
        i = i - 1;
    }
    v
}

/// The `n` bytes that write `v` most significant byte first.
pub open spec fn be_bytes(v: nat, n: nat) -> Seq<u8>
    decreases n,
{
    if n == 0 {
        Seq::empty()
    } else {
        be_bytes(v / 256, (n - 1) as nat).push((v % 256) as u8)
    }
}

pub proof fn lemma_be_bytes_value(v: nat, n: nat)
    requires
        v < radix(n),
    ensures
        be_bytes(v, n).len() == n,
        be_value(be_bytes(v, n)) == v,
    decreases n,
{
    if n > 0 {
        let r = radix((n - 1) as nat);
        assert(v / 256 < r) by (nonlinear_arith)
            requires
                v < 256 * r,
        ;
        lemma_be_bytes_value(v / 256, (n - 1) as nat);
        assert(be_bytes(v, n).drop_last() =~= be_bytes(v / 256, (n - 1) as nat));
    }
}

/// The `n` bytes that write `v` least significant byte first.
pub open spec fn le_bytes(v: nat, n: nat) -> Seq<u8>
    decreases n,
{
    if n == 0 {
        Seq::empty()
    } else {
        seq![(v % 256) as u8] + le_bytes(v / 256, (n - 1) as nat)
    }
}

pub proof fn lemma_le_bytes_value(v: nat, n: nat)
    requires
        v < radix(n),
    ensures
        le_bytes(v, n).len() == n,
        le_value(le_bytes(v, n)) == v,
    decreases n,
{
    if n > 0 {
        let r = radix((n - 1) as nat);
        assert(v / 256 < r) by (nonlinear_arith)
            requires
                v < 256 * r,
        ;
        lemma_le_bytes_value(v / 256, (n - 1) as nat);
        assert(le_bytes(v, n).drop_first() =~= le_bytes(v / 256, (n - 1) as nat));
    }
}

pub proof fn lemma_radix_mono(a: nat, b: nat)
    requires
        a <= b,
    ensures
        radix(a) <= radix(b),
    decreases b,
{
    if a < b {
        lemma_radix_mono(a, (b - 1) as nat);
    }
}

} // verus!
