use byteorder::{BigEndian, ByteOrder};
use vstd::prelude::*;

verus! {

/// `256` raised to the power `n`.
pub open spec fn pow256(n: nat) -> nat
    decreases n,
{
    if n == 0 {
        1
    } else {
        256 * pow256((n - 1) as nat)
    }
}

/// The number that `s` spells in big-endian order (most significant byte first).
pub open spec fn be_value(s: Seq<u8>) -> nat
    decreases s.len(),
{
    if s.len() == 0 {
        0
    } else {
        be_value(s.drop_last()) * 256 + s.last() as nat
    }
}

/// The number that `s` spells in little-endian order (least significant byte first).
pub open spec fn le_value(s: Seq<u8>) -> nat
    decreases s.len(),
{
    if s.len() == 0 {
        0
    } else {
        le_value(s.drop_last()) + pow256((s.len() - 1) as nat) * (s.last() as nat)
    }
}

/// The shortest little-endian bytes of `m` (none for zero).
pub open spec fn le_bytes(m: nat) -> Seq<u8>
    decreases m,
{
    if m == 0 {
        Seq::empty()
    } else {
        seq![(m % 256) as u8] + le_bytes(m / 256)
    }
}

/// The `k` low bytes of `n`, most significant first.
pub open spec fn be_bytes(n: nat, k: nat) -> Seq<u8>
    decreases k,
{
    if k == 0 {
        Seq::empty()
    } else {
        be_bytes(n / 256, (k - 1) as nat).push((n % 256) as u8)
    }
}

pub proof fn lemma_pow256_positive(n: nat)
    ensures
        pow256(n) >= 1,
    decreases n,
{
    if n > 0 {
        lemma_pow256_positive((n - 1) as nat);
    }
}

/// `k` bytes hold a number under `256^k`.
pub proof fn lemma_be_value_bound(s: Seq<u8>)
    ensures
        be_value(s) < pow256(s.len()),
    decreases s.len(),
{
    if s.len() > 0 {
        lemma_be_value_bound(s.drop_last());
        let v = be_value(s.drop_last());
        let p = pow256((s.len() - 1) as nat);
        let b = s.last() as nat;
        assert(v * 256 + b < 256 * p) by (nonlinear_arith)
            requires
                v < p,
                b < 256,
        ;
    }
}

pub proof fn lemma_pow256_values()
    ensures
        pow256(0) == 1,
        pow256(1) == 0x100,
        pow256(2) == 0x1_0000,
        pow256(3) == 0x100_0000,
        pow256(4) == 0x1_0000_0000,
        pow256(8) == 0x1_0000_0000_0000_0000,
{
    reveal_with_fuel(pow256, 9);
}

/// Reading back the `k` bytes written for `n` gives `n`, when `n` fits in them.
pub proof fn lemma_be_round_trip(n: nat, k: nat)
    requires
        n < pow256(k),
    ensures
        be_bytes(n, k).len() == k,
        be_value(be_bytes(n, k)) == n,
    decreases k,
{
    if k > 0 {
        let p = pow256((k - 1) as nat);
        assert(n / 256 < p) by (nonlinear_arith)
            requires
                n < 256 * p,
        ;
        lemma_be_round_trip(n / 256, (k - 1) as nat);
        assert(be_bytes(n, k).drop_last() == be_bytes(n / 256, (k - 1) as nat));
    }
}

pub proof fn lemma_pow256_monotonic(a: nat, b: nat)
    requires
        a <= b,
    ensures
        pow256(a) <= pow256(b),
    decreases b,
{
    if a < b {
        lemma_pow256_monotonic(a, (b - 1) as nat);
    }
}

/// Little-endian value, unfolded from the low byte.
pub proof fn lemma_le_value_cons(b: u8, rest: Seq<u8>)
    ensures
        le_value(seq![b] + rest) == b + 256 * le_value(rest),
    decreases rest.len(),
{
    let t = seq![b] + rest;
    if rest.len() == 0 {
        assert(t.drop_last() =~= Seq::<u8>::empty());
        assert(pow256(0) == 1);
        assert(le_value(t) == le_value(t.drop_last()) + pow256(0) * (b as nat));
    } else {
        assert(t.drop_last() =~= seq![b] + rest.drop_last());
        lemma_le_value_cons(b, rest.drop_last());
        let p = pow256((rest.len() - 1) as nat);
        let l = le_value(rest.drop_last());
        let x = rest.last() as nat;
        assert(b + 256 * l + (256 * p) * x == b + 256 * (l + p * x)) by (nonlinear_arith);
        assert(pow256(rest.len()) == 256 * p);
        assert(t.last() == rest.last());
        assert(le_value(t) == le_value(t.drop_last()) + pow256(rest.len()) * x);
        assert(le_value(rest) == l + p * x);
    }
}

/// `n` bytes hold a number under `256^n`.
pub proof fn lemma_le_value_bound(s: Seq<u8>)
    ensures
        le_value(s) < pow256(s.len()),
    decreases s.len(),
{
    if s.len() > 0 {
        lemma_le_value_bound(s.drop_last());
        let p = pow256((s.len() - 1) as nat);
        let l = le_value(s.drop_last());
        let x = s.last() as nat;
        assert(l + p * x < 256 * p) by (nonlinear_arith)
            requires
                l < p,
                x < 256,
        ;
    }
}

/// A high byte that is not zero makes the number at least `256^(n-1)`.
pub proof fn lemma_le_value_high(s: Seq<u8>)
    requires
        s.len() > 0,
        s.last() != 0,
    ensures
        le_value(s) >= pow256((s.len() - 1) as nat),
{
    let p = pow256((s.len() - 1) as nat);
    let x = s.last() as nat;
    assert(p * x >= p) by (nonlinear_arith)
        requires
            x >= 1,
    ;
}

/// A high zero byte adds nothing.
pub proof fn lemma_le_value_high_zero(s: Seq<u8>)
    requires
        s.len() > 0,
        s.last() == 0,
    ensures
        le_value(s) == le_value(s.drop_last()),
{
}

/// The shortest bytes of `m` spell `m`.
pub proof fn lemma_le_bytes_value(m: nat)
    ensures
        le_value(le_bytes(m)) == m,
    decreases m,
{
    if m > 0 {
        lemma_le_bytes_value(m / 256);
        lemma_le_value_cons((m % 256) as u8, le_bytes(m / 256));
    }
}

/// Bytes without a high zero byte are the shortest bytes of their value.
pub proof fn lemma_le_bytes_canonical(s: Seq<u8>)
    requires
        s.len() == 0 || s.last() != 0,
    ensures
        le_bytes(le_value(s)) == s,
    decreases s.len(),
{
    if s.len() > 0 {
        let rest = s.drop_first();
        assert(s =~= seq![s[0]] + rest);
        lemma_le_value_cons(s[0], rest);
        lemma_le_value_high(s);
        lemma_pow256_positive((s.len() - 1) as nat);
        let m = le_value(s);
        assert(m % 256 == s[0] as nat && m / 256 == le_value(rest)) by (nonlinear_arith)
            requires
                m == s[0] as nat + 256 * le_value(rest),
                s[0] < 256,
        ;
        if rest.len() > 0 {
            assert(rest.last() == s.last());
        }
        lemma_le_bytes_canonical(rest);
        assert(le_bytes(m) =~= seq![(m % 256) as u8] + le_bytes(m / 256));
    }
}

/// Relies on byteorder's `BigEndian::read_uint`: the first `k` bytes of `b`,
/// most significant first. It asserts `1 <= k <= 8` and `k <= b.len()`.
#[verifier::external_body]
pub fn read_be(b: &[u8], k: usize) -> (r: u64)
    requires
        1 <= k <= 8,
        k <= b@.len(),
    ensures
        r == be_value(b@.subrange(0, k as int)),
{
    BigEndian::read_uint(b, k)
}

/// Relies on byteorder's `BigEndian::write_uint`: `n` as `k` bytes, most
/// significant first. It asserts that `n` fits in `k` bytes and `k <= 8`.
#[verifier::external_body]
pub fn write_be(n: u64, k: usize) -> (r: Vec<u8>)
    requires
        1 <= k <= 8,
        n < pow256(k as nat),
    ensures
        r@ == be_bytes(n as nat, k as nat),
{
    let mut buf = vec![0u8; k];
    BigEndian::write_uint(&mut buf, n, k);
    buf
}

} // verus!
