//! Rounded-up fractional powers of machine integers, computed exactly.
//!
//! `ceil(k ^ (p / q))` is the least `h` with `h ^ q >= k ^ p`. The powers do
//! not fit a machine word, so they are held as little-endian limbs.

use vstd::prelude::*;

verus! {

/// `b` to the power `e`.
pub open spec fn power(b: nat, e: nat) -> nat
    decreases e,
{
    if e == 0 {
        1
    } else {
        b * power(b, (e - 1) as nat)
    }
}

/// The base of the limbs: 2^64.
pub open spec fn radix() -> nat {
    0x1_0000_0000_0000_0000
}

/// Limb `j` of `l`, and 0 beyond its end.
pub open spec fn limb(l: Seq<u64>, j: int) -> nat {
    if 0 <= j < l.len() {
        l[j] as nat
    } else {
        0
    }
}

/// The number that the first `i` limbs of `l` stand for.
pub open spec fn value_upto(l: Seq<u64>, i: nat) -> nat
    decreases i,
{
    if i == 0 {
        0
    } else {
        value_upto(l, (i - 1) as nat) + limb(l, i - 1) * power(radix(), (i - 1) as nat)
    }
}

/// The number that the limbs of `l` stand for.
pub open spec fn value(l: Seq<u64>) -> nat {
    value_upto(l, l.len())
}

/// `h` is `ceil(k ^ (p / q))`: the least number whose `q`-th power reaches `k ^ p`.
pub open spec fn is_ceil_root(k: nat, p: nat, q: nat, h: nat) -> bool {
    &&& power(h, q) >= power(k, p)
    &&& h == 0 || power((h - 1) as nat, q) < power(k, p)
}

/// `ceil(k ^ (p / q))`.
pub open spec fn ceil_root_of(k: nat, p: nat, q: nat) -> nat {
    choose|h: nat| is_ceil_root(k, p, q, h)
}

/// `i` limbs stand for a number below the `i`-th power of the radix.
pub proof fn lemma_value_bound(l: Seq<u64>, i: nat)
    ensures
        value_upto(l, i) < power(radix(), i),
    decreases i,
{
    if i > 0 {
        lemma_value_bound(l, (i - 1) as nat);
        let w = power(radix(), (i - 1) as nat);
        let d = limb(l, i - 1);
        assert(d * w + w <= radix() * w) by (nonlinear_arith)
            requires d + 1 <= radix(), w >= 0;
    }
}

/// Limbs beyond the end add nothing.
pub proof fn lemma_value_padding(l: Seq<u64>, n: nat)
    requires
        n >= l.len(),
    ensures
        value_upto(l, n) == value(l),
    decreases n,
{
    if n > l.len() {
        lemma_value_padding(l, (n - 1) as nat);
        assert(limb(l, n - 1) * power(radix(), (n - 1) as nat) == 0) by (nonlinear_arith)
            requires limb(l, n - 1) == 0;
    }
}

/// Sequences with the same limbs below `i` stand for the same number up to `i`.
pub proof fn lemma_value_agree(a: Seq<u64>, b: Seq<u64>, i: nat)
    requires
        forall|j: int| 0 <= j < i ==> limb(a, j) == limb(b, j),
    ensures
        value_upto(a, i) == value_upto(b, i),
    decreases i,
{
    if i > 0 {
        lemma_value_agree(a, b, (i - 1) as nat);
    }
}

/// A power grows with its base.
pub proof fn lemma_power_monotone(a: nat, b: nat, e: nat)
    requires
        a <= b,
    ensures
        power(a, e) <= power(b, e),
    decreases e,
{
    if e > 0 {
        lemma_power_monotone(a, b, (e - 1) as nat);
        assert(a * power(a, (e - 1) as nat) <= b * power(b, (e - 1) as nat)) by (nonlinear_arith)
            requires a <= b, power(a, (e - 1) as nat) <= power(b, (e - 1) as nat);
    }
}

/// With a base of at least one, a power grows with its exponent.
pub proof fn lemma_power_exponent(b: nat, e1: nat, e2: nat)
    requires
        b >= 1,
        e1 <= e2,
    ensures
        1 <= power(b, e1) <= power(b, e2),
    decreases e2,
{
    if e1 > 0 {
        lemma_power_exponent(b, (e1 - 1) as nat, (e2 - 1) as nat);
        assert(b * power(b, (e1 - 1) as nat) <= b * power(b, (e2 - 1) as nat)) by (nonlinear_arith)
            requires power(b, (e1 - 1) as nat) <= power(b, (e2 - 1) as nat);
        assert(b * power(b, (e1 - 1) as nat) >= 1) by (nonlinear_arith)
            requires b >= 1, power(b, (e1 - 1) as nat) >= 1;
    } else if e2 > 0 {
        lemma_power_exponent(b, 0, (e2 - 1) as nat);
        assert(b * power(b, (e2 - 1) as nat) >= 1) by (nonlinear_arith)
            requires b >= 1, power(b, (e2 - 1) as nat) >= 1;
    }
}

/// The rounded-up root is unique.
pub proof fn lemma_ceil_root_unique(k: nat, p: nat, q: nat, h1: nat, h2: nat)
    requires
        is_ceil_root(k, p, q, h1),
        is_ceil_root(k, p, q, h2),
    ensures
        h1 == h2,
{
    if h1 < h2 {
        lemma_power_monotone(h1, (h2 - 1) as nat, q);
    } else if h2 < h1 {
        lemma_power_monotone(h2, (h1 - 1) as nat, q);
    }
}

proof fn lemma_mul_step(vo: nat, c: nat, va: nat, ai: nat, m: nat, lo: nat, hi: nat, w: nat)
    requires
        vo + c * w == va * m,
        ai * m + c == lo + hi * radix(),
    ensures
        (vo + lo * w) + hi * (radix() * w) == (va + ai * w) * m,
{
    assert((vo + lo * w) + hi * (radix() * w) == vo + (lo + hi * radix()) * w) by (nonlinear_arith);
    assert((va + ai * w) * m == va * m + (ai * m) * w) by (nonlinear_arith);
    assert((ai * m + c) * w == (ai * m) * w + c * w) by (nonlinear_arith);
}

/// The product of a limb sequence and one limb.
pub fn mul_small(a: &Vec<u64>, m: u64) -> (r: Vec<u64>)
    ensures
        value(r@) == value(a@) * m,
        r@.len() == a@.len() + 1,
{
    let n = a.len();
    let mut out: Vec<u64> = Vec::new();
    let mut carry: u128 = 0;
    let mut i: usize = 0;
    while i < n
        invariant
            i <= n,
            n == a@.len(),
            out@.len() == i,
            carry < radix(),
            value_upto(out@, i as nat) + carry * power(radix(), i as nat)
                == value_upto(a@, i as nat) * m,
        decreases n - i,
    {
        let ai = a[i];
        assert(ai * m + carry <= u128::MAX) by (nonlinear_arith)
            requires ai < 0x1_0000_0000_0000_0000, m < 0x1_0000_0000_0000_0000, carry < 0x1_0000_0000_0000_0000;
        let t: u128 = (ai as u128) * (m as u128) + carry;
        let lo: u64 = (t % 0x1_0000_0000_0000_0000u128) as u64;
        let hi: u128 = t / 0x1_0000_0000_0000_0000u128;
        let ghost before = out@;
        out.push(lo);
        proof {
            let w = power(radix(), i as nat);
            assert(t == lo + hi * radix());
            lemma_mul_step(value_upto(before, i as nat), carry as nat, value_upto(a@, i as nat), ai as nat, m as nat, lo as nat, hi as nat, w);
            lemma_value_agree(before, out@, i as nat);
            assert(limb(out@, i as int) == lo);
            assert(limb(a@, i as int) == ai);
        }
        carry = hi;
        i += 1;
    }
    let ghost before = out@;
    out.push(carry as u64);
    proof {
        lemma_value_agree(before, out@, n as nat);
        assert(limb(out@, n as int) == carry);
    }
    out
}

/// `b ^ e`, as limbs.
pub fn wide_power(b: u64, e: usize) -> (r: Vec<u64>)
    ensures
        value(r@) == power(b as nat, e as nat),
{
    let mut acc: Vec<u64> = Vec::new();
    acc.push(1);
    assert(value(acc@) == 1) by {
        assert(value_upto(acc@, 0) == 0);
        assert(limb(acc@, 0) == 1);
        assert(power(radix(), 0) == 1);
    }
    let mut i: usize = 0;
    while i < e
        invariant
            i <= e,
            value(acc@) == power(b as nat, i as nat),
        decreases e - i,
    {
        acc = mul_small(&acc, b);
        assert(power(b as nat, (i + 1) as nat) == b * power(b as nat, i as nat));
        assert(value(acc@) == power(b as nat, (i + 1) as nat)) by (nonlinear_arith)
            requires
                value(acc@) == power(b as nat, i as nat) * b,
                power(b as nat, (i + 1) as nat) == b * power(b as nat, i as nat);
        i += 1;
    }
    acc
}

/// Whether the first limb sequence stands for the smaller number.
pub fn wide_less(a: &Vec<u64>, b: &Vec<u64>) -> (r: bool)
    ensures
        r == (value(a@) < value(b@)),
{
    let n = if a.len() >= b.len() { a.len() } else { b.len() };
    proof {
        lemma_value_padding(a@, n as nat);
        lemma_value_padding(b@, n as nat);
    }
    let mut i: usize = n;
    while i > 0
        invariant
            i <= n,
            value_upto(a@, n as nat) == value(a@),
            value_upto(b@, n as nat) == value(b@),
            value_upto(a@, n as nat) - value_upto(a@, i as nat)
                == value_upto(b@, n as nat) - value_upto(b@, i as nat),
        decreases i,
    {
        i -= 1;
        let x: u64 = if i < a.len() { a[i] } else { 0 };
        let y: u64 = if i < b.len() { b[i] } else { 0 };
        proof {
            lemma_value_bound(a@, i as nat);
            lemma_value_bound(b@, i as nat);
            assert(x == limb(a@, i as int));
            assert(y == limb(b@, i as int));
            let w = power(radix(), i as nat);
            if x < y {
                assert(x * w + w <= y * w) by (nonlinear_arith)
                    requires x + 1 <= y, w >= 0;
            }
            if y < x {
                assert(y * w + w <= x * w) by (nonlinear_arith)
                    requires y + 1 <= x, w >= 0;
            }
        }
        if x < y {
            return true;
        }
        if x > y {
            return false;
        }
    }
    false
}

/// `ceil(k ^ (p / q))` for an exponent of at most one.
pub fn ceil_root(k: usize, p: usize, q: usize) -> (h: usize)
    requires
        1 <= p <= q,
    ensures
        is_ceil_root(k as nat, p as nat, q as nat, h as nat),
        h == ceil_root_of(k as nat, p as nat, q as nat),
        h <= k,
{
    let target = wide_power(k as u64, p);
    let mut lo: usize = 0;
    let mut hi: usize = k;
    proof {
        if k >= 1 {
            lemma_power_exponent(k as nat, p as nat, q as nat);
        } else {
            assert(power(0, q as nat) == 0);
            assert(power(0, p as nat) == 0);
        }
    }
    while lo < hi
        invariant
            lo <= hi <= k,
            value(target@) == power(k as nat, p as nat),
            power(hi as nat, q as nat) >= power(k as nat, p as nat),
            lo == 0 || power((lo - 1) as nat, q as nat) < power(k as nat, p as nat),
        decreases hi - lo,
    {
        let mid = lo + (hi - lo) / 2;
        let probe = wide_power(mid as u64, q);
        if wide_less(&probe, &target) {
            lo = mid + 1;
        } else {
            hi = mid;
        }
    }
    proof {
        assert(is_ceil_root(k as nat, p as nat, q as nat, lo as nat));
        lemma_ceil_root_unique(k as nat, p as nat, q as nat, lo as nat, ceil_root_of(k as nat, p as nat, q as nat));
    }
    lo
}

} // verus!
