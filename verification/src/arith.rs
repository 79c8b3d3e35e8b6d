//! Integer facts shared by the rest of the crate: congruence, finite sums,
//! saturation, and the least power of two above a number.
use vstd::prelude::*;

verus! {

/// `x` and `y` differ by a multiple of `m`.
pub open spec fn cong(x: int, y: int, m: int) -> bool {
    (x - y) % m == 0
}

pub proof fn lemma_cong_add(x1: int, y1: int, x2: int, y2: int, m: int)
    requires
        m > 0,
        cong(x1, y1, m),
        cong(x2, y2, m),
    ensures
        cong(x1 + x2, y1 + y2, m),
{
    vstd::arithmetic::div_mod::lemma_mod_adds(x1 - y1, x2 - y2, m);
    assert((x1 - y1) + (x2 - y2) == (x1 + x2) - (y1 + y2));
    let s = (x1 - y1) + (x2 - y2);
    assert(((x1 - y1) % m + (x2 - y2) % m) == s % m + m * (((x1 - y1) % m + (x2 - y2) % m) / m));
    assert(s % m == 0) by {
        vstd::arithmetic::div_mod::lemma_add_mod_noop(x1 - y1, x2 - y2, m);
    }
}

pub proof fn lemma_cong_refl(x: int, m: int)
    requires
        m > 0,
    ensures
        cong(x, x, m),
{
    vstd::arithmetic::div_mod::lemma_mod_multiples_basic(0, m);
}

pub proof fn lemma_cong_trans(x: int, y: int, z: int, m: int)
    requires
        m > 0,
        cong(x, y, m),
        cong(y, z, m),
    ensures
        cong(x, z, m),
{
    lemma_cong_add(x, y, y, z, m);
    assert((x + y) - (y + z) == x - z);
}

pub proof fn lemma_cong_sym(x: int, y: int, m: int)
    requires
        m > 0,
        cong(x, y, m),
    ensures
        cong(y, x, m),
{
    vstd::arithmetic::div_mod::lemma_fundamental_div_mod(x - y, m);
    let q = (x - y) / m;
    assert(y - x == (-q) * m) by (nonlinear_arith)
        requires
            x - y == m * q,
    ;
    vstd::arithmetic::div_mod::lemma_mod_multiples_basic(-q, m);
}

/// A multiple of `m` added to `y` leaves its class.
pub proof fn lemma_cong_shift(y: int, q: int, m: int)
    requires
        m > 0,
    ensures
        cong(y + q * m, y, m),
{
    vstd::arithmetic::div_mod::lemma_mod_multiples_basic(q, m);
}

pub proof fn lemma_cong_mul(x: int, y: int, c: int, m: int)
    requires
        m > 0,
        cong(x, y, m),
    ensures
        cong(x * c, y * c, m),
{
    vstd::arithmetic::div_mod::lemma_fundamental_div_mod(x - y, m);
    let q = (x - y) / m;
    assert(x * c - y * c == (q * c) * m) by (nonlinear_arith)
        requires
            x - y == m * q,
    ;
    vstd::arithmetic::div_mod::lemma_mod_multiples_basic(q * c, m);
}

/// Two numbers of one class that lie closer than the modulus are equal.
pub proof fn lemma_cong_close(x: int, y: int, m: int)
    requires
        m > 0,
        cong(x, y, m),
        -m < x - y < m,
    ensures
        x == y,
{
    vstd::arithmetic::div_mod::lemma_fundamental_div_mod(x - y, m);
    let q = (x - y) / m;
    assert(q == 0) by (nonlinear_arith)
        requires
            x - y == m * q,
            -m < x - y < m,
            m > 0,
    ;
    assert(m * q == 0);
}

/// A class modulo `m * c` determines the class modulo `m`.
pub proof fn lemma_cong_coarser(x: int, y: int, m: int, c: int)
    requires
        m > 0,
        c > 0,
        cong(x, y, m * c),
    ensures
        cong(x, y, m),
{
    assert(m * c > 0) by (nonlinear_arith)
        requires
            m > 0,
            c > 0,
    ;
    vstd::arithmetic::div_mod::lemma_fundamental_div_mod(x - y, m * c);
    let q = (x - y) / (m * c);
    assert(x - y == (c * q) * m) by (nonlinear_arith)
        requires
            x - y == (m * c) * q,
    ;
    vstd::arithmetic::div_mod::lemma_mod_multiples_basic(c * q, m);
}

/// The sum of `f` over `lo <= i < hi`.
pub open spec fn sum(f: spec_fn(int) -> int, lo: int, hi: int) -> int
    decreases hi - lo,
{
    if hi <= lo {
        0
    } else {
        sum(f, lo, hi - 1) + f(hi - 1)
    }
}

pub proof fn lemma_sum_ext(f: spec_fn(int) -> int, g: spec_fn(int) -> int, lo: int, hi: int)
    requires
        forall|i: int| lo <= i < hi ==> #[trigger] f(i) == g(i),
    ensures
        sum(f, lo, hi) == sum(g, lo, hi),
    decreases hi - lo,
{
    if hi > lo {
        lemma_sum_ext(f, g, lo, hi - 1);
    }
}

pub proof fn lemma_sum_split(f: spec_fn(int) -> int, lo: int, mid: int, hi: int)
    requires
        lo <= mid <= hi,
    ensures
        sum(f, lo, hi) == sum(f, lo, mid) + sum(f, mid, hi),
    decreases hi - mid,
{
    if hi > mid {
        lemma_sum_split(f, lo, mid, hi - 1);
    }
}

/// A sum is unchanged by moving its window along with the index.
pub proof fn lemma_sum_shift(f: spec_fn(int) -> int, g: spec_fn(int) -> int, by: int, lo: int, hi: int)
    requires
        forall|i: int| lo <= i < hi ==> #[trigger] f(i) == g(i + by),
    ensures
        sum(f, lo, hi) == sum(g, lo + by, hi + by),
    decreases hi - lo,
{
    if hi > lo {
        lemma_sum_shift(f, g, by, lo, hi - 1);
        assert(f(hi - 1) == g(hi - 1 + by));
    }
}

/// A sum of terms of magnitude at most `b` has magnitude at most `b` per term.
pub proof fn lemma_sum_bound(f: spec_fn(int) -> int, lo: int, hi: int, b: int)
    requires
        lo <= hi,
        forall|i: int| lo <= i < hi ==> -b <= #[trigger] f(i) <= b,
    ensures
        -((hi - lo) * b) <= sum(f, lo, hi) <= (hi - lo) * b,
    decreases hi - lo,
{
    if hi > lo {
        lemma_sum_bound(f, lo, hi - 1, b);
        assert((hi - lo) * b == (hi - 1 - lo) * b + b) by (nonlinear_arith);
    } else {
        assert((hi - lo) * b == 0) by (nonlinear_arith)
            requires
                hi == lo,
        ;
    }
}

pub proof fn lemma_sum_scale(f: spec_fn(int) -> int, g: spec_fn(int) -> int, c: int, lo: int, hi: int)
    requires
        forall|i: int| lo <= i < hi ==> #[trigger] f(i) == g(i) * c,
    ensures
        sum(f, lo, hi) == sum(g, lo, hi) * c,
    decreases hi - lo,
{
    if hi > lo {
        lemma_sum_scale(f, g, c, lo, hi - 1);
        assert((sum(g, lo, hi - 1) + g(hi - 1)) * c == sum(g, lo, hi - 1) * c + g(hi - 1) * c)
            by (nonlinear_arith);
    } else {
        assert(0 * c == 0);
    }
}

/// A sum over `blocks` blocks of `width` terms is the sum of the block sums.
pub proof fn lemma_sum_blocks(f: spec_fn(int) -> int, width: int, blocks: int)
    requires
        width >= 0,
        blocks >= 0,
    ensures
        sum(f, 0, blocks * width) == sum(
            |p: int| sum(|t: int| f(p * width + t), 0, width),
            0,
            blocks,
        ),
    decreases blocks,
{
    let g = |p: int| sum(|t: int| f(p * width + t), 0, width);
    if blocks > 0 {
        lemma_sum_blocks(f, width, blocks - 1);
        let base = (blocks - 1) * width;
        assert(base >= 0 && blocks * width == base + width) by (nonlinear_arith)
            requires
                width >= 0,
                blocks > 0,
                base == (blocks - 1) * width,
        ;
        lemma_sum_split(f, 0, base, base + width);
        let h = |t: int| f((blocks - 1) * width + t);
        lemma_sum_shift(h, f, base, 0, width);
    } else {
        assert(blocks * width == 0) by (nonlinear_arith)
            requires
                blocks == 0,
        ;
    }
}

/// `x`, or the largest `usize` where `x` is larger.
pub open spec fn sat(x: int) -> usize {
    if x > usize::MAX {
        usize::MAX
    } else {
        x as usize
    }
}

/// The product, or the largest `usize`.
pub fn sat_mul(a: usize, b: usize) -> (r: usize)
    ensures
        r == sat(a * b),
{
    assert(a * b >= 0) by (nonlinear_arith);
    match a.checked_mul(b) {
        Some(p) => p,
        None => usize::MAX,
    }
}

/// The quotient rounded up.
pub open spec fn ceil_div(a: int, b: int) -> int {
    (a + b - 1) / b
}

/// The quotient rounded up.
pub fn div_ceil(a: usize, b: usize) -> (r: usize)
    requires
        b > 0,
    ensures
        r == ceil_div(a as int, b as int),
        r <= a,
        r * b >= a,
        a > 0 ==> (r - 1) * b < a,
{
    let q: usize = a / b;
    let rest: usize = a % b;
    proof {
        vstd::arithmetic::div_mod::lemma_fundamental_div_mod(a as int, b as int);
        if rest == 0 {
            assert(a + b - 1 == b * q + (b - 1));
            vstd::arithmetic::div_mod::lemma_fundamental_div_mod_converse(
                a + b - 1,
                b as int,
                q as int,
                b - 1,
            );
        } else {
            assert(b * (q + 1) == b * q + b) by (nonlinear_arith);
            vstd::arithmetic::div_mod::lemma_fundamental_div_mod_converse(
                a + b - 1,
                b as int,
                q + 1,
                rest - 1,
            );
        }
        assert(q * b == b * q) by (nonlinear_arith);
        assert((q + 1) * b == b * q + b) by (nonlinear_arith);
        assert((q - 1) * b == b * q - b) by (nonlinear_arith);
        assert(b * q >= q) by (nonlinear_arith)
            requires
                b >= 1,
                q >= 0,
        ;
    }
    if rest == 0 {
        q
    } else {
        q + 1
    }
}

/// The least power of two that is at least `p` and at least `n`, for a power
/// of two `p`.
pub open spec fn ceil_pow2_from(n: nat, p: nat) -> nat
    decreases (if p >= n { 0 } else { n - p }),
{
    if p == 0 || p >= n {
        p
    } else {
        ceil_pow2_from(n, 2 * p)
    }
}

/// The least power of two that is at least `n`.
pub open spec fn ceil_pow2(n: nat) -> nat {
    ceil_pow2_from(n, 1)
}

/// `x` is a power of two.
pub open spec fn is_pow2(x: int) -> bool {
    exists|e: nat| x == #[trigger] vstd::arithmetic::power2::pow2(e)
}

pub proof fn lemma_double_pow2(x: int)
    requires
        is_pow2(x),
    ensures
        is_pow2(2 * x),
        x > 0,
{
    let e = choose|e: nat| x == #[trigger] vstd::arithmetic::power2::pow2(e);
    vstd::arithmetic::power2::lemma_pow2_pos(e);
    vstd::arithmetic::power2::lemma_pow2_unfold(e + 1);
    assert(2 * x == vstd::arithmetic::power2::pow2(e + 1));
}

pub proof fn lemma_ceil_pow2_from(n: nat, p: nat)
    requires
        is_pow2(p as int),
        p > 1 ==> p < 2 * n,
    ensures
        is_pow2(ceil_pow2_from(n, p) as int),
        ceil_pow2_from(n, p) >= n,
        ceil_pow2_from(n, p) >= p,
        ceil_pow2_from(n, p) > 1 ==> ceil_pow2_from(n, p) < 2 * n,
    decreases (if p >= n { 0 } else { n - p }),
{
    lemma_double_pow2(p as int);
    if p < n {
        lemma_ceil_pow2_from(n, 2 * p);
    }
}

/// The least power of two above a number is a power of two, is at least the
/// number, and is less than twice it.
pub proof fn lemma_ceil_pow2(n: nat)
    ensures
        is_pow2(ceil_pow2(n) as int),
        ceil_pow2(n) >= n,
        ceil_pow2(n) >= 1,
        ceil_pow2(n) > 1 ==> ceil_pow2(n) < 2 * n,
{
    vstd::arithmetic::power2::lemma2_to64();
    assert(1 == vstd::arithmetic::power2::pow2(0));
    assert(is_pow2(1));
    lemma_ceil_pow2_from(n, 1);
}

/// The least power of two that is at least `n`, where it fits.
pub fn next_power_of_two(n: usize) -> (r: Option<usize>)
    ensures
        ceil_pow2(n as nat) <= usize::MAX ==> r == Some(ceil_pow2(n as nat) as usize),
        ceil_pow2(n as nat) > usize::MAX ==> r is None,
{
    let mut p: usize = 1;
    while p < n
        invariant
            p >= 1,
            ceil_pow2(n as nat) == ceil_pow2_from(n as nat, p as nat),
        decreases (if p >= n { 0 } else { n - p }),
    {
        match p.checked_mul(2) {
            Some(next) => {
                p = next;
            },
            None => {
                proof {
                    lemma_ceil_at_least(n as nat, 2 * p as nat);
                }
                return None;
            },
        }
    }
    Some(p)
}

pub proof fn lemma_ceil_at_least(n: nat, p: nat)
    ensures
        ceil_pow2_from(n, p) >= p,
    decreases (if p >= n { 0 } else { n - p }),
{
    if p != 0 && p < n {
        lemma_ceil_at_least(n, 2 * p);
    }
}

} // verus!
