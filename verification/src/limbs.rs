//! A three-limb accumulator: the exact total of any reduction of 64-bit
//! integers.
use crate::arith::{cong, lemma_cong_shift};
use crate::element::{Accumulator, Element};
use vstd::prelude::*;

verus! {

/// The limbs read as an unsigned number, least limb first.
pub open spec fn unsigned(limbs: [u64; 3]) -> int {
    limbs[0] + limbs[1] * 0x1_0000_0000_0000_0000int + limbs[2]
        * 0x1_0000_0000_0000_0000_0000_0000_0000_0000int
}

/// The extent of three limbs.
pub open spec fn extent() -> int {
    0x1_0000_0000_0000_0000_0000_0000_0000_0000_0000_0000_0000_0000int
}

/// The top limb has its sign place set.
pub open spec fn negative(limbs: [u64; 3]) -> bool {
    limbs[2] >= 0x8000_0000_0000_0000
}

proof fn lemma_window(limbs: [u64; 3])
    ensures
        0 <= unsigned(limbs) < extent(),
        negative(limbs) <==> 2 * unsigned(limbs) >= extent(),
{
}

/// A signed total as three limbs.
fn limbs_of(total: i128) -> (r: [u64; 3])
    ensures
        cong(unsigned(r), total as int, extent()),
        negative(r) <==> total < 0,
{
    let step: u128 = 0x1_0000_0000_0000_0000;
    if total >= 0 {
        let t: u128 = total as u128;
        let limbs: [u64; 3] = [(t % step) as u64, (t / step) as u64, 0];
        proof {
            assert(unsigned(limbs) == total);
            lemma_cong_shift(total as int, 0, extent());
        }
        limbs
    } else {
        let mirror: u128 = (-(total + 1)) as u128;
        let low: u64 = (mirror % step) as u64;
        let high: u64 = (mirror / step) as u64;
        let limbs: [u64; 3] = [u64::MAX - low, u64::MAX - high, u64::MAX];
        proof {
            assert(unsigned(limbs) == total + extent());
            lemma_cong_shift(total as int, 1, extent());
        }
        limbs
    }
}

impl Accumulator for [u64; 3] {
    open spec fn value(self) -> int {
        if negative(self) {
            unsigned(self) - extent()
        } else {
            unsigned(self)
        }
    }

    open spec fn modulus() -> int {
        extent()
    }

    proof fn ranged(self) {
        lemma_window(self);
    }

    proof fn spans(v: int) {
        let u = if v < 0 {
            v + extent()
        } else {
            v
        };
        let r = 0x1_0000_0000_0000_0000int;
        let (l0, l1, l2) = (u % r, (u / r) % r, (u / r) / r);
        assert(0 <= l2 < r);
        let limbs = [l0 as u64, l1 as u64, l2 as u64];
        assert(unsigned(limbs) == u);
        lemma_window(limbs);
        assert(limbs.value() == v);
    }

    proof fn told_by_value(self, other: Self) {
        lemma_window(self);
        lemma_window(other);
        assert(unsigned(self) == unsigned(other));
        assert(self[2] == other[2] && self[1] == other[1] && self[0] == other[0]);
        assert(self =~= other);
    }

    fn zero() -> (r: Self) {
        [0, 0, 0]
    }

    fn combine(self, other: Self) -> (r: Self) {
        let step: u128 = 0x1_0000_0000_0000_0000;
        let s0: u128 = (self[0] as u128) + (other[0] as u128);
        let s1: u128 = (self[1] as u128) + (other[1] as u128) + s0 / step;
        let s2: u128 = (self[2] as u128) + (other[2] as u128) + s1 / step;
        let r: [u64; 3] = [(s0 % step) as u64, (s1 % step) as u64, (s2 % step) as u64];
        proof {
            let (a, b) = (self, other);
            let (c0, c1, c2) = ((s0 / step) as int, (s1 / step) as int, (s2 / step) as int);
            assert(unsigned(r) == unsigned(a) + unsigned(b) - c2 * extent());
            let q = (if negative(a) { 1int } else { 0 }) + (if negative(b) { 1int } else { 0 }) - (
            if negative(r) { 1int } else { 0 }) - c2;
            assert(r.value() == a.value() + b.value() + q * extent());
            lemma_cong_shift(a.value() + b.value(), q, extent());
        }
        r
    }

    fn low_bits(self) -> (r: u64) {
        proof {
            let q = -(self[1] as int) - self[2] * 0x1_0000_0000_0000_0000int + (if negative(self) {
                0x1_0000_0000_0000_0000_0000_0000_0000_0000int
            } else {
                0
            });
            assert(self[0] as int == self.value() + q * 0x1_0000_0000_0000_0000int);
            lemma_cong_shift(self.value(), q, 0x1_0000_0000_0000_0000int);
        }
        self[0]
    }

    fn clamped_sum(self, addend: i64, low: i64, high: i64) -> (r: i64) {
        proof {
            lemma_window(self);
        }
        if self[2] >= 0x8000_0000_0000_0000 {
            if self[2] == u64::MAX && self[1] == u64::MAX {
                let v: i128 = -((u64::MAX - self[0]) as i128) - 1;
                assert(v == self.value());
                v.clamped_sum(addend, low, high)
            } else {
                assert(self.value() < -0x1_0000_0000_0000_0000);
                low
            }
        } else {
            if self[2] == 0 && self[1] == 0 {
                let v: i128 = self[0] as i128;
                assert(v == self.value());
                v.clamped_sum(addend, low, high)
            } else {
                assert(self.value() >= 0x1_0000_0000_0000_0000);
                high
            }
        }
    }
}

impl Element for i64 {
    type Acc = [u64; 3];

    open spec fn val(self) -> int {
        self as int
    }

    open spec fn reach() -> nat {
        0x8000_0000_0000_0000
    }

    open spec fn weight(exponent: i32) -> int {
        1
    }

    proof fn bounded(self) {
    }

    proof fn roomy() {
    }

    fn zero() -> (r: Self) {
        0
    }

    fn magnitude(self) -> (r: u128) {
        if self < 0 {
            (-(self as i128)) as u128
        } else {
            self as u128
        }
    }

    fn full() -> (r: u128) {
        0x8000_0000_0000_0000
    }

    fn mac(acc: &mut [u64; 3], a: Self, b: Self) {
        assert(-0x4000_0000_0000_0000_0000_0000_0000_0000 <= a * b
            <= 0x4000_0000_0000_0000_0000_0000_0000_0000) by (nonlinear_arith)
            requires
                -0x8000_0000_0000_0000 <= a <= 0x7fff_ffff_ffff_ffff,
                -0x8000_0000_0000_0000 <= b <= 0x7fff_ffff_ffff_ffff,
        ;
        let product: [u64; 3] = product_limbs(a, b);
        let ghost before = *acc;
        *acc = acc.combine(product);
        proof {
            crate::arith::lemma_cong_refl(before.value(), extent());
            crate::arith::lemma_cong_add(
                before.value(),
                before.value(),
                product.value(),
                a * b,
                extent(),
            );
            crate::arith::lemma_cong_trans(
                acc.value(),
                before.value() + product.value(),
                before.value() + a * b,
                extent(),
            );
        }
    }

    open spec fn fingerprint(self) -> u64 {
        (self + 0x8000_0000_0000_0000) as u64
    }

    fn digest(self) -> (r: u64) {
        ((self as i128) + 0x8000_0000_0000_0000) as u64
    }

    fn same(self, other: Self) -> (r: bool) {
        self == other
    }
}

/// The product of two 64-bit integers as a total.
pub fn product_limbs(a: i64, b: i64) -> (r: [u64; 3])
    ensures
        r.value() == a * b,
{
    assert(-0x4000_0000_0000_0000_0000_0000_0000_0000 <= a * b
        <= 0x4000_0000_0000_0000_0000_0000_0000_0000) by (nonlinear_arith)
        requires
            -0x8000_0000_0000_0000 <= a <= 0x7fff_ffff_ffff_ffff,
            -0x8000_0000_0000_0000 <= b <= 0x7fff_ffff_ffff_ffff,
    ;
    let product: i128 = (a as i128) * (b as i128);
    let r: [u64; 3] = limbs_of(product);
    proof {
        lemma_window(r);
        lemma_cong_shift(r.value(), if negative(r) { 1 } else { 0 }, extent());
        if negative(r) {
            crate::arith::lemma_cong_sym(unsigned(r), r.value(), extent());
            crate::arith::lemma_cong_trans(r.value(), unsigned(r), product as int, extent());
        }
        r.ranged();
        crate::arith::lemma_cong_close(r.value(), product as int, extent());
    }
    r
}

} // verus!
