//! Grades: the common bases of two panels and how large a step between them
//! can be.
use vstd::arithmetic::power2::pow2;
use vstd::prelude::*;

verus! {

/// The bases that two panels are graded at, and the largest magnitude of a
/// product so graded.
#[derive(Clone, Copy, PartialEq, Eq, Debug, Structural)]
pub struct LaneScale {
    pub base_a: i32,
    pub base_b: i32,
    pub per_step: u128,
}

/// `v`, or one more than `cap` where `v` is larger than `cap`.
pub open spec fn within(v: int, cap: int) -> int {
    if v <= cap {
        v
    } else {
        cap + 1
    }
}

/// The square of a bound, or the largest `u128`.
pub open spec fn square_of(bound: int) -> u128 {
    if bound * bound > u128::MAX {
        u128::MAX
    } else {
        (bound * bound) as u128
    }
}

impl LaneScale {
    /// The scale of integers: no grade, and the square of the bound per step.
    pub fn integral(bound: u128) -> (r: Self)
        ensures
            r == (LaneScale { base_a: 0, base_b: 0, per_step: square_of(bound as int) }),
    {
        assert(bound * bound >= 0) by (nonlinear_arith);
        let per_step: u128 = match bound.checked_mul(bound) {
            Some(square) => square,
            None => u128::MAX,
        };
        LaneScale { base_a: 0, base_b: 0, per_step }
    }

    /// The sum of two grades, at the ends of the range where it overflows.
    pub open spec fn grade(self) -> i32 {
        if self.base_a + self.base_b > i32::MAX {
            i32::MAX
        } else if self.base_a + self.base_b < i32::MIN {
            i32::MIN
        } else {
            (self.base_a + self.base_b) as i32
        }
    }

    /// The grade of a product.
    pub fn exponent(&self) -> (r: i32)
        ensures
            r == self.grade(),
    {
        match self.base_a.checked_add(self.base_b) {
            Some(sum) => sum,
            None => if self.base_a > 0 {
                i32::MAX
            } else {
                i32::MIN
            },
        }
    }
}

/// Doubles a bound, stopping past the cap.
pub fn doubled_within(bound: u128, times: u32, cap: u128) -> (r: u128)
    requires
        cap < u128::MAX,
        bound <= cap,
    ensures
        r == within(bound * pow2(times as nat), cap as int),
{
    let mut r: u128 = bound;
    let mut done: u32 = 0;
    proof {
        vstd::arithmetic::power2::lemma2_to64();
        assert(bound * pow2(0) == bound) by (nonlinear_arith)
            requires
                pow2(0) == 1,
        ;
    }
    while done < times
        invariant
            done <= times,
            cap < u128::MAX,
            r <= cap,
            r == bound * pow2(done as nat),
        decreases times - done,
    {
        proof {
            let (p, b) = (pow2(done as nat) as int, bound as int);
            vstd::arithmetic::power2::lemma_pow2_unfold((done + 1) as nat);
            assert(b * (2 * p) == 2 * (b * p)) by (nonlinear_arith);
            if 2 * r > cap {
                let rest = pow2((times - done - 1) as nat) as int;
                vstd::arithmetic::power2::lemma_pow2_pos((times - done - 1) as nat);
                vstd::arithmetic::power2::lemma_pow2_adds(
                    (done + 1) as nat,
                    (times - done - 1) as nat,
                );
                assert(b * (2 * p * rest) >= 2 * (b * p)) by (nonlinear_arith)
                    requires
                        rest >= 1,
                        b >= 0,
                        p >= 0,
                ;
            }
        }
        if r > cap - r {
            return cap + 1;
        }
        r = r + r;
        done = done + 1;
    }
    r
}

/// The bound of a step graded at `local`, regraded at `call`: doubled once for
/// each grade that the local bases lie above those of the call, and one more
/// than the cap where it passes the cap or the bases do not lie above.
pub open spec fn regraded(local: LaneScale, call: LaneScale, cap: int) -> int {
    let (a, b) = (local.base_a - call.base_a, local.base_b - call.base_b);
    if local.per_step > cap || !(0 <= a <= i32::MAX) || !(0 <= b <= i32::MAX) {
        cap + 1
    } else {
        within(local.per_step * pow2((a + b) as nat), cap)
    }
}

/// The bound of a step graded at `local`, regraded at `call`.
pub fn regrade_envelope(local: LaneScale, call: LaneScale, cap: u128) -> (r: u128)
    requires
        cap < u128::MAX,
    ensures
        r == regraded(local, call, cap as int),
{
    let singleton: u128 = cap + 1;
    if local.per_step > cap {
        return singleton;
    }
    let a: i32 = match local.base_a.checked_sub(call.base_a) {
        None => {
            return singleton;
        },
        Some(a) => a,
    };
    let b: i32 = match local.base_b.checked_sub(call.base_b) {
        None => {
            return singleton;
        },
        Some(b) => b,
    };
    if a < 0 || b < 0 {
        return singleton;
    }
    let distance: u32 = (a as u32) + (b as u32);
    doubled_within(local.per_step, distance, cap)
}

} // verus!
