//! What becomes of an exact total: how it is encoded and whether the old cell
//! takes part.
use crate::arith::cong;
use crate::element::{clamped, Accumulator, Element};
use vstd::arithmetic::power2::pow2;
use vstd::prelude::*;

verus! {

/// How a total that the output cannot hold is encoded.
#[derive(Clone, Copy, PartialEq, Eq, Debug, Structural)]
pub enum EncodeMode {
    /// The nearest number of the output type.
    Nearest,
    /// The nearest number toward zero.
    TowardZero,
    /// The nearest end of the output's range.
    Saturating,
    /// The total modulo the extent of the output word.
    Wrapping,
}

/// A cell of the product.
pub trait Output: Copy {
    /// Bits of the cell.
    spec fn width_bits() -> nat;

    /// Bits of the cell.
    fn bits() -> (r: u32)
        ensures
            r == Self::width_bits(),
    ;

    /// The cell stands for zero.
    spec fn is_zero(self) -> bool;

    /// A cell to fill.
    fn zero() -> (r: Self)
        ensures
            r.is_zero(),
    ;
}

/// The last step of a product: from the exact total of a cell to the cell.
pub trait Epilogue<E: Element, O: Output> {
    /// The old cell takes part.
    spec fn reads(&self) -> bool;

    /// The cell that a total becomes.
    spec fn finished(&self, total: int, prior: Option<O>, mode: EncodeMode) -> O;

    /// Wrapping looks at a total only modulo the extent of the cell.
    proof fn wraps(&self, x: int, y: int, prior: Option<O>)
        requires
            cong(x, y, pow2(O::width_bits()) as int),
        ensures
            self.finished(x, prior, EncodeMode::Wrapping) == self.finished(
                y,
                prior,
                EncodeMode::Wrapping,
            ),
    ;

    /// Whether the old cell takes part.
    fn reads_c(&self) -> (r: bool)
        ensures
            r == self.reads(),
    ;

    /// The cell that a total becomes.
    fn finish(&self, acc: E::Acc, prior: Option<O>, mode: EncodeMode) -> (r: O)
        ensures
            r == self.finished(acc.value(), prior, mode),
    ;
}

/// An output that is a signed integer of at most 64 bits.
pub trait IntegerOutput: Output {
    /// The number.
    spec fn number(self) -> int;

    /// The cell of a number in range.
    spec fn from_number(n: int) -> Self;

    /// The bits of the cell are few enough to be read through a `u64`.
    proof fn narrow()
        ensures
            1 <= Self::width_bits() <= 64,
    ;

    /// Cells and the numbers of their range are one and the same.
    proof fn cells_and_numbers(self, n: int)
        ensures
            -pow2((Self::width_bits() - 1) as nat) <= self.number() < pow2(
                (Self::width_bits() - 1) as nat,
            ),
            -pow2((Self::width_bits() - 1) as nat) <= n < pow2((Self::width_bits() - 1) as nat)
                ==> Self::from_number(n).number() == n,
    ;

    /// The number.
    fn to_i64(self) -> (r: i64)
        ensures
            r == self.number(),
    ;

    /// The least and the greatest number.
    fn range() -> (r: (i64, i64))
        ensures
            r.0 == -(half(Self::width_bits())),
            r.1 == half(Self::width_bits()) - 1,
    ;

    /// The cell of a number in range.
    fn of_i64(n: i64) -> (r: Self)
        requires
            -(half(Self::width_bits())) <= n < half(Self::width_bits()),
        ensures
            r == Self::from_number(n as int),
    ;

    /// The cell of the number of `bits` modulo the extent of the cell.
    fn of_bits(bits: u64) -> (r: Self)
        ensures
            r == Self::from_number(wrapped(bits as int, Self::width_bits())),
    ;
}

/// Half the extent of a word of `bits` bits.
pub open spec fn half(bits: nat) -> int {
    pow2((bits - 1) as nat) as int
}

/// The number of a signed word of `bits` bits that is congruent to `v`.
pub open spec fn wrapped(v: int, bits: nat) -> int {
    let m = pow2(bits) as int;
    if v % m >= half(bits) {
        v % m - m
    } else {
        v % m
    }
}

/// A total encoded as an integer cell.
pub open spec fn encoded<O: IntegerOutput>(total: int, mode: EncodeMode) -> O {
    if mode == EncodeMode::Wrapping {
        O::from_number(wrapped(total, O::width_bits()))
    } else {
        O::from_number(
            clamped(total, -(half(O::width_bits())), half(O::width_bits()) - 1),
        )
    }
}

/// Plain matrix products.
#[derive(Clone, Copy, PartialEq, Eq, Debug, Structural)]
pub enum Linear {
    /// `C = AB`.
    Overwrite,
    /// `C = C + AB`.
    Accumulate,
}

/// Congruence modulo a power of two is kept by a smaller power.
pub proof fn lemma_cong_pow2(x: int, y: int, fine: nat, coarse: nat)
    requires
        coarse <= fine,
        cong(x, y, pow2(fine) as int),
    ensures
        cong(x, y, pow2(coarse) as int),
{
    vstd::arithmetic::power2::lemma_pow2_pos(coarse);
    vstd::arithmetic::power2::lemma_pow2_pos((fine - coarse) as nat);
    vstd::arithmetic::power2::lemma_pow2_adds(coarse, (fine - coarse) as nat);
    crate::arith::lemma_cong_coarser(
        x,
        y,
        pow2(coarse) as int,
        pow2((fine - coarse) as nat) as int,
    );
}

/// Congruent numbers wrap alike.
pub proof fn lemma_wrapped_cong(x: int, y: int, bits: nat)
    requires
        cong(x, y, pow2(bits) as int),
    ensures
        wrapped(x, bits) == wrapped(y, bits),
{
    vstd::arithmetic::power2::lemma_pow2_pos(bits);
    vstd::arithmetic::div_mod::lemma_mod_equivalence(x, y, pow2(bits) as int);
}

impl<E: Element, O: IntegerOutput> Epilogue<E, O> for Linear {
    open spec fn reads(&self) -> bool {
        *self == Linear::Accumulate
    }

    open spec fn finished(&self, total: int, prior: Option<O>, mode: EncodeMode) -> O {
        match prior {
            Some(c) if *self == Linear::Accumulate => encoded(total + c.number(), mode),
            _ => encoded(total, mode),
        }
    }

    proof fn wraps(&self, x: int, y: int, prior: Option<O>) {
        let m = pow2(O::width_bits()) as int;
        vstd::arithmetic::power2::lemma_pow2_pos(O::width_bits());
        if *self == Linear::Accumulate && prior is Some {
            let c = prior->0.number();
            crate::arith::lemma_cong_refl(c, m);
            crate::arith::lemma_cong_add(x, y, c, c, m);
            lemma_wrapped_cong(x + c, y + c, O::width_bits());
        } else {
            lemma_wrapped_cong(x, y, O::width_bits());
        }
    }

    fn reads_c(&self) -> (r: bool) {
        *self == Linear::Accumulate
    }

    fn finish(&self, acc: E::Acc, prior: Option<O>, mode: EncodeMode) -> (r: O) {
        let addend: i64 = match prior {
            Some(c) => if *self == Linear::Accumulate {
                c.to_i64()
            } else {
                0
            },
            None => 0,
        };
        if mode == EncodeMode::Wrapping {
            let low: u64 = acc.low_bits();
            let bits: u64 = low.wrapping_add_signed(addend);
            proof {
                O::narrow();
                let m = 0x1_0000_0000_0000_0000int;
                vstd::arithmetic::power2::lemma2_to64();
                crate::element::lemma_wrapped(low + addend, bits as int, m);
                crate::arith::lemma_cong_refl(addend as int, m);
                crate::arith::lemma_cong_add(
                    low as int,
                    acc.value(),
                    addend as int,
                    addend as int,
                    m,
                );
                crate::arith::lemma_cong_trans(
                    bits as int,
                    low + addend,
                    acc.value() + addend,
                    m,
                );
                vstd::arithmetic::power2::lemma2_to64_rest();
                assert(pow2(64) == m);
                lemma_cong_pow2(bits as int, acc.value() + addend, 64, O::width_bits());
                lemma_wrapped_cong(bits as int, acc.value() + addend, O::width_bits());
            }
            O::of_bits(bits)
        } else {
            let (low, high): (i64, i64) = O::range();
            proof {
                O::narrow();
                vstd::arithmetic::power2::lemma_pow2_pos((O::width_bits() - 1) as nat);
            }
            O::of_i64(acc.clamped_sum(addend, low, high))
        }
    }
}

impl Output for i8 {
    open spec fn width_bits() -> nat {
        8
    }

    fn bits() -> (r: u32) {
        8
    }

    open spec fn is_zero(self) -> bool {
        self == 0
    }

    fn zero() -> (r: Self) {
        0
    }
}

impl IntegerOutput for i8 {
    open spec fn number(self) -> int {
        self as int
    }

    open spec fn from_number(n: int) -> Self {
        n as i8
    }

    proof fn narrow() {
    }

    proof fn cells_and_numbers(self, n: int) {
        vstd::arithmetic::power2::lemma2_to64();
        vstd::arithmetic::power2::lemma2_to64_rest();
    }

    fn to_i64(self) -> (r: i64) {
        self as i64
    }

    fn range() -> (r: (i64, i64)) {
        proof {
            vstd::arithmetic::power2::lemma2_to64();
        }
        (-0x80, 0x7f)
    }

    fn of_i64(n: i64) -> (r: Self) {
        proof {
            vstd::arithmetic::power2::lemma2_to64();
        }
        n as i8
    }

    fn of_bits(bits: u64) -> (r: Self) {
        proof {
            vstd::arithmetic::power2::lemma2_to64();
        }
        let low: u64 = bits % 0x100;
        if low >= 0x80 {
            ((low as i64) - 0x100) as i8
        } else {
            low as i8
        }
    }
}

impl Output for i16 {
    open spec fn width_bits() -> nat {
        16
    }

    fn bits() -> (r: u32) {
        16
    }

    open spec fn is_zero(self) -> bool {
        self == 0
    }

    fn zero() -> (r: Self) {
        0
    }
}

impl IntegerOutput for i16 {
    open spec fn number(self) -> int {
        self as int
    }

    open spec fn from_number(n: int) -> Self {
        n as i16
    }

    proof fn narrow() {
    }

    proof fn cells_and_numbers(self, n: int) {
        vstd::arithmetic::power2::lemma2_to64();
        vstd::arithmetic::power2::lemma2_to64_rest();
    }

    fn to_i64(self) -> (r: i64) {
        self as i64
    }

    fn range() -> (r: (i64, i64)) {
        proof {
            vstd::arithmetic::power2::lemma2_to64();
        }
        (-0x8000, 0x7fff)
    }

    fn of_i64(n: i64) -> (r: Self) {
        proof {
            vstd::arithmetic::power2::lemma2_to64();
        }
        n as i16
    }

    fn of_bits(bits: u64) -> (r: Self) {
        proof {
            vstd::arithmetic::power2::lemma2_to64();
        }
        let low: u64 = bits % 0x1_0000;
        if low >= 0x8000 {
            ((low as i64) - 0x1_0000) as i16
        } else {
            low as i16
        }
    }
}

impl Output for i32 {
    open spec fn width_bits() -> nat {
        32
    }

    fn bits() -> (r: u32) {
        32
    }

    open spec fn is_zero(self) -> bool {
        self == 0
    }

    fn zero() -> (r: Self) {
        0
    }
}

impl IntegerOutput for i32 {
    open spec fn number(self) -> int {
        self as int
    }

    open spec fn from_number(n: int) -> Self {
        n as i32
    }

    proof fn narrow() {
    }

    proof fn cells_and_numbers(self, n: int) {
        vstd::arithmetic::power2::lemma2_to64();
        vstd::arithmetic::power2::lemma2_to64_rest();
    }

    fn to_i64(self) -> (r: i64) {
        self as i64
    }

    fn range() -> (r: (i64, i64)) {
        proof {
            vstd::arithmetic::power2::lemma2_to64();
        }
        (-0x8000_0000, 0x7fff_ffff)
    }

    fn of_i64(n: i64) -> (r: Self) {
        proof {
            vstd::arithmetic::power2::lemma2_to64();
        }
        n as i32
    }

    fn of_bits(bits: u64) -> (r: Self) {
        proof {
            vstd::arithmetic::power2::lemma2_to64();
        }
        let low: u64 = bits % 0x1_0000_0000;
        if low >= 0x8000_0000 {
            ((low as i64) - 0x1_0000_0000) as i32
        } else {
            low as i32
        }
    }
}

impl Output for i64 {
    open spec fn width_bits() -> nat {
        64
    }

    fn bits() -> (r: u32) {
        64
    }

    open spec fn is_zero(self) -> bool {
        self == 0
    }

    fn zero() -> (r: Self) {
        0
    }
}

impl IntegerOutput for i64 {
    open spec fn number(self) -> int {
        self as int
    }

    open spec fn from_number(n: int) -> Self {
        n as i64
    }

    proof fn narrow() {
    }

    proof fn cells_and_numbers(self, n: int) {
        vstd::arithmetic::power2::lemma2_to64();
        vstd::arithmetic::power2::lemma2_to64_rest();
    }

    fn to_i64(self) -> (r: i64) {
        self
    }

    fn range() -> (r: (i64, i64)) {
        proof {
            vstd::arithmetic::power2::lemma2_to64_rest();
        }
        (i64::MIN, i64::MAX)
    }

    fn of_i64(n: i64) -> (r: Self) {
        n
    }

    fn of_bits(bits: u64) -> (r: Self) {
        proof {
            vstd::arithmetic::power2::lemma2_to64_rest();
            assert(bits as int % 0x1_0000_0000_0000_0000 == bits);
        }
        if bits >= 0x8000_0000_0000_0000 {
            -((u64::MAX - bits) as i64) - 1
        } else {
            bits as i64
        }
    }
}

} // verus!
