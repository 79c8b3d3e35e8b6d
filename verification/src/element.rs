//! Elements, their exact accumulators, and the bounded alphabets they are
//! drawn from.
use crate::arith::{cong, lemma_cong_shift};
use core::marker::PhantomData;
use vstd::prelude::*;

verus! {

/// A word that holds an exact running total, as an integer modulo its extent.
pub trait Accumulator: Copy {
    /// The total held.
    spec fn value(self) -> int;

    /// The extent of the word: totals are kept modulo this.
    spec fn modulus() -> int;

    /// A word holds the totals of one symmetric window of its extent.
    proof fn ranged(self)
        ensures
            Self::modulus() > 0,
            -Self::modulus() <= 2 * self.value() < Self::modulus(),
    ;

    /// Every total of the window has a word.
    proof fn spans(v: int)
        requires
            -Self::modulus() <= 2 * v < Self::modulus(),
        ensures
            exists|acc: Self| acc.value() == v,
    ;

    /// A word is told by its total.
    proof fn told_by_value(self, other: Self)
        requires
            self.value() == other.value(),
        ensures
            self == other,
    ;

    /// The empty total.
    fn zero() -> (r: Self)
        ensures
            r.value() == 0,
    ;

    /// The sum of two totals.
    fn combine(self, other: Self) -> (r: Self)
        ensures
            cong(r.value(), self.value() + other.value(), Self::modulus()),
    ;

    /// The total as a `u64`, modulo `2^64`.
    fn low_bits(self) -> (r: u64)
        ensures
            cong(r as int, self.value(), 0x1_0000_0000_0000_0000),
    ;

    /// The total plus `addend`, clamped into `low ..= high`.
    fn clamped_sum(self, addend: i64, low: i64, high: i64) -> (r: i64)
        requires
            low <= high,
        ensures
            r == clamped(self.value() + addend, low as int, high as int),
    ;
}

/// The nearest number of `low ..= high`.
pub open spec fn clamped(v: int, low: int, high: int) -> int {
    if v < low {
        low
    } else if v > high {
        high
    } else {
        v
    }
}

/// A number that products are taken of.
pub trait Element: Copy {
    /// The accumulator that holds any reduction of this element exactly.
    type Acc: Accumulator;

    /// The number.
    spec fn val(self) -> int;

    /// The largest magnitude of the type.
    spec fn reach() -> nat;

    /// What one unit of a product graded at `exponent` is worth.
    spec fn weight(exponent: i32) -> int;

    /// No element exceeds the reach of its type.
    proof fn bounded(self)
        ensures
            -Self::reach() <= self.val() <= Self::reach(),
    ;

    /// The accumulator holds a reduction of any length exactly.
    proof fn roomy()
        ensures
            2 * (usize::MAX * (Self::reach() * Self::reach())) < Self::Acc::modulus(),
            Self::reach() < u128::MAX,
    ;

    /// The additive identity.
    fn zero() -> (r: Self)
        ensures
            r.val() == 0,
    ;

    /// The magnitude.
    fn magnitude(self) -> (r: u128)
        ensures
            r == if self.val() < 0 {
                -self.val()
            } else {
                self.val()
            },
    ;

    /// The largest magnitude of the type.
    fn full() -> (r: u128)
        ensures
            r == Self::reach(),
    ;

    /// Adds the product of two elements to a total.
    fn mac(acc: &mut Self::Acc, a: Self, b: Self)
        ensures
            cong(
                final(acc).value(),
                old(acc).value() + a.val() * b.val(),
                Self::Acc::modulus(),
            ),
    ;

    /// A fingerprint; equal elements have equal fingerprints.
    spec fn fingerprint(self) -> u64;

    /// The fingerprint.
    fn digest(self) -> (r: u64)
        ensures
            r == self.fingerprint(),
    ;

    /// Whether two elements are the same.
    fn same(self, other: Self) -> (r: bool)
        ensures
            r == (self == other),
    ;
}

/// A declared magnitude bound.
pub trait Bound: Copy {
    /// The declared magnitude; the largest `u128` declares none.
    spec fn bound() -> nat;

    /// The declared magnitude.
    fn value() -> (r: u128)
        ensures
            r == Self::bound(),
    ;
}

/// The bound that the element type itself gives.
#[derive(Debug)]
pub struct Full<E> {
    of: PhantomData<E>,
}

impl<E> Copy for Full<E> {

}

impl<E> Clone for Full<E> {
    fn clone(&self) -> (r: Self)
        ensures
            r == *self,
    {
        *self
    }
}

impl<E: Element> Bound for Full<E> {
    open spec fn bound() -> nat {
        E::reach()
    }

    fn value() -> (r: u128) {
        E::full()
    }
}

/// No declared bound.
#[derive(Debug)]
pub struct Whole<E> {
    of: PhantomData<E>,
}

impl<E> Copy for Whole<E> {

}

impl<E> Clone for Whole<E> {
    fn clone(&self) -> (r: Self)
        ensures
            r == *self,
    {
        *self
    }
}

impl<E: Element> Bound for Whole<E> {
    open spec fn bound() -> nat {
        u128::MAX as nat
    }

    fn value() -> (r: u128) {
        u128::MAX
    }
}

/// The bound `N`.
#[derive(Clone, Copy, Debug)]
pub struct Bnd<const N: u128>;

impl<const N: u128> Bound for Bnd<N> {
    open spec fn bound() -> nat {
        N as nat
    }

    fn value() -> (r: u128) {
        N
    }
}

/// An element within a declared bound.
#[derive(Debug)]
pub struct Alphabet<E, Bd> {
    value: E,
    bound: PhantomData<Bd>,
}

impl<E: Copy, Bd> Copy for Alphabet<E, Bd> {

}

impl<E: Copy, Bd> Clone for Alphabet<E, Bd> {
    fn clone(&self) -> (r: Self)
        ensures
            r == *self,
    {
        *self
    }
}

impl<E: Element, Bd: Bound> Alphabet<E, Bd> {
    /// The element.
    pub closed spec fn element(self) -> E {
        self.value
    }

    /// The number.
    pub open spec fn val(self) -> int {
        self.element().val()
    }

    /// The element is within the bound.
    pub open spec fn inv(self) -> bool {
        -Bd::bound() <= self.val() <= Bd::bound()
    }

    /// The element as a member of the alphabet, where the bound admits it.
    pub fn new(value: E) -> (r: Option<Self>)
        ensures
            r is Some <==> -Bd::bound() <= value.val() <= Bd::bound(),
            r is Some ==> r->0.element() == value && r->0.inv(),
    {
        if value.magnitude() <= Bd::value() {
            Some(Alphabet { value, bound: PhantomData })
        } else {
            None
        }
    }

    /// The element.
    pub fn get(self) -> (r: E)
        ensures
            r == self.element(),
    {
        self.value
    }
}

impl<E: Element> Alphabet<E, Full<E>> {
    /// Any element is within the bound of its own type.
    pub fn of(value: E) -> (r: Self)
        ensures
            r.element() == value,
            r.inv(),
    {
        proof {
            value.bounded();
        }
        Alphabet { value, bound: PhantomData }
    }
}

impl Accumulator for i128 {
    open spec fn value(self) -> int {
        self as int
    }

    open spec fn modulus() -> int {
        0x1_0000_0000_0000_0000_0000_0000_0000_0000int
    }

    proof fn ranged(self) {
    }

    proof fn spans(v: int) {
        assert((v as i128).value() == v);
    }

    proof fn told_by_value(self, other: Self) {
    }

    fn zero() -> (r: Self) {
        0
    }

    fn combine(self, other: Self) -> (r: Self) {
        let r: i128 = self.wrapping_add(other);
        proof {
            lemma_wrapped(self + other, r as int, Self::modulus());
        }
        r
    }

    fn low_bits(self) -> (r: u64) {
        let radix: u128 = 0x1_0000_0000_0000_0000;
        if self >= 0 {
            let low: u128 = (self as u128) % radix;
            proof {
                let q = (self as int) / (radix as int);
                assert(low as int == self + (-q) * (radix as int)) by (nonlinear_arith)
                    requires
                        self as int == (radix as int) * q + low,
                ;
                lemma_cong_shift(self as int, -q, radix as int);
            }
            low as u64
        } else {
            let mirror: u128 = (-(self + 1)) as u128;
            let low: u64 = (mirror % radix) as u64;
            let r: u64 = u64::MAX - low;
            proof {
                let q = (mirror as int) / (radix as int);
                assert(r as int == self + (q + 1) * (radix as int)) by (nonlinear_arith)
                    requires
                        mirror as int == (radix as int) * q + low,
                        mirror as int == -(self + 1),
                        r as int == radix - 1 - low,
                ;
                lemma_cong_shift(self as int, q + 1, radix as int);
            }
            r
        }
    }

    fn clamped_sum(self, addend: i64, low: i64, high: i64) -> (r: i64) {
        if self > 0x1_0000_0000_0000_0000 {
            high
        } else if self < -0x1_0000_0000_0000_0000 {
            low
        } else {
            let v: i128 = self + (addend as i128);
            if v < (low as i128) {
                low
            } else if v > (high as i128) {
                high
            } else {
                v as i64
            }
        }
    }
}

/// A sum that wrapped at most once is congruent to the sum.
pub proof fn lemma_wrapped(exact: int, wrapped: int, m: int)
    requires
        m > 0,
        wrapped == exact || wrapped == exact - m || wrapped == exact + m,
    ensures
        cong(wrapped, exact, m),
{
    if wrapped == exact {
        lemma_cong_shift(exact, 0, m);
    } else if wrapped == exact - m {
        lemma_cong_shift(exact, -1, m);
    } else {
        lemma_cong_shift(exact, 1, m);
    }
}

impl Element for i8 {
    type Acc = i128;

    open spec fn val(self) -> int {
        self as int
    }

    open spec fn reach() -> nat {
        128
    }

    open spec fn weight(exponent: i32) -> int {
        1
    }

    proof fn bounded(self) {
    }

    proof fn roomy() {
    }

    fn zero() -> (r: Self) {
        0
    }

    fn magnitude(self) -> (r: u128) {
        if self < 0 {
            (-(self as i128)) as u128
        } else {
            self as u128
        }
    }

    fn full() -> (r: u128) {
        128
    }

    fn mac(acc: &mut i128, a: Self, b: Self) {
        assert(-0x8000 <= a * b <= 0x8000) by (nonlinear_arith)
            requires
                -128 <= a <= 127,
                -128 <= b <= 127,
        ;
        let product: i128 = (a as i128) * (b as i128);
        *acc = acc.combine(product);
    }

    open spec fn fingerprint(self) -> u64 {
        (self + 128) as u64
    }

    fn digest(self) -> (r: u64) {
        ((self as i64) + 128) as u64
    }

    fn same(self, other: Self) -> (r: bool) {
        self == other
    }
}

impl Element for i16 {
    type Acc = i128;

    open spec fn val(self) -> int {
        self as int
    }

    open spec fn reach() -> nat {
        32768
    }

    open spec fn weight(exponent: i32) -> int {
        1
    }

    proof fn bounded(self) {
    }

    proof fn roomy() {
    }

    fn zero() -> (r: Self) {
        0
    }

    fn magnitude(self) -> (r: u128) {
        if self < 0 {
            (-(self as i128)) as u128
        } else {
            self as u128
        }
    }

    fn full() -> (r: u128) {
        32768
    }

    fn mac(acc: &mut i128, a: Self, b: Self) {
        assert(-0x8000_0000 <= a * b <= 0x8000_0000) by (nonlinear_arith)
            requires
                -0x8000 <= a <= 0x7fff,
                -0x8000 <= b <= 0x7fff,
        ;
        let product: i128 = (a as i128) * (b as i128);
        *acc = acc.combine(product);
    }

    open spec fn fingerprint(self) -> u64 {
        (self + 32768) as u64
    }

    fn digest(self) -> (r: u64) {
        ((self as i64) + 32768) as u64
    }

    fn same(self, other: Self) -> (r: bool) {
        self == other
    }
}

impl Element for i32 {
    type Acc = i128;

    open spec fn val(self) -> int {
        self as int
    }

    open spec fn reach() -> nat {
        0x8000_0000
    }

    open spec fn weight(exponent: i32) -> int {
        1
    }

    proof fn bounded(self) {
    }

    proof fn roomy() {
    }

    fn zero() -> (r: Self) {
        0
    }

    fn magnitude(self) -> (r: u128) {
        if self < 0 {
            (-(self as i128)) as u128
        } else {
            self as u128
        }
    }

    fn full() -> (r: u128) {
        0x8000_0000
    }

    fn mac(acc: &mut i128, a: Self, b: Self) {
        assert(-0x4000_0000_0000_0000 <= a * b <= 0x4000_0000_0000_0000) by (nonlinear_arith)
            requires
                -0x8000_0000 <= a <= 0x7fff_ffff,
                -0x8000_0000 <= b <= 0x7fff_ffff,
        ;
        let product: i128 = (a as i128) * (b as i128);
        *acc = acc.combine(product);
    }

    open spec fn fingerprint(self) -> u64 {
        (self + 0x8000_0000) as u64
    }

    fn digest(self) -> (r: u64) {
        ((self as i64) + 0x8000_0000) as u64
    }

    fn same(self, other: Self) -> (r: bool) {
        self == other
    }
}

} // verus!
