//! Lanes: the narrow words that table entries and running columns are kept in.
use crate::arith::{cong, lemma_cong_add, lemma_cong_refl, lemma_cong_shift, lemma_cong_trans, sat};
use crate::element::{lemma_wrapped, Accumulator, Element};
use crate::limbs::product_limbs;
use vstd::prelude::*;

verus! {

/// Products of magnitude at most `bound * bound` that a lane of magnitude
/// `cap` takes; none is owed where the lane has no such limit.
pub open spec fn capacity_of(cap: Option<nat>, bound: int) -> Option<usize> {
    match cap {
        None => None,
        Some(c) => if bound == 0 {
            Some(usize::MAX)
        } else {
            Some(sat(c as int / (bound * bound)))
        },
    }
}

/// A word that a table is made of.
pub trait LaneWord: Copy {
    /// The word of the empty sum.
    spec fn blank() -> Self;

    /// The word of the empty sum.
    fn zero() -> (r: Self)
        ensures
            r == Self::blank(),
    ;
}

impl LaneWord for i32 {
    open spec fn blank() -> Self {
        0
    }

    fn zero() -> (r: Self) {
        0
    }
}

impl LaneWord for i64 {
    open spec fn blank() -> Self {
        0
    }

    fn zero() -> (r: Self) {
        0
    }
}

impl LaneWord for i128 {
    open spec fn blank() -> Self {
        0
    }

    fn zero() -> (r: Self) {
        0
    }
}

impl LaneWord for [u64; 3] {
    open spec fn blank() -> Self {
        [0, 0, 0]
    }

    fn zero() -> (r: Self) {
        [0, 0, 0]
    }
}

/// A word that sums products of `E`, modulo its extent.
pub trait Lane<E: Element>: LaneWord {
    /// The integer the word holds.
    spec fn word(self) -> int;

    /// The extent of the word: sums are kept modulo this.
    spec fn extent() -> int;

    /// The magnitude up to which the word is read back exactly, where that is
    /// less than any reduction reaches.
    spec fn cap() -> Option<nat>;

    /// A sum that placing the word into an accumulator carries over.
    spec fn holds(v: int) -> bool;

    /// The modulus up to which placing a word carries its sum over.
    spec fn precision() -> int;

    /// Bytes of the word.
    spec fn width() -> nat;

    /// What the other members promise each other.
    proof fn laws()
        ensures
            Self::blank().word() == 0,
            Self::extent() > 0,
            Self::precision() > 0,
            E::Acc::modulus() % Self::precision() == 0,
            Self::cap() matches Some(c) ==> forall|v: int| -c <= v <= c
                ==> #[trigger] Self::holds(v),
            Self::cap() is None ==> forall|v: int|
                -(usize::MAX * (E::reach() * E::reach())) <= v <= usize::MAX * (E::reach()
                    * E::reach()) ==> #[trigger] Self::holds(v),
    ;

    /// Bytes of the word.
    fn bytes() -> (r: usize)
        ensures
            r == Self::width(),
    ;

    /// Products at a declared bound that one word takes.
    fn capacity(bound: u128) -> (r: Option<usize>)
        ensures
            r == capacity_of(Self::cap(), bound as int),
    ;

    /// The sum of two words.
    fn plus(self, other: Self) -> (r: Self)
        ensures
            cong(r.word(), self.word() + other.word(), Self::extent()),
    ;

    /// Adds one product.
    fn mac(self, a: E, b: E) -> (r: Self)
        ensures
            cong(r.word(), self.word() + a.val() * b.val(), Self::extent()),
    ;

    /// Adds the word to a total.
    fn place(self, acc: E::Acc) -> (r: E::Acc)
        ensures
            forall|v: int|
                #![trigger Self::holds(v)]
                cong(self.word(), v, Self::extent()) && Self::holds(v) ==> cong(
                    r.value(),
                    acc.value() + v,
                    Self::precision(),
                ),
    ;

    /// Adds the word to a total, at the grade `exponent`.
    fn place_scaled(self, acc: E::Acc, exponent: i32) -> (r: E::Acc)
        ensures
            forall|v: int|
                #![trigger Self::holds(v)]
                cong(self.word(), v, Self::extent()) && Self::holds(v) ==> cong(
                    r.value(),
                    acc.value() + v * E::weight(exponent),
                    Self::precision(),
                ),
    ;
}

/// The exact products that a lane of magnitude `cap` takes.
fn narrow_capacity(cap: u64, bound: u128) -> (r: Option<usize>)
    ensures
        r == capacity_of(Some(cap as nat), bound as int),
{
    if bound == 0 {
        return Some(usize::MAX);
    }
    assert(bound * bound >= 1) by (nonlinear_arith)
        requires
            bound >= 1,
    ;
    if bound > 0xffff_ffff {
        proof {
            assert(bound * bound > cap) by (nonlinear_arith)
                requires
                    bound >= 0x1_0000_0000,
                    cap <= 0xffff_ffff_ffff_ffff,
            ;
            vstd::arithmetic::div_mod::lemma_basic_div(cap as int, bound * bound);
        }
        return Some(0);
    }
    assert(bound * bound <= 0xffff_fffe_0000_0001) by (nonlinear_arith)
        requires
            0 <= bound <= 0xffff_ffff,
    ;
    let square: u128 = bound * bound;
    let steps: u128 = (cap as u128) / square;
    if steps > (usize::MAX as u128) {
        Some(usize::MAX)
    } else {
        Some(steps as usize)
    }
}

/// Placing a word whose sum it holds exactly.
proof fn lemma_placed(total: int, acc: int, word: int, v: int, extent: int, narrow: int)
    requires
        extent > 0,
        narrow > 0,
        cong(total, acc + word, extent),
        cong(word, v, narrow),
        -narrow < word - v < narrow,
    ensures
        cong(total, acc + v, extent),
{
    crate::arith::lemma_cong_close(word, v, narrow);
}

impl Lane<i8> for i32 {
    open spec fn word(self) -> int {
        self as int
    }

    open spec fn extent() -> int {
        0x1_0000_0000
    }

    open spec fn cap() -> Option<nat> {
        Some(0x7fff_ffff)
    }

    open spec fn holds(v: int) -> bool {
        -0x8000_0000 <= v <= 0x7fff_ffff
    }

    open spec fn precision() -> int {
        <i128 as Accumulator>::modulus()
    }

    open spec fn width() -> nat {
        4
    }

    proof fn laws() {
    }

    fn bytes() -> (r: usize) {
        4
    }

    fn capacity(bound: u128) -> (r: Option<usize>) {
        narrow_capacity(0x7fff_ffff, bound)
    }

    fn plus(self, other: Self) -> (r: Self) {
        let r: i32 = self.wrapping_add(other);
        proof {
            lemma_wrapped(self + other, r as int, 0x1_0000_0000);
        }
        r
    }

    fn mac(self, a: i8, b: i8) -> (r: Self) {
        assert(-0x8000 <= a * b <= 0x8000) by (nonlinear_arith)
            requires
                -128 <= a <= 127,
                -128 <= b <= 127,
        ;
        let product: i32 = (a as i32) * (b as i32);
        let r: i32 = self.wrapping_add(product);
        proof {
            lemma_wrapped(self + product, r as int, 0x1_0000_0000);
        }
        r
    }

    fn place(self, acc: i128) -> (r: i128) {
        let r: i128 = acc.combine(self as i128);
        proof {
            assert forall|v: int| cong(self as int, v, 0x1_0000_0000) && -0x8000_0000 <= v
                <= 0x7fff_ffff implies cong(r.value(), acc.value() + v, i128::modulus()) by {
                lemma_placed(r as int, acc as int, self as int, v, i128::modulus(), 0x1_0000_0000);
            }
        }
        r
    }

    fn place_scaled(self, acc: i128, exponent: i32) -> (r: i128) {
        let r: i128 = <i32 as Lane<i8>>::place(self, acc);
        proof {
            assert forall|v: int| cong(self as int, v, 0x1_0000_0000) && <i32 as Lane<i8>>::holds(
                v,
            ) implies cong(
                r.value(),
                acc.value() + v * <i8 as Element>::weight(exponent),
                i128::modulus(),
            ) by {
                assert(v * 1 == v);
            }
        }
        r
    }
}

impl Lane<i16> for i64 {
    open spec fn word(self) -> int {
        self as int
    }

    open spec fn extent() -> int {
        0x1_0000_0000_0000_0000
    }

    open spec fn cap() -> Option<nat> {
        Some(0x7fff_ffff_ffff_ffff)
    }

    open spec fn holds(v: int) -> bool {
        -0x8000_0000_0000_0000 <= v <= 0x7fff_ffff_ffff_ffff
    }

    open spec fn precision() -> int {
        <i128 as Accumulator>::modulus()
    }

    open spec fn width() -> nat {
        8
    }

    proof fn laws() {
    }

    fn bytes() -> (r: usize) {
        8
    }

    fn capacity(bound: u128) -> (r: Option<usize>) {
        narrow_capacity(0x7fff_ffff_ffff_ffff, bound)
    }

    fn plus(self, other: Self) -> (r: Self) {
        let r: i64 = self.wrapping_add(other);
        proof {
            lemma_wrapped(self + other, r as int, 0x1_0000_0000_0000_0000);
        }
        r
    }

    fn mac(self, a: i16, b: i16) -> (r: Self) {
        assert(-0x8000_0000 <= a * b <= 0x8000_0000) by (nonlinear_arith)
            requires
                -0x8000 <= a <= 0x7fff,
                -0x8000 <= b <= 0x7fff,
        ;
        let product: i64 = (a as i64) * (b as i64);
        let r: i64 = self.wrapping_add(product);
        proof {
            lemma_wrapped(self + product, r as int, 0x1_0000_0000_0000_0000);
        }
        r
    }

    fn place(self, acc: i128) -> (r: i128) {
        let r: i128 = acc.combine(self as i128);
        proof {
            assert forall|v: int| cong(self as int, v, 0x1_0000_0000_0000_0000)
                && -0x8000_0000_0000_0000 <= v <= 0x7fff_ffff_ffff_ffff implies cong(
                r.value(),
                acc.value() + v,
                i128::modulus(),
            ) by {
                lemma_placed(
                    r as int,
                    acc as int,
                    self as int,
                    v,
                    i128::modulus(),
                    0x1_0000_0000_0000_0000,
                );
            }
        }
        r
    }

    fn place_scaled(self, acc: i128, exponent: i32) -> (r: i128) {
        let r: i128 = <i64 as Lane<i16>>::place(self, acc);
        proof {
            assert forall|v: int| cong(self as int, v, 0x1_0000_0000_0000_0000) && <i64 as Lane<
                i16,
            >>::holds(v) implies cong(
                r.value(),
                acc.value() + v * <i16 as Element>::weight(exponent),
                i128::modulus(),
            ) by {
                assert(v * 1 == v);
            }
        }
        r
    }
}

/// The accumulator of 32-bit products, as a lane: it takes any reduction.
impl Lane<i32> for i128 {
    open spec fn word(self) -> int {
        self as int
    }

    open spec fn extent() -> int {
        <i128 as Accumulator>::modulus()
    }

    open spec fn cap() -> Option<nat> {
        None
    }

    open spec fn holds(v: int) -> bool {
        true
    }

    open spec fn precision() -> int {
        <i128 as Accumulator>::modulus()
    }

    open spec fn width() -> nat {
        16
    }

    proof fn laws() {
        assert(<i128 as Accumulator>::modulus() % <i128 as Accumulator>::modulus() == 0);
    }

    fn bytes() -> (r: usize) {
        16
    }

    fn capacity(bound: u128) -> (r: Option<usize>) {
        None
    }

    fn plus(self, other: Self) -> (r: Self) {
        self.combine(other)
    }

    fn mac(self, a: i32, b: i32) -> (r: Self) {
        let mut r: i128 = self;
        <i32 as Element>::mac(&mut r, a, b);
        r
    }

    fn place(self, acc: i128) -> (r: i128) {
        let r: i128 = acc.combine(self);
        proof {
            let m = i128::modulus();
            assert forall|v: int| #[trigger] <i128 as Lane<i32>>::holds(v) && cong(
                self as int,
                v,
                m,
            ) implies cong(r.value(), acc.value() + v, m) by {
                lemma_placed_same(r as int, acc as int, self as int, v, m);
            }
        }
        r
    }

    fn place_scaled(self, acc: i128, exponent: i32) -> (r: i128) {
        let r: i128 = <i128 as Lane<i32>>::place(self, acc);
        proof {
            assert forall|v: int| #[trigger] <i128 as Lane<i32>>::holds(v) && cong(
                self as int,
                v,
                i128::modulus(),
            ) implies cong(
                r.value(),
                acc.value() + v * <i32 as Element>::weight(exponent),
                i128::modulus(),
            ) by {
                assert(v * 1 == v);
            }
        }
        r
    }
}

/// Placing a word that is as wide as the total.
pub proof fn lemma_placed_same(total: int, acc: int, word: int, v: int, m: int)
    requires
        m > 0,
        cong(total, acc + word, m),
        cong(word, v, m),
    ensures
        cong(total, acc + v, m),
{
    lemma_cong_refl(acc, m);
    lemma_cong_add(acc, acc, word, v, m);
    lemma_cong_trans(total, acc + word, acc + v, m);
}

/// Placing a word that is only kept modulo a divisor of the total's extent.
proof fn lemma_placed_coarse(total: int, acc: int, word: int, v: int, m: int, c: int)
    requires
        m > 0,
        c > 0,
        cong(total, acc + word, m * c),
        cong(word, v, m),
    ensures
        cong(total, acc + v, m),
{
    crate::arith::lemma_cong_coarser(total, acc + word, m, c);
    lemma_placed_same(total, acc, word, v, m);
}

/// 32-bit products modulo `2^32`.
impl Lane<i32> for i32 {
    open spec fn word(self) -> int {
        self as int
    }

    open spec fn extent() -> int {
        0x1_0000_0000
    }

    open spec fn cap() -> Option<nat> {
        None
    }

    open spec fn holds(v: int) -> bool {
        true
    }

    open spec fn precision() -> int {
        0x1_0000_0000
    }

    open spec fn width() -> nat {
        4
    }

    proof fn laws() {
    }

    fn bytes() -> (r: usize) {
        4
    }

    fn capacity(bound: u128) -> (r: Option<usize>) {
        None
    }

    fn plus(self, other: Self) -> (r: Self) {
        let r: i32 = self.wrapping_add(other);
        proof {
            lemma_wrapped(self + other, r as int, 0x1_0000_0000);
        }
        r
    }

    fn mac(self, a: i32, b: i32) -> (r: Self) {
        let product: i32 = a.wrapping_mul(b);
        let r: i32 = self.wrapping_add(product);
        proof {
            let m = 0x1_0000_0000int;
            lemma_cropped(a * b, product as int, m);
            lemma_wrapped(self + product, r as int, m);
            lemma_placed_same(r as int, self as int, product as int, a * b, m);
        }
        r
    }

    fn place(self, acc: i128) -> (r: i128) {
        let r: i128 = acc.combine(self as i128);
        proof {
            let m = 0x1_0000_0000int;
            let c = 0x1_0000_0000_0000_0000_0000_0000int;
            assert(m * c == i128::modulus());
            assert forall|v: int| #[trigger] <i32 as Lane<i32>>::holds(v) && cong(
                self as int,
                v,
                m,
            ) implies cong(r.value(), acc.value() + v, m) by {
                lemma_placed_coarse(r as int, acc as int, self as int, v, m, c);
            }
        }
        r
    }

    fn place_scaled(self, acc: i128, exponent: i32) -> (r: i128) {
        let r: i128 = <i32 as Lane<i32>>::place(self, acc);
        proof {
            assert forall|v: int| #[trigger] <i32 as Lane<i32>>::holds(v) && cong(
                self as int,
                v,
                0x1_0000_0000,
            ) implies cong(
                r.value(),
                acc.value() + v * <i32 as Element>::weight(exponent),
                0x1_0000_0000,
            ) by {
                assert(v * 1 == v);
            }
        }
        r
    }
}

/// A product cropped to a signed word is congruent to the product.
pub proof fn lemma_cropped(exact: int, cropped: int, m: int)
    requires
        m > 0,
        cropped == exact % m || cropped == exact % m - m,
    ensures
        cong(cropped, exact, m),
{
    vstd::arithmetic::div_mod::lemma_fundamental_div_mod(exact, m);
    let q = exact / m;
    let shift = if cropped == exact % m {
        -q
    } else {
        -q - 1
    };
    assert(cropped == exact + shift * m) by (nonlinear_arith)
        requires
            exact == m * q + exact % m,
            shift == -q ==> cropped == exact % m,
            shift != -q ==> cropped == exact % m - m && shift == -q - 1,
    ;
    lemma_cong_shift(exact, shift, m);
}

/// The accumulator of 64-bit products, as a lane: it takes any reduction.
impl Lane<i64> for [u64; 3] {
    open spec fn word(self) -> int {
        self.value()
    }

    open spec fn extent() -> int {
        crate::limbs::extent()
    }

    open spec fn cap() -> Option<nat> {
        None
    }

    open spec fn holds(v: int) -> bool {
        true
    }

    open spec fn precision() -> int {
        crate::limbs::extent()
    }

    open spec fn width() -> nat {
        24
    }

    proof fn laws() {
    }

    fn bytes() -> (r: usize) {
        24
    }

    fn capacity(bound: u128) -> (r: Option<usize>) {
        None
    }

    fn plus(self, other: Self) -> (r: Self) {
        self.combine(other)
    }

    fn mac(self, a: i64, b: i64) -> (r: Self) {
        self.combine(product_limbs(a, b))
    }

    fn place(self, acc: [u64; 3]) -> (r: [u64; 3]) {
        let r: [u64; 3] = acc.combine(self);
        proof {
            let m = crate::limbs::extent();
            assert forall|v: int| #[trigger] <[u64; 3] as Lane<i64>>::holds(v) && cong(
                self.value(),
                v,
                m,
            ) implies cong(r.value(), acc.value() + v, m) by {
                lemma_placed_same(r.value(), acc.value(), self.value(), v, m);
            }
        }
        r
    }

    fn place_scaled(self, acc: [u64; 3], exponent: i32) -> (r: [u64; 3]) {
        let r: [u64; 3] = <[u64; 3] as Lane<i64>>::place(self, acc);
        proof {
            assert forall|v: int| #[trigger] <[u64; 3] as Lane<i64>>::holds(v) && cong(
                self.value(),
                v,
                crate::limbs::extent(),
            ) implies cong(
                r.value(),
                acc.value() + v * <i64 as Element>::weight(exponent),
                crate::limbs::extent(),
            ) by {
                assert(v * 1 == v);
            }
        }
        r
    }
}

/// 64-bit products modulo `2^64`.
impl Lane<i64> for i64 {
    open spec fn word(self) -> int {
        self as int
    }

    open spec fn extent() -> int {
        0x1_0000_0000_0000_0000
    }

    open spec fn cap() -> Option<nat> {
        None
    }

    open spec fn holds(v: int) -> bool {
        true
    }

    open spec fn precision() -> int {
        0x1_0000_0000_0000_0000
    }

    open spec fn width() -> nat {
        8
    }

    proof fn laws() {
    }

    fn bytes() -> (r: usize) {
        8
    }

    fn capacity(bound: u128) -> (r: Option<usize>) {
        None
    }

    fn plus(self, other: Self) -> (r: Self) {
        let r: i64 = self.wrapping_add(other);
        proof {
            lemma_wrapped(self + other, r as int, 0x1_0000_0000_0000_0000);
        }
        r
    }

    fn mac(self, a: i64, b: i64) -> (r: Self) {
        let product: i64 = a.wrapping_mul(b);
        let r: i64 = self.wrapping_add(product);
        proof {
            let m = 0x1_0000_0000_0000_0000int;
            lemma_cropped(a * b, product as int, m);
            lemma_wrapped(self + product, r as int, m);
            lemma_placed_same(r as int, self as int, product as int, a * b, m);
        }
        r
    }

    fn place(self, acc: [u64; 3]) -> (r: [u64; 3]) {
        let one: [u64; 3] = product_limbs(self, 1);
        let r: [u64; 3] = acc.combine(one);
        proof {
            let m = 0x1_0000_0000_0000_0000int;
            let c = 0x1_0000_0000_0000_0000_0000_0000_0000_0000int;
            assert(m * c == crate::limbs::extent());
            assert(self * 1 == self as int);
            assert forall|v: int| #[trigger] <i64 as Lane<i64>>::holds(v) && cong(
                self as int,
                v,
                m,
            ) implies cong(r.value(), acc.value() + v, m) by {
                lemma_placed_coarse(r.value(), acc.value(), self as int, v, m, c);
            }
        }
        r
    }

    fn place_scaled(self, acc: [u64; 3], exponent: i32) -> (r: [u64; 3]) {
        let r: [u64; 3] = <i64 as Lane<i64>>::place(self, acc);
        proof {
            assert forall|v: int| #[trigger] <i64 as Lane<i64>>::holds(v) && cong(
                self as int,
                v,
                0x1_0000_0000_0000_0000,
            ) implies cong(
                r.value(),
                acc.value() + v * <i64 as Element>::weight(exponent),
                0x1_0000_0000_0000_0000,
            ) by {
                assert(v * 1 == v);
            }
        }
        r
    }
}

} // verus!
