//! Single-precision floating-point words, as the integers they stand for: the
//! projection onto a common grade, and the bound of a step between two panels.
use crate::census::{count_product3, enter_decoded, Ledger, Tally};
use crate::grades::{
    denoted, exponent, law_fields_spell_numbers, law_scale_fits, law_words_looked_at, met_words,
    numeric, panel_words, scale_fits,
};
use crate::scale::{doubled_within, within, LaneScale};
use crate::sequence::{portable_of, portable_table, Sequence, TableSpec};
use crate::sizing::Steps;
use crate::view::MatView;
use vstd::arithmetic::power2::pow2;
use vstd::prelude::*;

verus! {

/// Bits of a significand, the hidden one among them.
pub const SIGNIFICAND_BITS: u32 = 24;

/// The grade of the least factor.
pub const MIN_FACTOR_EXP: i32 = -149;

/// The grade of the greatest finite factor.
pub const MAX_FACTOR_EXP: i32 = 104;

/// The square of the largest significand.
pub const PRODUCT_BOUND: u128 = 0xffff_fe00_0001;

/// The exponent field of a word.
pub open spec fn q_of(bits: u32) -> int {
    (bits as int % 0x8000_0000) / 0x80_0000
}

/// The fraction field of a word.
pub open spec fn fraction_of(bits: u32) -> int {
    bits as int % 0x80_0000
}

/// The word without its sign.
pub open spec fn magnitude_of(bits: u32) -> int {
    bits as int % 0x8000_0000
}

/// The word is a number.
pub open spec fn finite(bits: u32) -> bool {
    q_of(bits) != 255
}

/// The significand of a word, the hidden bit included.
pub open spec fn significand_of(bits: u32) -> int {
    if q_of(bits) == 0 {
        fraction_of(bits)
    } else {
        0x80_0000 + fraction_of(bits)
    }
}

/// The grade of a word: what its significand counts units of.
pub open spec fn grade_of(bits: u32) -> int {
    if q_of(bits) == 0 {
        -149
    } else {
        q_of(bits) - 150
    }
}

/// The magnitude of a number, in units of the least grade.
pub open spec fn units(bits: u32) -> int {
    significand_of(bits) * pow2((grade_of(bits) + 149) as nat)
}

/// `2^bits`, modulo `2^32`.
pub fn atlas_power_of_two_u32(bits: u32) -> (r: u32)
    ensures
        r == pow2(bits as nat) % 0x1_0000_0000,
{
    let r: u32 = atlas_double_u32(1, bits);
    assert(1 * pow2(bits as nat) == pow2(bits as nat)) by (nonlinear_arith);
    r
}

/// A word doubled a number of times, modulo `2^32`.
pub fn atlas_double_u32(value: u32, times: u32) -> (r: u32)
    ensures
        r == (value * pow2(times as nat)) % 0x1_0000_0000,
{
    let mut r: u32 = value;
    let mut done: u32 = 0;
    proof {
        vstd::arithmetic::power2::lemma2_to64();
        assert(value * pow2(0) == value) by (nonlinear_arith)
            requires
                pow2(0) == 1,
        ;
    }
    while done < times
        invariant
            done <= times,
            r == (value * pow2(done as nat)) % 0x1_0000_0000,
        decreases times - done,
    {
        proof {
            let (p, v) = (pow2(done as nat) as int, value as int);
            vstd::arithmetic::power2::lemma_pow2_unfold((done + 1) as nat);
            assert(v * (2 * p) == 2 * (v * p)) by (nonlinear_arith);
        }
        r = r.wrapping_add(r);
        done = done + 1;
    }
    r
}

/// Contractions that a build of `space` entries presents.
pub fn f32_q_build_presentations(space: usize, block: usize, rows: usize) -> (r: u64)
    ensures
        r == crate::census::capped(space * block * rows),
{
    count_product3(space, block, rows)
}

/// A number regraded at `base`: the same sign and fraction, and an exponent
/// field that counts grades from the base. A word whose exponent field is the
/// least or the greatest stays as it is.
pub fn project_f32_q(raw: u32, base: i32) -> (r: u32)
    requires
        0 < q_of(raw) < 255 ==> base <= grade_of(raw) <= base + 254,
    ensures
        raw >= 0x8000_0000 <==> r >= 0x8000_0000,
        fraction_of(r) == fraction_of(raw),
        q_of(raw) == 0 || q_of(raw) == 255 ==> r == raw,
        0 < q_of(raw) < 255 ==> q_of(r) == grade_of(raw) - base + 1,
        finite(raw) && MIN_FACTOR_EXP <= base <= grade_of(raw) ==> units(r) * pow2(
            (base + 149) as nat,
        ) == units(raw),
        numeric(raw) && MIN_FACTOR_EXP <= base <= exponent(raw) ==> numeric(r) && denoted(r) * pow2(
            (base + 149) as nat,
        ) == denoted(raw),
{
    proof {
        vstd::arithmetic::power2::lemma2_to64();
    }
    let sign_place: u32 = atlas_power_of_two_u32(31);
    let fraction_place: u32 = atlas_power_of_two_u32(SIGNIFICAND_BITS - 1);
    let negative: bool = raw >= sign_place;
    let unsigned: u32 = if negative {
        raw - sign_place
    } else {
        raw
    };
    let source_q: u32 = unsigned / fraction_place;
    let fraction: u32 = unsigned % fraction_place;
    proof {
        assert(unsigned == magnitude_of(raw));
        assert(source_q == q_of(raw));
        assert(fraction == fraction_of(raw));
    }
    let special_q: u32 = ((MAX_FACTOR_EXP - MIN_FACTOR_EXP) as u32) + 2;
    let q: u32 = if source_q == 0 || source_q == special_q {
        source_q
    } else {
        let relative: i32 = (source_q as i32) - 150 - base;
        (relative as u32) + 1
    };
    let sign: u32 = if negative {
        sign_place
    } else {
        0
    };
    assert(q <= 255);
    let q_field: u32 = atlas_double_u32(q, SIGNIFICAND_BITS - 1);
    assert(q_field == q * 0x80_0000);
    let r: u32 = sign + q_field + fraction;
    proof {
        assert(magnitude_of(r) == q_field + fraction);
        assert(q_of(r) == q);
        assert(fraction_of(r) == fraction);
        if finite(raw) && MIN_FACTOR_EXP <= base <= grade_of(raw) {
            lemma_regraded_units(raw, r, base);
        }
        law_fields_spell_numbers(raw);
        law_fields_spell_numbers(r);
    }
    r
}

proof fn lemma_regraded_units(raw: u32, r: u32, base: i32)
    requires
        finite(raw),
        MIN_FACTOR_EXP <= base <= grade_of(raw),
        fraction_of(r) == fraction_of(raw),
        q_of(raw) == 0 ==> r == raw,
        q_of(raw) > 0 ==> q_of(r) == grade_of(raw) - base + 1,
    ensures
        units(r) * pow2((base + 149) as nat) == units(raw),
{
    vstd::arithmetic::power2::lemma2_to64();
    let s = significand_of(raw);
    if q_of(raw) == 0 {
        assert(units(raw) * 1 == units(raw));
    } else {
        let (x, y) = ((grade_of(raw) - base) as nat, (base + 149) as nat);
        vstd::arithmetic::power2::lemma_pow2_adds(x, y);
        assert(significand_of(r) == s);
        assert(grade_of(r) + 149 == x);
        assert((s * pow2(x)) * pow2(y) == s * (pow2(x) * pow2(y))) by (nonlinear_arith);
    }
}

/// A product of two regraded numbers, placed at the sum of their bases, is the
/// product of the numbers.
pub proof fn law_projected_product(x: u32, y: u32, px: u32, py: u32, base_a: i32, base_b: i32)
    requires
        MIN_FACTOR_EXP <= base_a,
        MIN_FACTOR_EXP <= base_b,
        units(px) * pow2((base_a + 149) as nat) == units(x),
        units(py) * pow2((base_b + 149) as nat) == units(y),
    ensures
        units(px) * units(py) * pow2((base_a + base_b + 298) as nat) == units(x) * units(y),
{
    let (a, b) = (pow2((base_a + 149) as nat) as int, pow2((base_b + 149) as nat) as int);
    vstd::arithmetic::power2::lemma_pow2_adds((base_a + 149) as nat, (base_b + 149) as nat);
    let (u, v) = (units(px), units(py));
    assert(u * v * (a * b) == (u * a) * (v * b)) by (nonlinear_arith);
}

/// The bound of a step between panels whose grades span `width` together.
pub fn f32_q_step_bound(width: u32, ceiling: u64) -> (r: u128)
    requires
        PRODUCT_BOUND <= ceiling,
    ensures
        r == within(PRODUCT_BOUND * pow2(width as nat), ceiling as int),
{
    doubled_within(PRODUCT_BOUND, width, ceiling as u128)
}

/// What has been seen of a panel: the span of its grades, its largest
/// magnitude, and whether every word was a number.
#[derive(Clone, Copy, PartialEq, Eq, Debug, Structural)]
pub struct Seen {
    pub any: bool,
    pub low: i32,
    pub high: i32,
    pub largest: u32,
    pub nonfinite: bool,
}

impl Seen {
    /// Nothing has been seen.
    pub open spec fn nothing() -> Seen {
        Seen { any: false, low: 0, high: 0, largest: 0, nonfinite: false }
    }

    /// One more word has been seen. Zeros have no grade.
    pub open spec fn with(self, bits: u32) -> Seen {
        if !finite(bits) {
            Seen { nonfinite: true, ..self }
        } else {
            let largest = if magnitude_of(bits) > self.largest {
                magnitude_of(bits) as u32
            } else {
                self.largest
            };
            if significand_of(bits) == 0 {
                Seen { largest, ..self }
            } else {
                let grade = grade_of(bits) as i32;
                Seen {
                    any: true,
                    low: if self.any && self.low < grade {
                        self.low
                    } else {
                        grade
                    },
                    high: if self.any && self.high > grade {
                        self.high
                    } else {
                        grade
                    },
                    largest,
                    nonfinite: self.nonfinite,
                }
            }
        }
    }

    /// The span holds what was seen.
    pub open spec fn wf(self) -> bool {
        &&& MIN_FACTOR_EXP <= self.low <= self.high <= MAX_FACTOR_EXP || (!self.any && self.low == 0
            && self.high == 0)
        &&& self.largest < 0x7f80_0000
        &&& self.any <==> significand_of(self.largest) != 0
        &&& self.any ==> self.low <= grade_of(self.largest) == self.high
    }

    /// Sees one more word.
    pub fn see(&mut self, bits: u32)
        requires
            old(self).wf(),
        ensures
            *final(self) == old(self).with(bits),
            final(self).wf(),
    {
        let magnitude: u32 = bits % 0x8000_0000;
        let q: u32 = magnitude / 0x80_0000;
        let fraction: u32 = magnitude % 0x80_0000;
        assert(fraction == fraction_of(bits));
        if q == 255 {
            self.nonfinite = true;
            return;
        }
        if magnitude > self.largest {
            self.largest = magnitude;
        }
        if q == 0 && fraction == 0 {
            return;
        }
        let grade: i32 = if q == 0 {
            -149
        } else {
            (q as i32) - 150
        };
        if !self.any || self.low >= grade {
            self.low = grade;
        }
        if !self.any || self.high <= grade {
            self.high = grade;
        }
        self.any = true;
    }
}

/// What has been seen after `n` words of a panel.
pub open spec fn seen_of(word: spec_fn(int) -> u32, n: int) -> Seen
    decreases n,
{
    if n <= 0 {
        Seen::nothing()
    } else {
        seen_of(word, n - 1).with(word(n - 1))
    }
}

/// The largest magnitude of a product of two panels, each graded at its base.
pub open spec fn largest_step(a: Seen, b: Seen, ceiling: int) -> int {
    if !a.any || !b.any {
        0
    } else {
        within(
            significand_of(a.largest) * significand_of(b.largest) * pow2(
                ((a.high - a.low) + (b.high - b.low)) as nat,
            ),
            ceiling,
        )
    }
}

/// The scale of two panels of words.
pub open spec fn scale_of(a: Seen, b: Seen, one_product: bool, ceiling: int) -> LaneScale {
    LaneScale {
        base_a: a.low,
        base_b: b.low,
        per_step: (if a.nonfinite || b.nonfinite {
            ceiling + 1
        } else if one_product {
            largest_step(a, b, ceiling)
        } else {
            within(
                PRODUCT_BOUND * pow2(((a.high - a.low) + (b.high - b.low)) as nat),
                ceiling,
            )
        }) as u128,
    }
}

/// The words of a view, row after row.
pub open spec fn row_words(a: MatView<'_, u32>) -> spec_fn(int) -> u32 {
    |x: int| a.cell(x / a.cols as int, x % a.cols as int)
}

/// Observes the words of a view.
fn see_rows(a: &MatView<'_, u32>) -> (r: Seen)
    requires
        a.wf(),
    ensures
        r == seen_of(row_words(*a), a.rows * a.cols),
        r.wf(),
{
    let mut seen: Seen = Seen { any: false, low: 0, high: 0, largest: 0, nonfinite: false };
    let ghost word = row_words(*a);
    let ghost c = a.cols as int;
    let mut i: usize = 0;
    assert(0 * c == 0);
    while i < a.rows
        invariant
            a.wf(),
            i <= a.rows,
            c == a.cols,
            word == row_words(*a),
            seen.wf(),
            seen == seen_of(word, i * c),
        decreases a.rows - i,
    {
        let mut p: usize = 0;
        while p < a.cols
            invariant
                a.wf(),
                i < a.rows,
                p <= a.cols,
                c == a.cols,
                word == row_words(*a),
                seen.wf(),
                seen == seen_of(word, i * c + p),
            decreases a.cols - p,
        {
            proof {
                let x = i * c + p;
                assert(0 <= i * c) by (nonlinear_arith)
                    requires
                        c >= 0,
                ;
                vstd::arithmetic::div_mod::lemma_fundamental_div_mod_converse(
                    x,
                    c,
                    i as int,
                    p as int,
                );
                assert(word(x) == a.cell(i as int, p as int));
                assert(seen_of(word, x + 1) == seen_of(word, x).with(word(x)));
            }
            seen.see(*a.at(i, p));
            p = p + 1;
        }
        assert((i + 1) * c == i * c + c) by (nonlinear_arith);
        i = i + 1;
    }
    seen
}

/// A coded panel of words: the entries of its book one after the other, `block`
/// words each, and the places of the entries that its codes name.
pub struct WordBook<'w> {
    pub words: &'w [u32],
    pub block: usize,
    pub sign_book: bool,
    pub places: &'w [usize],
}

impl<'w> WordBook<'w> {
    /// Entries of the book.
    pub open spec fn space(self) -> int {
        self.words@.len() as int / self.block as int
    }

    /// The book is made of whole entries, and every code names one.
    pub open spec fn wf(self) -> bool {
        &&& self.block > 0
        &&& self.words@.len() as int % self.block as int == 0
        &&& forall|x: int|
            0 <= x < self.places@.len() ==> (#[trigger] self.places@[x]) < self.space()
    }

    /// Only the entries that codes name are met: blocks of one, fewer codes
    /// than entries, and no sign patterns.
    pub open spec fn sparse(self) -> bool {
        self.block == 1 && !self.sign_book && self.places@.len() < self.space()
    }

    /// The words that finding a scale looks at, in their order.
    pub open spec fn met(self) -> spec_fn(int) -> u32 {
        if self.sparse() {
            |x: int| self.words@[self.places@[x] as int]
        } else {
            |x: int| self.words@[x]
        }
    }

    /// Words that finding a scale looks at.
    pub open spec fn met_count(self) -> nat {
        if self.sparse() {
            self.places@.len()
        } else {
            self.words@.len()
        }
    }
}

/// Observes the words of a book that a product meets; how many there are.
fn see_book(book: &WordBook<'_>) -> (r: (Seen, usize))
    requires
        book.wf(),
    ensures
        r.0 == seen_of(book.met(), book.met_count() as int),
        r.0.wf(),
        r.1 == book.met_count(),
{
    let mut seen: Seen = Seen { any: false, low: 0, high: 0, largest: 0, nonfinite: false };
    let ghost word = book.met();
    let sparse: bool = book.block == 1 && !book.sign_book && book.places.len() < book.words.len()
        / book.block;
    let count: usize = if sparse {
        book.places.len()
    } else {
        book.words.len()
    };
    let mut x: usize = 0;
    while x < count
        invariant
            book.wf(),
            sparse == book.sparse(),
            count == book.met_count(),
            x <= count,
            word == book.met(),
            seen.wf(),
            seen == seen_of(word, x as int),
        decreases count - x,
    {
        let bits: u32 = if sparse {
            assert(book.places@[x as int] < book.space());
            book.words[book.places[x]]
        } else {
            book.words[x]
        };
        assert(bits == word(x as int));
        seen.see(bits);
        x = x + 1;
    }
    (seen, count)
}

/// The scale of a panel of activations and the book words that a product
/// meets: the least grade of each, and the bound of a step. Where the product
/// is of single elements the bound is that of the largest of each.
pub fn f32_lane_scale<Lg: Ledger>(
    a: &MatView<'_, u32>,
    w: &WordBook<'_>,
    ceiling: u64,
    ledger: &mut Lg,
) -> (r: LaneScale)
    requires
        a.wf(),
        w.wf(),
        PRODUCT_BOUND <= ceiling,
    ensures
        r == scale_of(
            seen_of(row_words(*a), a.rows * a.cols),
            seen_of(w.met(), w.met_count() as int),
            a.cols == 1 && w.block == 1,
            ceiling as int,
        ),
        scale_fits(
            r,
            panel_words(*a),
            met_words(*w),
            a.cols == 1 && w.block == 1,
            ceiling as int,
        ),
        ({
            let seen_a = seen_of(row_words(*a), a.rows * a.cols);
            let seen_b = seen_of(w.met(), w.met_count() as int);
            let products = if !seen_a.nonfinite && !seen_b.nonfinite && a.cols == 1 && w.block
                == 1 {
                1nat
            } else {
                0
            };
            *final(ledger) == old(ledger).charged(
                Tally::decoding((a.rows * a.cols + w.met_count()) as nat).plus(
                    Tally::adding(products),
                ),
            )
        }),
{
    let ghost start = *ledger;
    let seen_a: Seen = see_rows(a);
    enter_decoded(ledger, a.rows, a.cols);
    let (seen_b, met) = see_book(w);
    enter_decoded(ledger, met, 1);
    proof {
        assert(a.rows * a.cols >= 0) by (nonlinear_arith);
        assert(met * 1 == met);
        let (s, t) = (Tally::decoding((a.rows * a.cols) as nat), Tally::decoding(met as nat));
        start.charges_compose(s, t);
        assert(s.plus(t) == Tally::decoding((a.rows * a.cols + met) as nat));
        start.charges_compose(s.plus(t), Tally::adding(1));
        assert(s.plus(t).plus(Tally::adding(0)) == s.plus(t));
    }
    let width: u32 = ((seen_a.high - seen_a.low) + (seen_b.high - seen_b.low)) as u32;
    let cap: u128 = ceiling as u128;
    let per_step: u128 = if seen_a.nonfinite || seen_b.nonfinite {
        cap + 1
    } else if a.cols == 1 && w.block == 1 {
        let step: u128 = if !seen_a.any || !seen_b.any {
            0
        } else {
            let (x, y): (u32, u32) = (
                significand(seen_a.largest),
                significand(seen_b.largest),
            );
            assert(0 <= x * y <= 0xff_ffff * 0xff_ffff) by (nonlinear_arith)
                requires
                    0 <= x <= 0xff_ffff,
                    0 <= y <= 0xff_ffff,
            ;
            doubled_within((x as u128) * (y as u128), width, cap)
        };
        ledger.added(1);
        step
    } else {
        f32_q_step_bound(width, ceiling)
    };
    let r: LaneScale = LaneScale { base_a: seen_a.low, base_b: seen_b.low, per_step };
    proof {
        law_words_looked_at(*a, *w);
        law_scale_fits(
            panel_words(*a),
            met_words(*w),
            a.cols == 1 && w.block == 1,
            ceiling as int,
            r,
        );
    }
    r
}

/// The table sequence of a floating-point family: the reference, whose products
/// are contractions that count as additions, in a lane that holds `lane_cap`.
pub fn float_table_spec(rows: usize, group: usize, lane_cap: u128) -> (r: TableSpec)
    ensures
        r == (TableSpec {
            build_multiplies: false,
            ..portable_of(rows, group, lane_cap, Sequence::Product)
        }),
{
    let reference: TableSpec = portable_table(rows, group, lane_cap, Sequence::Product);
    TableSpec { build_multiplies: false, ..reference }
}

/// The steps of a floating-point family: its dense product is one product and
/// one row at a time.
pub fn float_dense_steps(table: usize) -> (r: Steps)
    ensures
        r == (Steps { table, dense: 1, dense_rows: 1 }),
{
    Steps { table, dense: 1, dense_rows: 1 }
}

/// The significand of a number, the hidden bit included.
fn significand(magnitude: u32) -> (r: u32)
    requires
        magnitude < 0x7f80_0000,
    ensures
        r == significand_of(magnitude),
        r <= 0xff_ffff,
{
    if magnitude < 0x80_0000 {
        magnitude
    } else {
        0x80_0000 + magnitude % 0x80_0000
    }
}

} // verus!
