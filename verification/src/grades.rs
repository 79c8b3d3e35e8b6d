//! What floating-point words denote, and what the grades of two panels of them are
//! good for.
use crate::f32_q::{
    fraction_of, finite, grade_of, magnitude_of, q_of, row_words, scale_of, seen_of,
    significand_of, units, WordBook, PRODUCT_BOUND,
};
use crate::scale::LaneScale;
use crate::view::MatView;
use vstd::arithmetic::power2::pow2;
use vstd::prelude::*;

verus! {

/// The word denotes a number, of either sign.
pub open spec fn numeric(bits: u32) -> bool {
    bits as int % 0x8000_0000 < 0x7f80_0000
}

/// The word denotes a number that is not zero, of either sign.
pub open spec fn counts(bits: u32) -> bool {
    0 < bits as int % 0x8000_0000 < 0x7f80_0000
}

/// The exponent of the last place of the number that a word denotes.
pub open spec fn exponent(bits: u32) -> int {
    let m = bits as int % 0x8000_0000;
    if m < 0x80_0000 {
        -149
    } else {
        m / 0x80_0000 - 150
    }
}

/// The magnitude that a word denotes, in units of the last place of the least
/// number.
pub open spec fn denoted(bits: u32) -> int {
    let m = bits as int % 0x8000_0000;
    if m < 0x80_0000 {
        m
    } else {
        (0x80_0000 + m % 0x80_0000) * pow2((m / 0x80_0000 - 1) as nat)
    }
}

/// The words of a panel, row after row.
pub open spec fn panel_words(a: MatView<'_, u32>) -> Seq<u32> {
    Seq::new(
        (a.rows * a.cols) as nat,
        |x: int|
            a.data@[a.origin + (x / a.cols as int) * a.strides.rs + (x % a.cols as int)
                * a.strides.cs],
    )
}

/// The words of a book that a product meets: those that codes name where entries
/// are single words without sign patterns and codes are fewer, and else all.
pub open spec fn met_words(w: WordBook<'_>) -> Seq<u32> {
    if w.block == 1 && !w.sign_book && w.places@.len() < w.words@.len() {
        Seq::new(w.places@.len(), |x: int| w.words@[w.places@[x] as int])
    } else {
        w.words@
    }
}

/// `base` is the least exponent of the numbers of a panel, or zero where it has none
/// but zeros.
pub open spec fn least_exponent(words: Seq<u32>, base: int) -> bool {
    &&& forall|x: int| 0 <= x < words.len() && counts(#[trigger] words[x]) ==> base <= exponent(
        words[x],
    )
    &&& (exists|x: int| 0 <= x < words.len() && counts(#[trigger] words[x]) && exponent(words[x])
        == base) || base == 0 && forall|x: int|
        0 <= x < words.len() ==> !counts(#[trigger] words[x])
}

/// `span` is how far apart the exponents of the numbers of a panel lie.
pub open spec fn exponents_span(words: Seq<u32>, span: int) -> bool {
    &&& forall|x: int, y: int|
        0 <= x < words.len() && 0 <= y < words.len() && counts(#[trigger] words[x]) && counts(
            #[trigger] words[y],
        ) ==> exponent(words[x]) - exponent(words[y]) <= span
    &&& (exists|x: int, y: int|
        0 <= x < words.len() && 0 <= y < words.len() && counts(#[trigger] words[x]) && counts(
            #[trigger] words[y],
        ) && exponent(words[x]) - exponent(words[y]) == span) || span == 0 && forall|x: int|
        0 <= x < words.len() ==> !counts(#[trigger] words[x])
}

/// `top` is the largest magnitude of a panel of numbers.
pub open spec fn largest_denoted(words: Seq<u32>, top: int) -> bool {
    &&& forall|x: int| 0 <= x < words.len() ==> denoted(#[trigger] words[x]) <= top
    &&& (exists|x: int| 0 <= x < words.len() && denoted(#[trigger] words[x]) == top) || top == 0
        && words.len() == 0
}

/// Every word of a panel denotes a number.
pub open spec fn all_numeric(words: Seq<u32>) -> bool {
    forall|x: int| 0 <= x < words.len() ==> numeric(#[trigger] words[x])
}

/// What the scale of two panels is: the bases are the least exponents; a step that
/// is within the ceiling bounds the product of any number of one panel with any of
/// the other, each counted from its base; the step of single products is the largest
/// such product, and that of others the largest there could be at these spans; and a
/// step past the ceiling says that this passes it or that a word denotes no number.
pub open spec fn scale_fits(
    r: LaneScale,
    xs: Seq<u32>,
    ys: Seq<u32>,
    single: bool,
    ceiling: int,
) -> bool {
    let unit = pow2((r.base_a + 149) as nat) * pow2((r.base_b + 149) as nat);
    &&& least_exponent(xs, r.base_a as int)
    &&& least_exponent(ys, r.base_b as int)
    &&& r.per_step <= ceiling + 1
    &&& r.per_step <= ceiling ==> all_numeric(xs) && all_numeric(ys)
    &&& r.per_step <= ceiling ==> forall|x: int, y: int|
        0 <= x < xs.len() && 0 <= y < ys.len() ==> denoted(#[trigger] xs[x]) * denoted(
            #[trigger] ys[y],
        ) <= r.per_step * unit
    &&& single && all_numeric(xs) && all_numeric(ys) ==> forall|p: int, q: int|
        #[trigger] largest_denoted(xs, p) && #[trigger] largest_denoted(ys, q) ==> if p * q
            <= ceiling * unit {
            p * q == r.per_step * unit
        } else {
            r.per_step == ceiling + 1
        }
    &&& !single && all_numeric(xs) && all_numeric(ys) ==> forall|s: int, t: int|
        #[trigger] exponents_span(xs, s) && #[trigger] exponents_span(ys, t) ==> r.per_step == if
            0xff_ffffint * 0xff_ffff * pow2((s + t) as nat) <= ceiling {
            0xff_ffffint * 0xff_ffff * pow2((s + t) as nat)
        } else {
            ceiling + 1
        }
}

/// The fields of a word spell what it denotes.
pub proof fn law_fields_spell_numbers(bits: u32)
    ensures
        finite(bits) <==> numeric(bits),
        finite(bits) && significand_of(bits) != 0 <==> counts(bits),
        numeric(bits) ==> {
            &&& units(bits) == denoted(bits)
            &&& grade_of(bits) == exponent(bits)
            &&& denoted(bits) == significand_of(bits) * pow2((exponent(bits) + 149) as nat)
            &&& 0 <= significand_of(bits) <= 0xff_ffff
            &&& -149 <= exponent(bits) <= 104
        },
{
    vstd::arithmetic::power2::lemma2_to64();
    let m = bits as int % 0x8000_0000;
    assert(q_of(bits) == m / 0x80_0000);
    assert(fraction_of(bits) == m % 0x80_0000);
    if m < 0x80_0000 {
        assert(m * pow2(0) == m) by (nonlinear_arith)
            requires
                pow2(0) == 1,
        ;
    } else if numeric(bits) {
        assert(exponent(bits) + 149 == m / 0x80_0000 - 1);
    }
}

/// A greater magnitude has no smaller exponent and denotes no smaller number.
proof fn lemma_monotone(x: u32, y: u32)
    requires
        numeric(y),
        x as int % 0x8000_0000 <= y as int % 0x8000_0000,
    ensures
        numeric(x),
        exponent(x) <= exponent(y),
        denoted(x) <= denoted(y),
{
    vstd::arithmetic::power2::lemma2_to64();
    let (m, n) = (x as int % 0x8000_0000, y as int % 0x8000_0000);
    let (p, q) = (m / 0x80_0000, n / 0x80_0000);
    let (f, g) = (m % 0x80_0000, n % 0x80_0000);
    if n < 0x80_0000 {
    } else if m < 0x80_0000 {
        let w = pow2((q - 1) as nat) as int;
        vstd::arithmetic::power2::lemma_pow2_pos((q - 1) as nat);
        assert((0x80_0000 + g) * w >= 0x80_0000) by (nonlinear_arith)
            requires
                g >= 0,
                w >= 1,
        ;
    } else {
        let (v, w) = (pow2((p - 1) as nat) as int, pow2((q - 1) as nat) as int);
        vstd::arithmetic::power2::lemma_pow2_pos((p - 1) as nat);
        if p == q {
            assert((0x80_0000 + f) * v <= (0x80_0000 + g) * v) by (nonlinear_arith)
                requires
                    f <= g,
                    v >= 1,
            ;
        } else {
            vstd::arithmetic::power2::lemma_pow2_adds((p - 1) as nat, (q - p) as nat);
            vstd::arithmetic::power2::lemma_pow2_unfold((q - p) as nat);
            vstd::arithmetic::power2::lemma_pow2_pos((q - p - 1) as nat);
            let rest = pow2((q - p - 1) as nat) as int;
            assert((0x80_0000 + f) * v <= (0x80_0000 + g) * w) by (nonlinear_arith)
                requires
                    0 <= f < 0x80_0000,
                    0 <= g,
                    v >= 1,
                    rest >= 1,
                    w == v * (2 * rest),
            ;
        }
    }
}

/// What has been seen of a panel is the extremes of what its words denote.
proof fn lemma_seen(words: Seq<u32>, n: int)
    requires
        0 <= n <= words.len(),
    ensures
        ({
            let s = seen_of(|x: int| words[x], n);
            &&& forall|x: int|
                0 <= x < n && counts(#[trigger] words[x]) ==> {
                    &&& s.any
                    &&& s.low <= exponent(words[x]) <= s.high
                    &&& words[x] as int % 0x8000_0000 <= s.largest
                }
            &&& !s.nonfinite ==> forall|x: int| 0 <= x < n ==> numeric(#[trigger] words[x])
            &&& s.nonfinite ==> exists|x: int| 0 <= x < n && !numeric(#[trigger] words[x])
            &&& s.any ==> exists|x: int|
                0 <= x < n && counts(#[trigger] words[x]) && exponent(words[x]) == s.low
            &&& s.any ==> exists|x: int|
                0 <= x < n && counts(#[trigger] words[x]) && exponent(words[x]) == s.high
            &&& s.any ==> exists|x: int|
                0 <= x < n && counts(#[trigger] words[x]) && words[x] as int % 0x8000_0000
                    == s.largest
            &&& !s.any ==> s.low == 0 && s.high == 0 && s.largest == 0
        }),
    decreases n,
{
    if n > 0 {
        let word = |x: int| words[x];
        lemma_seen(words, n - 1);
        let before = seen_of(word, n - 1);
        let s = seen_of(word, n);
        let last = words[n - 1];
        assert(s == before.with(last));
        law_fields_spell_numbers(last);
        assert(magnitude_of(last) == last as int % 0x8000_0000);
        if before.any {
            let l = choose|x: int|
                0 <= x < n - 1 && counts(#[trigger] words[x]) && exponent(words[x]) == before.low;
            let h = choose|x: int|
                0 <= x < n - 1 && counts(#[trigger] words[x]) && exponent(words[x]) == before.high;
            let t = choose|x: int|
                0 <= x < n - 1 && counts(#[trigger] words[x]) && words[x] as int % 0x8000_0000
                    == before.largest;
            assert(counts(words[l]) && counts(words[h]) && counts(words[t]));
        }
        if before.nonfinite {
            let x = choose|x: int| 0 <= x < n - 1 && !numeric(#[trigger] words[x]);
            assert(!numeric(words[x]));
        }
        if !numeric(last) {
            assert(!numeric(words[n - 1]));
        }
        if counts(last) {
            assert(counts(words[n - 1]));
        }
    }
}

/// The same words are seen alike.
proof fn lemma_seen_ext(f: spec_fn(int) -> u32, words: Seq<u32>, n: int)
    requires
        0 <= n <= words.len(),
        forall|x: int| 0 <= x < n ==> #[trigger] f(x) == words[x],
    ensures
        seen_of(f, n) == seen_of(|x: int| words[x], n),
    decreases n,
{
    if n > 0 {
        lemma_seen_ext(f, words, n - 1);
        assert(f(n - 1) == words[n - 1]);
    }
}

/// The extremes of a panel of numbers, counted from its base.
proof fn lemma_extremes(words: Seq<u32>)
    requires
        all_numeric(words),
    ensures
        ({
            let s = seen_of(|x: int| words[x], words.len() as int);
            let unit = pow2((s.low + 149) as nat) as int;
            let span = (s.high - s.low) as nat;
            &&& !s.nonfinite
            &&& s.low >= -149
            &&& s.low <= s.high
            &&& forall|x: int|
                0 <= x < words.len() ==> 0 <= denoted(#[trigger] words[x]) <= significand_of(
                    s.largest,
                ) * pow2(span) * unit
            &&& s.any ==> exists|x: int|
                0 <= x < words.len() && denoted(#[trigger] words[x]) == significand_of(s.largest)
                    * pow2(span) * unit
            &&& 0 <= significand_of(s.largest) <= 0xff_ffff
            &&& !s.any ==> significand_of(s.largest) == 0
        }),
{
    let n = words.len() as int;
    let s = seen_of(|x: int| words[x], n);
    lemma_seen(words, n);
    law_fields_spell_numbers(s.largest);
    if s.any {
        let l = choose|x: int|
            0 <= x < n && counts(#[trigger] words[x]) && exponent(words[x]) == s.low;
        let h = choose|x: int|
            0 <= x < n && counts(#[trigger] words[x]) && exponent(words[x]) == s.high;
        let t = choose|x: int|
            0 <= x < n && counts(#[trigger] words[x]) && words[x] as int % 0x8000_0000
                == s.largest;
        law_fields_spell_numbers(words[l]);
        assert(s.largest as int % 0x8000_0000 == s.largest);
        assert(numeric(s.largest));
        lemma_monotone(words[h], s.largest);
        lemma_monotone(words[t], s.largest);
        lemma_monotone(s.largest, words[t]);
        assert(exponent(s.largest) == s.high);
        let (span, low) = ((s.high - s.low) as nat, (s.low + 149) as nat);
        vstd::arithmetic::power2::lemma_pow2_adds(span, low);
        let (v, u, w) = (significand_of(s.largest), pow2(span) as int, pow2(low) as int);
        assert(v * u * w == v * (u * w)) by (nonlinear_arith);
        assert(denoted(s.largest) == v * u * w);
        assert(denoted(words[t]) == v * u * w);
    }
    assert forall|x: int| 0 <= x < n implies 0 <= denoted(#[trigger] words[x]) <= significand_of(
        s.largest,
    ) * pow2((s.high - s.low) as nat) * (pow2((s.low + 149) as nat) as int) by {
        law_fields_spell_numbers(words[x]);
        let e = (exponent(words[x]) + 149) as nat;
        vstd::arithmetic::power2::lemma_pow2_pos(e);
        let (a, b) = (significand_of(words[x]), pow2(e) as int);
        assert(a * b >= 0) by (nonlinear_arith)
            requires
                a >= 0,
                b >= 0,
        ;
        if counts(words[x]) {
            lemma_monotone(words[x], s.largest);
        } else {
            let (u, w) = (
                pow2((s.high - s.low) as nat) as int,
                pow2((s.low + 149) as nat) as int,
            );
            let v = significand_of(s.largest);
            vstd::arithmetic::power2::lemma_pow2_pos((s.high - s.low) as nat);
            vstd::arithmetic::power2::lemma_pow2_pos((s.low + 149) as nat);
            assert(v * u * w >= 0) by (nonlinear_arith)
                requires
                    v >= 0,
                    u >= 0,
                    w >= 0,
            ;
            assert(denoted(words[x]) == 0) by {
                vstd::arithmetic::power2::lemma2_to64();
            }
        }
    }
}

/// The span of a panel is that of what has been seen of it.
proof fn lemma_span(words: Seq<u32>, span: int)
    requires
        exponents_span(words, span),
    ensures
        ({
            let s = seen_of(|x: int| words[x], words.len() as int);
            span == s.high - s.low
        }),
{
    let n = words.len() as int;
    let s = seen_of(|x: int| words[x], n);
    lemma_seen(words, n);
    if s.any {
        let l = choose|x: int|
            0 <= x < n && counts(#[trigger] words[x]) && exponent(words[x]) == s.low;
        let h = choose|x: int|
            0 <= x < n && counts(#[trigger] words[x]) && exponent(words[x]) == s.high;
        assert(counts(words[l]) && counts(words[h]));
        assert(s.high - s.low <= span);
        let (x, y) = choose|x: int, y: int|
            0 <= x < n && 0 <= y < n && counts(#[trigger] words[x]) && counts(#[trigger] words[y])
                && exponent(words[x]) - exponent(words[y]) == span;
    }
}

/// What has been seen of two panels gives the scale that fits them.
pub proof fn law_scale_fits(
    xs: Seq<u32>,
    ys: Seq<u32>,
    single: bool,
    ceiling: int,
    r: LaneScale,
)
    requires
        0xff_ffff * 0xff_ffff <= ceiling < u128::MAX,
        r == scale_of(
            seen_of(|x: int| xs[x], xs.len() as int),
            seen_of(|y: int| ys[y], ys.len() as int),
            single,
            ceiling,
        ),
    ensures
        scale_fits(r, xs, ys, single, ceiling),
{
    let a = seen_of(|x: int| xs[x], xs.len() as int);
    let b = seen_of(|y: int| ys[y], ys.len() as int);
    lemma_seen(xs, xs.len() as int);
    lemma_seen(ys, ys.len() as int);
    assert(least_exponent(xs, r.base_a as int));
    assert(least_exponent(ys, r.base_b as int));
    if a.nonfinite || b.nonfinite {
        assert(!(all_numeric(xs) && all_numeric(ys)));
    } else {
        lemma_extremes(xs);
        lemma_extremes(ys);
        let (s, t) = ((a.high - a.low) as nat, (b.high - b.low) as nat);
        let (u, v) = (pow2((a.low + 149) as nat) as int, pow2((b.low + 149) as nat) as int);
        let (g, h) = (significand_of(a.largest), significand_of(b.largest));
        let (p, q) = (pow2(s) as int, pow2(t) as int);
        vstd::arithmetic::power2::lemma_pow2_pos(s);
        vstd::arithmetic::power2::lemma_pow2_pos(t);
        vstd::arithmetic::power2::lemma_pow2_pos((a.low + 149) as nat);
        vstd::arithmetic::power2::lemma_pow2_pos((b.low + 149) as nat);
        vstd::arithmetic::power2::lemma_pow2_adds(s, t);
        assert(0xff_ffff * 0xff_ffff == PRODUCT_BOUND);
        let top = g * h * (p * q);
        assert(0 <= top <= PRODUCT_BOUND * (p * q)) by (nonlinear_arith)
            requires
                top == g * h * (p * q),
                0 <= g <= 0xff_ffff,
                0 <= h <= 0xff_ffff,
                p >= 1,
                q >= 1,
                PRODUCT_BOUND == 0xff_ffff * 0xff_ffff,
        ;
        let (x_top, y_top) = (g * p * u, h * q * v);
        assert(x_top * y_top == top * (u * v) && x_top >= 0 && y_top >= 0 && u * v >= 1)
            by (nonlinear_arith)
            requires
                x_top == g * p * u,
                y_top == h * q * v,
                top == g * h * (p * q),
                g >= 0,
                h >= 0,
                p >= 1,
                q >= 1,
                u >= 1,
                v >= 1,
        ;
        let exact = if single {
            if !a.any || !b.any {
                0
            } else {
                top
            }
        } else {
            PRODUCT_BOUND * (p * q)
        };
        if !a.any || !b.any {
            assert(top == 0) by (nonlinear_arith)
                requires
                    top == g * h * (p * q),
                    g == 0 || h == 0,
            ;
        }
        assert(g == 0 ==> x_top == 0) by (nonlinear_arith)
            requires
                x_top == g * p * u,
        ;
        assert(h == 0 ==> y_top == 0) by (nonlinear_arith)
            requires
                y_top == h * q * v,
        ;
        assert(exact >= top);
        assert(r.per_step == if exact <= ceiling {
            exact
        } else {
            ceiling + 1
        });
        let unit = u * v;
        assert(r.per_step <= ceiling ==> r.per_step * unit >= top * unit) by (nonlinear_arith)
            requires
                r.per_step <= ceiling ==> r.per_step >= top,
                unit >= 1,
        ;
        assert forall|x: int, y: int|
            r.per_step <= ceiling && 0 <= x < xs.len() && 0 <= y < ys.len() implies denoted(
            #[trigger] xs[x],
        ) * denoted(#[trigger] ys[y]) <= r.per_step * unit by {
            let (i, j) = (denoted(xs[x]), denoted(ys[y]));
            assert(i * j <= x_top * y_top) by (nonlinear_arith)
                requires
                    0 <= i <= x_top,
                    0 <= j <= y_top,
            ;
        }
        if single {
            assert forall|i: int, j: int| #[trigger]
                largest_denoted(xs, i) && #[trigger] largest_denoted(ys, j) implies if i * j
                <= ceiling * unit {
                i * j == r.per_step * unit
            } else {
                r.per_step == ceiling + 1
            } by {
                lemma_top(xs, i, x_top);
                lemma_top(ys, j, y_top);
                assert(i * j == top * unit);
                assert((top <= ceiling) == (top * unit <= ceiling * unit)) by (nonlinear_arith)
                    requires
                        unit >= 1,
                ;
            }
        } else {
            assert forall|i: int, j: int| #[trigger]
                exponents_span(xs, i) && #[trigger] exponents_span(ys, j) implies r.per_step == if
                0xff_ffffint * 0xff_ffff * pow2((i + j) as nat) <= ceiling {
                0xff_ffffint * 0xff_ffff * pow2((i + j) as nat)
            } else {
                ceiling + 1
            } by {
                lemma_span(xs, i);
                lemma_span(ys, j);
                assert((i + j) as nat == s + t);
            }
        }
    }
}

/// The largest magnitude of a panel is the one that was reached.
proof fn lemma_top(words: Seq<u32>, top: int, reached: int)
    requires
        largest_denoted(words, top),
        all_numeric(words),
        forall|x: int| 0 <= x < words.len() ==> 0 <= denoted(#[trigger] words[x]) <= reached,
        ({
            let s = seen_of(|x: int| words[x], words.len() as int);
            &&& s.any ==> exists|x: int|
                0 <= x < words.len() && denoted(#[trigger] words[x]) == reached
            &&& !s.any ==> reached == 0
        }),
    ensures
        top == reached,
{
    let s = seen_of(|x: int| words[x], words.len() as int);
    if s.any {
        let x = choose|x: int| 0 <= x < words.len() && denoted(#[trigger] words[x]) == reached;
        assert(denoted(words[x]) <= top);
    }
    if words.len() > 0 {
        let y = choose|y: int| 0 <= y < words.len() && denoted(#[trigger] words[y]) == top;
        if !(top == 0 && words.len() == 0) {
            assert(denoted(words[y]) == top);
        }
    }
}

/// The words that are looked at, and counted, are those of the panel, and of the
/// book those that a product meets.
pub proof fn law_words_looked_at(a: MatView<'_, u32>, w: WordBook<'_>)
    requires
        w.wf(),
    ensures
        seen_of(row_words(a), a.rows * a.cols) == seen_of(
            |x: int| panel_words(a)[x],
            panel_words(a).len() as int,
        ),
        seen_of(w.met(), w.met_count() as int) == seen_of(
            |x: int| met_words(w)[x],
            met_words(w).len() as int,
        ),
        w.met_count() == met_words(w).len(),
{
    assert(a.rows * a.cols >= 0) by (nonlinear_arith);
    lemma_seen_ext(row_words(a), panel_words(a), a.rows * a.cols);
    if w.block == 1 {
        assert(w.space() == w.words@.len());
    }
    lemma_seen_ext(w.met(), met_words(w), w.met_count() as int);
}

} // verus!
