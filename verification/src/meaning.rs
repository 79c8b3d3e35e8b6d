//! What the numbers of the library stand for: machine words, stored codes, cells of
//! views, entries of books, and the finished cells of a product.
use crate::arith::{ceil_div, cong, is_pow2, lemma_cong_close, sum};
use crate::books::{Book, Digits, SymbolCode};
use crate::codec::{AddressedCodec, CodedMatrix, Enumerable, IndexStream, ScalarCodec};
use crate::collapse::{kinds_equal, kinds_known, next_kind, rows_kept, same_rows};
use crate::columns::{places, Columns};
use crate::dense::{dense_terms, dense_total};
use crate::dictionary::{firsts_known, is_first, Keyed};
use crate::element::{Accumulator, Alphabet, Bnd, Bound, Element, Full, Whole};
use crate::epilogue::{EncodeMode, Epilogue, IntegerOutput, Linear, Output};
use crate::family::Tabulated;
use crate::isa::grouped::{group_sum, interleaved, shift_of};
use crate::isa::kernel::{tile_is, tile_sum, KernelWord};
use crate::isa::nibble::{octet, signed_nibble, tables_of, word_of};
use crate::isa::packed::{packed_at, packed_sum, quad_sum};
use crate::isa::reduce::{row_dot, rows_reduced};
use crate::isa::tables::{coded_column, masked, masked_column};
use crate::lane::{Lane, LaneWord};
use crate::measures::law_power_rounds_up;
use crate::paged::page_terms;
use crate::sequence::{built, entry_suits, entry_sum, Backend, Host, Sequence, TableSpec};
use crate::sizing::{slab_of, Shape, Steps};
use crate::sweep::{column_gathered, column_words};
use crate::tile::Tile;
use crate::triple::{prior_of, total, TabulatedTriple};
use crate::view::{
    aliases, home, magnitude, offset, row_strides, spans, swapped, MatView, MatViewMut, Strides,
};
use crate::workspace::{is_local_first, ColumnMap};
use core::marker::PhantomData;
use vstd::arithmetic::power::pow;
use vstd::arithmetic::power2::pow2;
use vstd::prelude::*;

verus! {

/// The terms added up from the first to the last.
pub open spec fn added(terms: Seq<int>) -> int {
    terms.fold_left(0, |before: int, term: int| before + term)
}

/// A sum over an interval adds up the terms of the interval.
pub proof fn law_sum_adds_up(f: spec_fn(int) -> int, lo: int, hi: int)
    requires
        lo <= hi,
    ensures
        sum(f, lo, hi) == added(Seq::new((hi - lo) as nat, |i: int| f(lo + i))),
    decreases hi - lo,
{
    let terms = Seq::new((hi - lo) as nat, |i: int| f(lo + i));
    if lo < hi {
        law_sum_adds_up(f, lo, hi - 1);
        assert(terms.drop_last() =~= Seq::new((hi - 1 - lo) as nat, |i: int| f(lo + i)));
    }
}

/// Elements are the integers that their machine words are, products and all; no
/// other number bounds them than the largest magnitude of the type.
pub proof fn law_elements_are_integers(a: i8, b: i16, c: i32, d: i64)
    ensures
        a.val() == a,
        b.val() == b,
        c.val() == c,
        d.val() == d,
        <i8 as Element>::reach() == -(i8::MIN as int),
        <i16 as Element>::reach() == -(i16::MIN as int),
        <i32 as Element>::reach() == -(i32::MIN as int),
        <i64 as Element>::reach() == -(i64::MIN as int),
{
}

/// Output cells are the integers that their machine words are.
pub proof fn law_cells_are_integers(a: i8, b: i16, c: i32, d: i64)
    ensures
        a.number() == a,
        b.number() == b,
        c.number() == c,
        d.number() == d,
        <i8 as Output>::width_bits() == 8,
        <i16 as Output>::width_bits() == 16,
        <i32 as Output>::width_bits() == 32,
        <i64 as Output>::width_bits() == 64,
        a.is_zero() <==> a == 0,
        b.is_zero() <==> b == 0,
        c.is_zero() <==> c == 0,
        d.is_zero() <==> d == 0,
{
}

/// An accumulator of one word holds the integer that the word is; one of three
/// limbs holds, least limb first, the integer that they spell in two's complement.
pub proof fn law_accumulators_are_integers(a: i128, limbs: [u64; 3])
    ensures
        a.value() == a,
        limbs.value() == limbs[0] + limbs[1] * pow2(64) + limbs[2] * pow2(128) - (if limbs[2]
            >= pow2(63) {
            pow2(192) as int
        } else {
            0
        }),
{
    vstd::arithmetic::power2::lemma2_to64();
    vstd::arithmetic::power2::lemma2_to64_rest();
    vstd::arithmetic::power2::lemma_pow2_adds(64, 64);
    vstd::arithmetic::power2::lemma_pow2_adds(64, 128);
}

/// Lanes hold the integers that their words are, and an empty lane holds zero.
pub proof fn law_lanes_are_integers(a: i32, b: i64, c: i128, limbs: [u64; 3])
    ensures
        <i32 as Lane<i8>>::word(a) == a,
        <i32 as Lane<i32>>::word(a) == a,
        <i64 as Lane<i16>>::word(b) == b,
        <i64 as Lane<i64>>::word(b) == b,
        <i128 as Lane<i32>>::word(c) == c,
        <[u64; 3] as Lane<i64>>::word(limbs) == limbs.value(),
        <i32 as LaneWord>::blank() == 0,
        <i64 as LaneWord>::blank() == 0,
        <i128 as LaneWord>::blank() == 0,
        <[u64; 3] as LaneWord>::blank()@ == seq![0u64, 0, 0],
        <i32 as KernelWord>::word(a) == a,
        <i64 as KernelWord>::word(b) == b,
        <i128 as KernelWord>::word(c) == c,
        <i32 as KernelWord>::extent() == pow2(32),
        <i64 as KernelWord>::extent() == pow2(64),
        <i128 as KernelWord>::extent() == pow2(128),
{
    vstd::arithmetic::power2::lemma2_to64();
    vstd::arithmetic::power2::lemma2_to64_rest();
    vstd::arithmetic::power2::lemma_pow2_adds(64, 64);
    vstd::arithmetic::power2::lemma_pow2_adds(64, 128);
    assert(<[u64; 3] as LaneWord>::blank()@ =~= seq![0u64, 0, 0]);
}

/// A stored code is the number that its machine word is, one code for each number
/// of the width, and a stream of codes reads the words one by one.
pub proof fn law_codes_are_integers(
    narrow: u8,
    wide: u16,
    place: int,
    octets: &[u8],
    words: &[u16],
    i: int,
)
    ensures
        narrow.place() == narrow,
        wide.place() == wide,
        <u8 as SymbolCode>::room() == 256,
        <u16 as SymbolCode>::room() == 65536,
        0 <= place < 256 ==> <u8 as SymbolCode>::naming(place) == place,
        0 <= place < 65536 ==> <u16 as SymbolCode>::naming(place) == place,
        IndexStream::U8(octets).len() == octets@.len(),
        IndexStream::U16(words).len() == words@.len(),
        0 <= i < octets@.len() ==> IndexStream::U8(octets).at(i) == octets@[i],
        0 <= i < words@.len() ==> IndexStream::U16(words).at(i) == words@[i],
{
}

/// Cell `(i, j)` of a view lies as many row strides and column strides from the
/// first cell as it is rows and columns away, for a view that is read and for one
/// that is written.
pub proof fn law_cells_lie_strides_apart<T>(
    a: MatView<'_, T>,
    c: MatViewMut<'_, T>,
    i: int,
    j: int,
)
    ensures
        a.cell(i, j) == a.data@[a.origin + i * a.strides.rs + j * a.strides.cs],
        ({
            let (out, s) = (c, c.strides);
            &&& c.cell(i, j) == out.data@[c.origin + i * s.rs + j * s.cs]
            &&& c.held() == out.data@
        }),
{
}

/// Row `j` of a coded matrix is its codes one after the other, as many as there are
/// blocks in a row, and weight `p` of the row is element `p` modulo the block of
/// the entry that the code of its block names.
pub proof fn law_weights_lie_by_blocks<E: Element, Bd: Bound, C: Enumerable<E, Bd>>(
    w: CodedMatrix<'_, E, Bd, C>,
    j: int,
    q: int,
    t: int,
)
    requires
        w.wf(),
        0 <= q,
        0 <= t < C::block(),
    ensures
        w.per_row() * C::block() == w.cols,
        w.codes@.len() * C::block() == w.rows * w.cols,
        w.code(j, q) == w.codes@[j * (w.cols as int / C::block() as int) + q],
        w.entry(j, q * C::block() + t) == w.codec.decoded(
            w.codes@[j * (w.cols as int / C::block() as int) + q],
            t,
        ),
{
    let b = C::block() as int;
    vstd::arithmetic::div_mod::lemma_fundamental_div_mod(w.cols as int, b);
    vstd::arithmetic::div_mod::lemma_fundamental_div_mod_converse(q * b + t, b, q, t);
    let per = w.per_row();
    assert(per * b == b * per) by (nonlinear_arith);
    assert(w.rows * per * b == w.rows * (per * b)) by (nonlinear_arith);
}

/// Element `t` of the entry that a code of a book names is the element at place `t`
/// of the row of the table that the code's number, modulo the entries, counts to;
/// so a code below the number of entries names its own row.
pub proof fn law_book_reads_its_table<
    't,
    E: Element,
    Bd: Bound,
    const N: usize,
    const B: usize,
    K: SymbolCode,
>(book: Book<'t, E, Bd, N, B, K>, code: K)
    requires
        N > 0,
    ensures
        <Book<'t, E, Bd, N, B, K> as Enumerable<E, Bd>>::block() == B,
        <Book<'t, E, Bd, N, B, K> as Enumerable<E, Bd>>::space() == (if N <= K::room() {
            N as nat
        } else {
            0
        }),
        <Book<'t, E, Bd, N, B, K> as Enumerable<E, Bd>>::index(code) == code.place() as int
            % N as int,
        forall|t: int|
            0 <= t < B ==> #[trigger] book.decoded(code, t) == book.entries@[code.place() as int
                % N as int]@[t],
        code.place() < N ==> forall|t: int|
            0 <= t < B ==> #[trigger] book.decoded(code, t)
                == book.entries@[code.place() as int]@[t],
{
    if code.place() < N {
        vstd::arithmetic::div_mod::lemma_small_mod(code.place(), N as nat);
    }
}

/// The same of octets and of words of 16 bits, whose numbers are their own.
pub proof fn law_book_reads_stored_words<
    't,
    E: Element,
    Bd: Bound,
    const N: usize,
    const B: usize,
>(narrow: Book<'t, E, Bd, N, B, u8>, wide: Book<'t, E, Bd, N, B, u16>, octet: u8, word: u16)
    requires
        N > 0,
    ensures
        forall|t: int|
            0 <= t < B ==> #[trigger] narrow.decoded(octet, t) == narrow.entries@[octet as int
                % N as int]@[t],
        forall|t: int|
            0 <= t < B ==> #[trigger] wide.decoded(word, t) == wide.entries@[word as int
                % N as int]@[t],
{
}

/// Element `t` of an entry spelled in digits is the symbol of the digit at the place
/// of weight `N` to the `t`, of the octet that the code ends in.
pub proof fn law_digits_read_their_places<
    't,
    E: Element,
    Bd: Bound,
    const N: usize,
    const B: usize,
    K: SymbolCode,
    const SIGNS: bool,
>(book: Digits<'t, E, Bd, N, B, K, SIGNS>, code: K, t: int)
    requires
        N > 0,
        0 <= t,
    ensures
        <Digits<'t, E, Bd, N, B, K, SIGNS> as Enumerable<E, Bd>>::block() == B,
        <Digits<'t, E, Bd, N, B, K, SIGNS> as Enumerable<E, Bd>>::sign_book() == SIGNS,
        <Digits<'t, E, Bd, N, B, K, SIGNS> as Enumerable<E, Bd>>::index(code)
            == code.place() as int % 256,
        book.decoded(code, t) == book.symbols@[(code.place() as int % 256) / pow(
            N as int,
            t as nat,
        ) % (N as int)],
{
    lemma_digit_place(code.place() as int % 256, N as int, t);
}

proof fn lemma_digit_place(x: int, n: int, t: int)
    requires
        n > 0,
        0 <= t,
        0 <= x,
    ensures
        crate::books::digit(x, n, t) == x / pow(n, t as nat) % n,
    decreases t,
{
    vstd::arithmetic::power::lemma_pow0(n);
    if t == 0 {
        assert(x / 1 == x);
    } else {
        vstd::arithmetic::div_mod::lemma_div_pos_is_pos(x, n);
        lemma_digit_place(x / n, n, t - 1);
        vstd::arithmetic::power::lemma_pow_positive(n, (t - 1) as nat);
        vstd::arithmetic::div_mod::lemma_div_denominator(x, n, pow(n, (t - 1) as nat));
        reveal(pow);
        assert(pow(n, t as nat) == n * pow(n, (t - 1) as nat));
    }
}

/// A book named by places decodes the entry at the place, and one coordinate of a
/// book decodes that coordinate of the entry.
pub proof fn law_views_of_a_book<'a, E: Element, Bd: Bound, C: Enumerable<E, Bd>>(
    named: AddressedCodec<C>,
    single: ScalarCodec<'a, C>,
    place: usize,
    code: C::Code,
    t: int,
)
    requires
        named.0.ready(),
        single.codec.ready(),
        single.coordinate < C::block(),
        C::valid(code),
        place == C::index(code),
        place < C::space(),
        0 <= t < C::block(),
    ensures
        named.decoded(place, t) == named.0.decoded(code, t),
        single.decoded(code, 0) == single.codec.decoded(code, single.coordinate as int),
        <ScalarCodec<'a, C> as Enumerable<E, Bd>>::block() == 1,
        <AddressedCodec<C> as Enumerable<E, Bd>>::block() == 1,
{
    named.0.names(code, t);
}

/// The exact total of a cell adds up, over the steps of the reduction, the products
/// of the activation and the weight at the step, each read where it is stored.
pub proof fn law_total_adds_products<E: Element, Bd: Bound, C: Enumerable<E, Bd>>(
    a: MatView<'_, Alphabet<E, Bd>>,
    w: CodedMatrix<'_, E, Bd, C>,
    i: int,
    j: int,
)
    requires
        C::block() > 0,
    ensures
        total(a, w, i, j) == added(
            Seq::new(
                a.cols as nat,
                |p: int|
                    a.data@[a.origin + i * a.strides.rs + p * a.strides.cs].element().val()
                        * w.codec.decoded(
                        w.codes@[j * (w.cols as int / C::block() as int) + p / C::block() as int],
                        p % C::block() as int,
                    ).element().val(),
            ),
        ),
{
    let f = |p: int| a.cell(i, p).val() * w.entry(j, p).val();
    law_sum_adds_up(f, 0, a.cols as int);
    assert(Seq::new((a.cols - 0) as nat, |p: int| f(0 + p)) =~= Seq::new(
        a.cols as nat,
        |p: int|
            a.data@[a.origin + i * a.strides.rs + p * a.strides.cs].element().val()
                * w.codec.decoded(
                w.codes@[j * (w.cols as int / C::block() as int) + p / C::block() as int],
                p % C::block() as int,
            ).element().val(),
    ));
}

/// What a plain product writes: where the old cell takes part its number is added to
/// the exact total, and not otherwise. What is then in the range of the output is
/// stored as itself under every mode; what is not is stored as the nearest end of
/// the range, or under wrapping as the number of the range that differs from it by
/// a multiple of the extent.
pub proof fn law_plain_cells<E: Element, O: IntegerOutput>(
    linear: Linear,
    exact: int,
    cell: O,
    mode: EncodeMode,
)
    ensures
        ({
            let kept = prior_of(<Linear as Epilogue<E, O>>::reads(&linear), cell);
            let written = <Linear as Epilogue<E, O>>::finished(&linear, exact, kept, mode).number();
            let asked = if linear == Linear::Accumulate {
                exact + cell.number()
            } else {
                exact
            };
            let end = pow2((O::width_bits() - 1) as nat) as int;
            &&& -end <= written < end
            &&& -end <= asked < end ==> written == asked
            &&& mode == EncodeMode::Wrapping ==> (written - asked) % (2 * end) == 0
            &&& mode != EncodeMode::Wrapping && asked >= end ==> written == end - 1
            &&& mode != EncodeMode::Wrapping && asked < -end ==> written == -end
        }),
{
    let asked = if linear == Linear::Accumulate {
        exact + cell.number()
    } else {
        exact
    };
    let bits = O::width_bits();
    let end = pow2((bits - 1) as nat) as int;
    O::narrow();
    vstd::arithmetic::power2::lemma_pow2_pos((bits - 1) as nat);
    vstd::arithmetic::power2::lemma_pow2_unfold(bits);
    let m = 2 * end;
    vstd::arithmetic::div_mod::lemma_fundamental_div_mod(asked, m);
    vstd::arithmetic::div_mod::lemma_mod_bound(asked, m);
    let r = asked % m;
    let wrapped = if r >= end {
        r - m
    } else {
        r
    };
    let q = asked / m;
    assert((wrapped - asked) % m == 0) by {
        if r >= end {
            assert(wrapped - asked == (-q - 1) * m) by (nonlinear_arith)
                requires
                    wrapped == r - m,
                    asked == m * q + r,
            ;
            vstd::arithmetic::div_mod::lemma_mod_multiples_basic(-q - 1, m);
        } else {
            assert(wrapped - asked == (-q) * m) by (nonlinear_arith)
                requires
                    wrapped == r,
                    asked == m * q + r,
            ;
            vstd::arithmetic::div_mod::lemma_mod_multiples_basic(-q, m);
        }
    }
    if -end <= asked < end {
        lemma_cong_close(wrapped, asked, m);
    }
    cell.cells_and_numbers(wrapped);
    cell.cells_and_numbers(asked);
    cell.cells_and_numbers(-end);
    cell.cells_and_numbers(end - 1);
}

/// The product, cell by cell. The number that a plain product leaves in cell
/// `(i, j)` of the output is, as far as the output holds it, the sum over the steps
/// of activation times element of the named entry of the book, with the number that
/// the cell held where it takes part; whatever was on offer and whichever route ran.
pub proof fn law_product_of_a_book<
    'a,
    'w,
    'c,
    't,
    E: Element,
    Bd: Bound,
    const N: usize,
    const B: usize,
    K: SymbolCode,
    O: IntegerOutput,
>(
    before: TabulatedTriple<'a, 'w, 'c, E, Bd, Book<'t, E, Bd, N, B, K>, O>,
    after: TabulatedTriple<'a, 'w, 'c, E, Bd, Book<'t, E, Bd, N, B, K>, O>,
    linear: Linear,
    mode: EncodeMode,
    i: int,
    j: int,
)
    requires
        before.wf(),
        after.is_product_of(before, linear, mode),
        0 <= i < before.a.rows,
        0 <= j < before.w.rows,
    ensures
        ({
            let (a, w, c) = (before.a, before.w, before.c);
            let at = c.origin + i * c.strides.rs + j * c.strides.cs;
            let products = Seq::new(
                a.cols as nat,
                |p: int|
                    a.data@[a.origin + i * a.strides.rs + p * a.strides.cs].element().val()
                        * w.codec.entries@[w.codes@[j * (w.cols as int / B as int) + p
                        / B as int].place() as int % N as int]@[p % B as int].element().val(),
            );
            let asked = added(products) + (if linear == Linear::Accumulate {
                c.data@[at].number()
            } else {
                0
            });
            let out = after.c;
            let written = out.data@[at].number();
            let end = pow2((O::width_bits() - 1) as nat) as int;
            &&& -end <= asked < end ==> written == asked
            &&& mode == EncodeMode::Wrapping ==> (written - asked) % (2 * end) == 0
            &&& mode != EncodeMode::Wrapping && asked >= end ==> written == end - 1
            &&& mode != EncodeMode::Wrapping && asked < -end ==> written == -end
        }),
{
    let (a, w, c) = (before.a, before.w, before.c);
    law_total_adds_products(a, w, i, j);
    assert(Seq::new(
        a.cols as nat,
        |p: int|
            a.data@[a.origin + i * a.strides.rs + p * a.strides.cs].element().val()
                * w.codec.decoded(
                w.codes@[j * (w.cols as int / B as int) + p / B as int],
                p % B as int,
            ).element().val(),
    ) =~= Seq::new(
        a.cols as nat,
        |p: int|
            a.data@[a.origin + i * a.strides.rs + p * a.strides.cs].element().val()
                * w.codec.entries@[w.codes@[j * (w.cols as int / B as int) + p
                / B as int].place() as int % N as int]@[p % B as int].element().val(),
    ));
    law_plain_cells::<E, O>(linear, total(a, w, i, j), c.cell(i, j), mode);
    assert(before.cell_total(i, j) == total(a, w, i, j));
    let _ = after.c.cell(i, j);
}

/// A cell of a tile of kernel sums adds up the products of its row and its column,
/// step `p` of row `i` at `p * mr + i` of its panel and step `p` of column `j` at
/// `p * nr + j`, up to a multiple of the extent of the lane.
pub proof fn law_tiles_add_products<E: Element, L: KernelWord>(
    acc: Seq<L>,
    pa: Seq<E>,
    pb: Seq<E>,
    mr: int,
    nr: int,
    kc: int,
    i: int,
    j: int,
)
    requires
        tile_is(acc, pa, pb, mr, nr, kc),
        0 <= i < mr,
        0 <= j < nr,
        0 <= kc,
    ensures
        (acc[i * nr + j].word() - added(
            Seq::new(kc as nat, |p: int| pa[p * mr + i].val() * pb[p * nr + j].val()),
        )) % L::extent() == 0,
{
    let f = |p: int| pa[p * mr + i].val() * pb[p * nr + j].val();
    law_sum_adds_up(f, 0, kc);
    assert(Seq::new((kc - 0) as nat, |p: int| f(0 + p)) =~= Seq::new(
        kc as nat,
        |p: int| pa[p * mr + i].val() * pb[p * nr + j].val(),
    ));
    assert(cong(acc[i * nr + j].word(), tile_sum(pa, pb, mr, nr, i, j, kc), L::extent()));
}

/// The bounds of alphabets: of the element type, none, and a declared number; and
/// elements with one fingerprint are one element.
pub proof fn law_bounds_of_alphabets<const M: u128>(
    a: i8,
    b: i8,
    c: i16,
    d: i16,
    e: i32,
    f: i32,
    g: i64,
    h: i64,
)
    ensures
        <Full<i8> as Bound>::bound() == 128,
        <Full<i16> as Bound>::bound() == 32768,
        <Full<i32> as Bound>::bound() == 2147483648,
        <Full<i64> as Bound>::bound() == 9223372036854775808,
        <Whole<i8> as Bound>::bound() == u128::MAX,
        <Whole<i16> as Bound>::bound() == u128::MAX,
        <Whole<i32> as Bound>::bound() == u128::MAX,
        <Whole<i64> as Bound>::bound() == u128::MAX,
        <Bnd<M> as Bound>::bound() == M,
        a.fingerprint() == b.fingerprint() <==> a == b,
        c.fingerprint() == d.fingerprint() <==> c == d,
        e.fingerprint() == f.fingerprint() <==> e == f,
        g.fingerprint() == h.fingerprint() <==> g == h,
{
}

/// A strided view is given exactly where the places that its cells span are there,
/// and it starts so that its lowest cell is the first place; a view of nothing is
/// always given. The strides of consecutive rows and of a transpose are what they
/// say.
pub proof fn law_views_span_their_places(len: int, rows: int, cols: int, s: Strides, i: int, j: int)
    requires
        0 <= i < rows,
        0 <= j < cols,
    ensures
        0 <= home(rows, cols, s) + i * s.rs + j * s.cs,
        exists|x: int, y: int|
            0 <= x < rows && 0 <= y < cols && home(rows, cols, s) + #[trigger] (x * s.rs)
                + #[trigger] (y * s.cs) == 0,
        spans(len, rows, cols, s) ==> home(rows, cols, s) + i * s.rs + j * s.cs < len,
        !spans(len, rows, cols, s) ==> exists|x: int, y: int|
            0 <= x < rows && 0 <= y < cols && home(rows, cols, s) + #[trigger] (x * s.rs)
                + #[trigger] (y * s.cs) >= len,
        spans(len, 0, cols, s) && spans(len, rows, 0, s),
        home(0, cols, s) == 0 && home(rows, 0, s) == 0,
        swapped(s).rs == s.cs && swapped(s).cs == s.rs,
        forall|width: usize|
            width <= isize::MAX ==> (#[trigger] row_strides(width)).rs == width && row_strides(
                width,
            ).cs == 1,
{
    let (m, n) = (rows - 1, cols - 1);
    let (rs, cs) = (s.rs as int, s.cs as int);
    assert(m * rs == if rs < 0 {
        -(m * magnitude(rs))
    } else {
        m * magnitude(rs)
    }) by (nonlinear_arith);
    assert(n * cs == if cs < 0 {
        -(n * magnitude(cs))
    } else {
        n * magnitude(cs)
    }) by (nonlinear_arith);
    assert(if rs < 0 {
        m * rs <= i * rs <= 0
    } else {
        0 <= i * rs <= m * rs
    }) by (nonlinear_arith)
        requires
            0 <= i <= m,
    ;
    assert(if cs < 0 {
        n * cs <= j * cs <= 0
    } else {
        0 <= j * cs <= n * cs
    }) by (nonlinear_arith)
        requires
            0 <= j <= n,
    ;
    let (low_i, high_i) = if rs < 0 {
        (m, 0)
    } else {
        (0, m)
    };
    let (low_j, high_j) = if cs < 0 {
        (n, 0)
    } else {
        (0, n)
    };
    assert(0 * rs == 0 && 0 * cs == 0);
    assert(home(rows, cols, s) + low_i * s.rs + low_j * s.cs == 0);
    if !spans(len, rows, cols, s) {
        assert(home(rows, cols, s) + high_i * s.rs + high_j * s.cs >= len);
    }
}

/// An output aliases itself exactly where two different cells lie the same strides
/// away from the first.
pub proof fn law_aliasing(rows: int, cols: int, s: Strides)
    ensures
        aliases(rows, cols, s) <==> exists|i: int, j: int, x: int, y: int|
            #![trigger i * s.rs, j * s.cs, x * s.rs, y * s.cs]
            0 <= i < rows && 0 <= j < cols && 0 <= x < rows && 0 <= y < cols && (i != x || j != y)
                && i * s.rs + j * s.cs == x * s.rs + y * s.cs,
{
    if aliases(rows, cols, s) {
        let (i, j, x, y) = choose|i: int, j: int, x: int, y: int|
            #![trigger offset(s, i, j), offset(s, x, y)]
            0 <= i < rows && 0 <= j < cols && 0 <= x < rows && 0 <= y < cols && (i != x || j != y)
                && offset(s, i, j) == offset(s, x, y);
        assert(i * s.rs + j * s.cs == x * s.rs + y * s.cs);
    }
    if exists|i: int, j: int, x: int, y: int|
        #![trigger i * s.rs, j * s.cs, x * s.rs, y * s.cs]
        0 <= i < rows && 0 <= j < cols && 0 <= x < rows && 0 <= y < cols && (i != x || j != y) && i
            * s.rs + j * s.cs == x * s.rs + y * s.cs {
        let (i, j, x, y) = choose|i: int, j: int, x: int, y: int|
            #![trigger i * s.rs, j * s.cs, x * s.rs, y * s.cs]
            0 <= i < rows && 0 <= j < cols && 0 <= x < rows && 0 <= y < cols && (i != x || j != y)
                && i * s.rs + j * s.cs == x * s.rs + y * s.cs;
        assert(offset(s, i, j) == offset(s, x, y));
    }
}

/// A product leaves its operands, its window, and every place of the output that is
/// no cell's as they were.
pub proof fn law_product_touches_its_cells_only<
    'a,
    'w,
    'c,
    E: Element,
    Bd: Bound,
    C: Enumerable<E, Bd>,
    O: Output,
    Ep: Epilogue<E, O>,
>(
    before: TabulatedTriple<'a, 'w, 'c, E, Bd, C, O>,
    after: TabulatedTriple<'a, 'w, 'c, E, Bd, C, O>,
    epilogue: Ep,
    mode: EncodeMode,
    at: int,
)
    requires
        after.is_product_of(before, epilogue, mode),
    ensures
        after.a == before.a,
        after.w == before.w,
        before.extents() == (Shape { m: before.a.rows, k: before.a.cols, n: before.w.rows }),
        after.c.rows == before.c.rows,
        after.c.cols == before.c.cols,
        after.c.origin == before.c.origin,
        after.c.strides == before.c.strides,
        ({
            let (now, was, s) = (after.c, before.c, before.c.strides);
            &&& now.data@.len() == was.data@.len()
            &&& 0 <= at < was.data@.len() && now.data@[at] != was.data@[at] ==> exists|
                i: int,
                j: int,
            |
                0 <= i < was.rows && 0 <= j < was.cols && at == was.origin + #[trigger] (i * s.rs)
                    + #[trigger] (j * s.cs)
        }),
{
    let (now, was, s) = (after.c, before.c, before.c.strides);
    if 0 <= at < was.data@.len() && now.data@[at] != was.data@[at] {
        assert(was.owns(at));
        let (i, j) = choose|i: int, j: int|
            0 <= i < was.rows && 0 <= j < was.cols && was.origin + #[trigger] offset(s, i, j) == at;
        assert(at == was.origin + i * s.rs + j * s.cs);
    }
}

/// A dense total adds up the products of a row of one matrix and a column of the
/// other, and so does a page the products of a row and a run.
pub proof fn law_dense_totals_add_products<E: Element, Bd: Bound>(
    a: MatView<'_, Alphabet<E, Bd>>,
    b: MatView<'_, E>,
    run: Seq<E>,
    i: int,
    j: int,
)
    ensures
        dense_total(a, b, i, j) == added(
            Seq::new(
                a.cols as nat,
                |p: int|
                    a.data@[a.origin + i * a.strides.rs + p * a.strides.cs].element().val()
                        * b.data@[b.origin + p * b.strides.rs + j * b.strides.cs].val(),
            ),
        ),
        sum(page_terms(a, run), 0, run.len() as int) == added(
            Seq::new(
                run.len(),
                |p: int|
                    a.data@[a.origin + 0 * a.strides.rs + p * a.strides.cs].element().val()
                        * run[p].val(),
            ),
        ),
{
    let f = dense_terms(a, b, i, j);
    law_sum_adds_up(f, 0, a.cols as int);
    assert(Seq::new((a.cols - 0) as nat, |p: int| f(0 + p)) =~= Seq::new(
        a.cols as nat,
        |p: int|
            a.data@[a.origin + i * a.strides.rs + p * a.strides.cs].element().val()
                * b.data@[b.origin + p * b.strides.rs + j * b.strides.cs].val(),
    ));
    let g = page_terms(a, run);
    law_sum_adds_up(g, 0, run.len() as int);
    assert(Seq::new((run.len() - 0) as nat, |p: int| g(0 + p)) =~= Seq::new(
        run.len(),
        |p: int|
            a.data@[a.origin + 0 * a.strides.rs + p * a.strides.cs].element().val()
                * run[p].val(),
    ));
}

/// A table word of an entry adds up the products of its elements with the
/// activations of its row of the tile, up to a multiple of the extent of the lane;
/// of entries of signs only, where the build looks at signs only.
pub proof fn law_tables_add_products<E: Element, L: Lane<E>>(
    sequence: Sequence,
    out: Seq<L>,
    codes: int,
    block: int,
    rows: int,
    book: Seq<E>,
    acts: Seq<E>,
    c: int,
    i: int,
)
    requires
        built::<E, L>(sequence, out, codes, block, rows, book, acts),
        0 <= block,
        0 <= c < codes,
        0 <= i < rows,
        sequence != Sequence::SignMask || forall|t: int|
            0 <= t < block ==> -1 <= (#[trigger] book[c * block + t]).val() <= 1,
    ensures
        (out[c * rows + i].word() - added(
            Seq::new(
                block as nat,
                |t: int| acts[t * rows + i].val() * book[c * block + t].val(),
            ),
        )) % L::extent() == 0,
{
    let f = |t: int| acts[t * rows + i].val() * book[c * block + t].val();
    law_sum_adds_up(f, 0, block);
    assert(Seq::new((block - 0) as nat, |t: int| f(0 + t)) =~= Seq::new(
        block as nat,
        |t: int| acts[t * rows + i].val() * book[c * block + t].val(),
    ));
    assert(entry_suits(sequence, book, block, c));
    assert(cong(
        out[c * rows + i].word(),
        entry_sum(book, acts, block, rows, c, i),
        L::extent(),
    ));
}

/// A gathered lane has grown by the words at its place of the entries that were
/// named, one of each slot, up to a multiple of the extent of the lane.
pub proof fn law_gathers_add_entries<E: Element, L: Lane<E>>(
    before: Seq<L>,
    after: Seq<L>,
    at: int,
    stack: Seq<L>,
    slab: int,
    rows: int,
    entry: spec_fn(int) -> int,
    from: int,
    to: int,
    i: int,
)
    requires
        column_gathered::<E, L>(before, after, at, stack, slab, rows, entry, from, to),
        from <= to,
        0 <= i < rows,
    ensures
        (after[at + i].word() - before[at + i].word() - added(
            Seq::new(
                (to - from) as nat,
                |s: int| stack[(from + s) * slab + entry(from + s) * rows + i].word(),
            ),
        )) % L::extent() == 0,
{
    let f = column_words::<E, L>(stack, slab, rows, entry, i);
    law_sum_adds_up(f, from, to);
    assert(Seq::new((to - from) as nat, |s: int| f(from + s)) =~= Seq::new(
        (to - from) as nat,
        |s: int| stack[(from + s) * slab + entry(from + s) * rows + i].word(),
    ));
    let total = sum(f, from, to);
    assert(cong(after[at + i].word(), before[at + i].word() + total, L::extent()));
}

/// The same of the gathers of a group of columns: by offsets, of which the bits
/// above the slab and below an entry are dropped, and by codes, modulo the entries of
/// a slab.
pub proof fn law_grouped_gathers_add_entries<E: Element, L: Lane<E>>(
    before: Seq<L>,
    after: Seq<L>,
    u: int,
    rows: usize,
    group: int,
    stack: Seq<L>,
    slab: usize,
    off: Seq<u32>,
    codes: IndexStream<'_>,
    stride: int,
    depth: int,
    v: int,
)
    requires
        0 <= depth,
        0 <= v < rows,
    ensures
        masked_column::<E, L>(before, after, u, rows, group, stack, slab, off, depth) ==> (after[u
            * rows + v].word() - before[u * rows + v].word() - added(
            Seq::new(
                depth as nat,
                |s: int|
                    stack[s * slab + (off[s * group + u] & (((slab as u32) - 1) as u32) & !((
                    (rows as u32) - 1) as u32)) + v].word(),
            ),
        )) % L::extent() == 0,
        coded_column::<E, L>(
            before,
            after,
            u,
            rows as int,
            stack,
            slab as int,
            codes,
            stride,
            depth,
        ) ==> (after[u * rows + v].word() - before[u * rows + v].word() - added(
            Seq::new(
                depth as nat,
                |s: int|
                    stack[s * slab + (codes.at(u * stride + s) % (slab as int / rows as int)) * rows
                        + v].word(),
            ),
        )) % L::extent() == 0,
{
    let by_offset = |s: int|
        stack[s * slab + masked(off[s * group + u], slab as u32, rows as u32) as int + v].word();
    let by_code = |s: int|
        stack[s * slab + (codes.at(u * stride + s) % (slab as int / rows as int)) * rows + v].word();
    law_sum_adds_up(by_offset, 0, depth);
    law_sum_adds_up(by_code, 0, depth);
    assert forall|x: u32, a: u32, b: u32| #[trigger] (x & (a & !b)) == x & a & !b by {
        assert(x & (a & !b) == x & a & !b) by (bit_vector);
    }
    assert(Seq::new((depth - 0) as nat, |s: int| by_offset(0 + s)) =~= Seq::new(
        depth as nat,
        |s: int|
            stack[s * slab + (off[s * group + u] & (((slab as u32) - 1) as u32) & !((
            (rows as u32) - 1) as u32)) + v].word(),
    ));
    assert(Seq::new((depth - 0) as nat, |s: int| by_code(0 + s)) =~= Seq::new(
        depth as nat,
        |s: int|
            stack[s * slab + (codes.at(u * stride + s) % (slab as int / rows as int)) * rows
                + v].word(),
    ));
    if masked_column::<E, L>(before, after, u, rows, group, stack, slab, off, depth) {
        let base = |s: int| masked(off[s * group + u], slab as u32, rows as u32) as int;
        crate::arith::lemma_sum_ext(
            |s: int| stack[s * (slab as int) + base(s) + v].word(),
            by_offset,
            0,
            depth,
        );
        assert(cong(
            after[u * rows + v].word(),
            before[u * rows + v].word() + sum(
                |s: int| stack[s * (slab as int) + base(s) + v].word(),
                0,
                depth,
            ),
            L::extent(),
        ));
    }
    if coded_column::<E, L>(
        before,
        after,
        u,
        rows as int,
        stack,
        slab as int,
        codes,
        stride,
        depth,
    ) {
        let base = |s: int| (codes.at(u * stride + s) % (slab as int / rows as int)) * (rows as int);
        crate::arith::lemma_sum_ext(
            |s: int| stack[s * (slab as int) + base(s) + v].word(),
            by_code,
            0,
            depth,
        );
        assert(cong(
            after[u * rows + v].word(),
            before[u * rows + v].word() + sum(
                |s: int| stack[s * (slab as int) + base(s) + v].word(),
                0,
                depth,
            ),
            L::extent(),
        ));
    }
}

/// A reduced row adds up its products with the column, its elements one after the
/// other; and a cell of panels packed by fours those of its row and its column, four
/// `q` of row `i` from `(q * mr + i) * 4` on and of column `j` from
/// `(q * nr + j) * 4` on; up to a multiple of the extent of the lane.
pub proof fn law_reductions_add_products(
    acc: Seq<i32>,
    pa: Seq<i8>,
    pb: Seq<i8>,
    kc: int,
    rows: int,
    mr: int,
    nr: int,
    groups: int,
    i: int,
    j: int,
)
    requires
        0 <= kc,
        0 <= groups,
    ensures
        rows_reduced(acc, pa, pb, kc, rows) && 0 <= i < rows ==> (acc[i] - added(
            Seq::new(kc as nat, |p: int| pa[i * kc + p] * pb[p]),
        )) % 0x1_0000_0000 == 0,
        packed_at(acc, pa, pb, mr, nr, 0, groups) && 0 <= i < mr && 0 <= j < nr ==> (acc[i * nr + j]
            - added(
            Seq::new(
                groups as nat,
                |q: int|
                    pa[(q * mr + i) * 4] * pb[(q * nr + j) * 4] + pa[(q * mr + i) * 4 + 1] * pb[(q
                        * nr + j) * 4 + 1] + pa[(q * mr + i) * 4 + 2] * pb[(q * nr + j) * 4 + 2]
                        + pa[(q * mr + i) * 4 + 3] * pb[(q * nr + j) * 4 + 3],
            ),
        )) % 0x1_0000_0000 == 0,
{
    let f = |p: int| pa[i * kc + p] * pb[p];
    law_sum_adds_up(f, 0, kc);
    assert(Seq::new((kc - 0) as nat, |p: int| f(0 + p)) =~= Seq::new(
        kc as nat,
        |p: int| pa[i * kc + p] * pb[p],
    ));
    if rows_reduced(acc, pa, pb, kc, rows) && 0 <= i < rows {
        assert(cong(acc[i] as int, row_dot(pa, pb, kc, i, kc), 0x1_0000_0000));
    }
    let g = |q: int| quad_sum(pa, (q * mr + i) * 4, pb, (q * nr + j) * 4);
    law_sum_adds_up(g, 0, groups);
    assert(Seq::new((groups - 0) as nat, |q: int| g(0 + q)) =~= Seq::new(
        groups as nat,
        |q: int|
            pa[(q * mr + i) * 4] * pb[(q * nr + j) * 4] + pa[(q * mr + i) * 4 + 1] * pb[(q * nr
                + j) * 4 + 1] + pa[(q * mr + i) * 4 + 2] * pb[(q * nr + j) * 4 + 2] + pa[(q * mr
                + i) * 4 + 3] * pb[(q * nr + j) * 4 + 3],
    )) by {
        reveal_with_fuel(sum, 6);
    }
    if packed_at(acc, pa, pb, mr, nr, 0, groups) && 0 <= i < mr && 0 <= j < nr {
        assert(cong(
            acc[i * nr + j] as int,
            packed_sum(pa, pb, mr, nr, i, j, groups),
            0x1_0000_0000,
        ));
    }
}

/// The parts that kernels are made of: a group adds up its products, an element is
/// biased by half an octet's extent, and octets and their halves, bytes and their
/// words are read in two's complement.
pub proof fn law_parts_of_kernels(
    a: Seq<i16>,
    b: Seq<i16>,
    group: int,
    l: int,
    x: i8,
    low: u8,
    high: u8,
)
    requires
        0 <= group,
    ensures
        group_sum(a, b, group, l) == added(
            Seq::new(group as nat, |g: int| a[g] * b[l * group + g]),
        ),
        shift_of(true) == 128,
        shift_of(false) == 0,
        (octet(x) - x) % 256 == 0,
        0 <= octet(x) < 256,
        octet(x) % 16 + 16 * signed_nibble(octet(x) / 16) == x,
        -0x8000 <= word_of(low, high) < 0x8000,
        (word_of(low, high) - (low + 256 * high)) % 0x1_0000 == 0,
{
    let f = |g: int| a[g] * b[l * group + g];
    law_sum_adds_up(f, 0, group);
    assert(Seq::new((group - 0) as nat, |g: int| f(0 + g)) =~= Seq::new(
        group as nat,
        |g: int| a[g] * b[l * group + g],
    ));
}

/// Rows are numbered by kind: two rows have one number exactly where their elements
/// are the same throughout, the numbers are those below the count of kinds, and no
/// number comes before a smaller one has.
pub proof fn law_kinds_of_rows<E: Element, Bd: Bound>(
    a: MatView<'_, Alphabet<E, Bd>>,
    index: Seq<usize>,
    kinds: int,
    i: int,
    j: int,
    number: int,
)
    requires
        kinds_known(a, index, kinds),
        0 <= i < a.rows,
        0 <= j < a.rows,
    ensures
        index[i] == index[j] <==> forall|p: int|
            0 <= p < a.cols ==> (#[trigger] a.cell(i, p)).element() == a.cell(j, p).element(),
        index[i] < kinds,
        0 <= number < index[i] ==> exists|x: int| 0 <= x < i && #[trigger] index[x] == number,
        0 <= number < kinds ==> exists|x: int| 0 <= x < a.rows && #[trigger] index[x] == number,
{
    reveal(kinds_equal);
    assert(same_rows(a, i, j) == forall|p: int|
        0 <= p < a.cols ==> (#[trigger] a.cell(i, p)).element() == a.cell(j, p).element());
    if 0 <= number < index[i] {
        lemma_numbers_borne(index, i, number);
    }
    if 0 <= number < kinds {
        lemma_numbers_borne(index, a.rows as int, number);
    }
}

/// Rows kept by kind give back every row: the elements of a row lie one after the
/// other, as many rows in as the number of its kind.
pub proof fn law_kept_rows<E: Element, Bd: Bound>(
    a: MatView<'_, Alphabet<E, Bd>>,
    index: Seq<usize>,
    kept: Seq<Alphabet<E, Bd>>,
    i: int,
    p: int,
)
    requires
        rows_kept(a, index, kept),
        0 <= i < a.rows,
        0 <= p < a.cols,
    ensures
        kept[index[i] * a.cols + p].element() == a.data@[a.origin + i * a.strides.rs + p
            * a.strides.cs].element(),
{
    assert(a.cell(i, p) == a.data@[a.origin + i * a.strides.rs + p * a.strides.cs]);
}

/// The activations loaded for a block lie step by step, the rows of the tile within
/// a step: each is the element of its row at its own step of the block, at the grade
/// of the activations.
pub proof fn law_loaded_blocks<E: Tabulated, Bd: Bound, C: Enumerable<E, Bd>>(
    tile: Tile<'_, E, Bd, C>,
    acts: Seq<E>,
    p: int,
    t: int,
    i: int,
)
    requires
        tile.loaded(acts, p),
        0 <= t < C::block(),
        0 <= i < tile.rows,
    ensures
        ({
            let (a, step) = (tile.a, p * C::block() + t);
            acts[t * tile.rows + i] == a.data@[a.origin + (tile.row0 + i) * a.strides.rs + step
                * a.strides.cs].element().graded(tile.scale.base_a)
        }),
{
    let _ = acts[t * tile.rows + i];
}

proof fn lemma_numbers_borne(index: Seq<usize>, n: int, number: int)
    requires
        0 <= n,
    ensures
        0 <= number < next_kind(index, n) ==> exists|x: int|
            0 <= x < n && #[trigger] index[x] == number,
    decreases n,
{
    if n > 0 {
        lemma_numbers_borne(index, n - 1, number);
        if 0 <= number < next_kind(index, n) && number >= next_kind(index, n - 1) {
            assert(index[n - 1] == number);
        }
    }
}

/// Columns are led to the first that is the same: `at` names the first column for
/// `j` exactly where their codes name the same places throughout and those of no
/// earlier column do; and as many are counted as are their own first.
pub proof fn law_first_columns<'c, E: Element, Bd: Bound, C: Enumerable<E, Bd>>(
    codes: &'c [C::Code],
    per_row: usize,
    n: usize,
    position: Seq<usize>,
    j: int,
    i: int,
)
    requires
        firsts_known(
            (Columns::<'c, E, Bd, C> { codes, per_row, n, of: PhantomData }),
            position,
            n as int,
        ),
        n * per_row <= codes@.len(),
        0 <= j < n,
    ensures
        position[j] <= j,
        forall|p: int|
            0 <= p < per_row ==> C::index(#[trigger] codes@[position[j] * per_row + p])
                == C::index(codes@[j * per_row + p]),
        0 <= i < position[j] ==> exists|p: int|
            0 <= p < per_row && C::index(#[trigger] codes@[i * per_row + p]) != C::index(
                codes@[j * per_row + p],
            ),
{
    let keys = Columns::<'c, E, Bd, C> { codes, per_row, n, of: PhantomData };
    let at = position[j] as int;
    assert(is_first(keys, at, j));
    let k = per_row as int;
    lemma_column_in(codes@.len() as int, n as int, k, at);
    lemma_column_in(codes@.len() as int, n as int, k, j);
    let (x, y) = (places::<E, Bd, C>(keys.column(at)), places::<E, Bd, C>(keys.column(j)));
    assert forall|p: int| 0 <= p < k implies C::index(#[trigger] codes@[at * k + p]) == C::index(
        codes@[j * k + p],
    ) by {
        assert(x[p] == y[p]);
    }
    if 0 <= i < at {
        lemma_column_in(codes@.len() as int, n as int, k, i);
        let z = places::<E, Bd, C>(keys.column(i));
        assert(!keys.same(i, j));
        if forall|p: int|
            0 <= p < k ==> C::index(#[trigger] codes@[i * k + p]) == C::index(codes@[j * k + p]) {
            assert forall|p: int| 0 <= p < k implies z[p] == y[p] by {
                let _ = codes@[i * k + p];
            }
            assert(z =~= y);
        }
    }
}

proof fn lemma_column_in(len: int, n: int, k: int, j: int)
    requires
        n * k <= len,
        0 <= j < n,
        0 <= k,
    ensures
        0 <= j * k,
        j * k + k <= len,
{
    assert(0 <= j * k && j * k + k <= n * k) by (nonlinear_arith)
        requires
            0 <= j < n,
            0 <= k,
    ;
}

/// A map of columns leads column `j` to the first column of its block that bears its
/// mark, counted from the start of the block, and tells of each block whether every
/// column leads to itself.
pub proof fn law_maps_lead_to_firsts(
    map: ColumnMap<'_>,
    mark: Seq<usize>,
    n: int,
    cols: int,
    b: int,
    j: int,
    i: int,
)
    requires
        map.maps(mark, n, cols),
        0 < cols,
        0 <= b,
        b * cols <= j < b * cols + cols,
        j < n,
        b < ceil_div(n, cols),
    ensures
        ({
            let at = map.first@[j] as int;
            &&& b * cols + at <= j
            &&& mark[b * cols + at] == mark[j]
            &&& b * cols <= i < b * cols + at ==> mark[i] != mark[j]
        }),
        map.identity@[b] == 1 || map.identity@[b] == 0,
        map.identity@[b] == 1 ==> map.first@[j] == j - b * cols,
        map.identity@[b] == 0 ==> exists|x: int|
            b * cols <= x < b * cols + cols && x < n && #[trigger] map.first@[x] != x - b * cols,
{
    assert((b + 1) * cols == b * cols + cols) by (nonlinear_arith);
    assert(0 <= b * cols) by (nonlinear_arith)
        requires
            0 <= b,
            0 < cols,
    ;
    crate::workspace::lemma_block_start(j, cols, b);
    assert(is_local_first(mark, cols, map.first@[j] as int, j));
}

/// What the integer families are: octets and 16-bit words in lanes of their own that
/// are read out of narrow words, wider ones in lanes that are read out of
/// accumulators, and those alone modulo their width.
pub proof fn law_integer_families(bits: nat, narrow: nat, exact: nat, rest: nat, depth: nat)
    ensures
        !<i8 as Tabulated>::modular(bits) && !<i16 as Tabulated>::modular(bits),
        <i32 as Tabulated>::modular(bits) <==> bits <= 32,
        <i64 as Tabulated>::modular(bits) <==> bits <= 64,
        !<i8 as Tabulated>::lane_exact() && !<i16 as Tabulated>::lane_exact(),
        <i32 as Tabulated>::lane_exact() && <i64 as Tabulated>::lane_exact(),
        <i8 as Tabulated>::lanes_in(false, narrow, exact) * 4 == narrow * 8,
        <i16 as Tabulated>::lanes_in(false, narrow, exact) * 8 == narrow * 8,
        <i32 as Tabulated>::lanes_in(false, narrow, exact) * 16 == exact * 16,
        <i64 as Tabulated>::lanes_in(false, narrow, exact) * 24 == exact * 24,
        <i32 as Tabulated>::lanes_in(true, narrow, exact) * 4 == exact * 16,
        <i64 as Tabulated>::lanes_in(true, narrow, exact) * 8 == exact * 24,
        <i8 as Tabulated>::takes_dense(rest, depth) <==> depth <= rest,
        <i16 as Tabulated>::takes_dense(rest, depth) <==> depth <= rest,
        <i32 as Tabulated>::takes_dense(rest, depth) <==> depth <= rest,
        <i64 as Tabulated>::takes_dense(rest, depth) <==> depth <= rest,
        <i8 as Tabulated>::collapses_rows() && <i16 as Tabulated>::collapses_rows(),
        <i32 as Tabulated>::collapses_rows() && <i64 as Tabulated>::collapses_rows(),
        <i32 as Lane<i8>>::width() == 4 && <i32 as Lane<i32>>::width() == 4,
        <i64 as Lane<i16>>::width() == 8 && <i64 as Lane<i64>>::width() == 8,
        <i128 as Lane<i32>>::width() == 16 && <[u64; 3] as Lane<i64>>::width() == 24,
        <i32 as Lane<i8>>::cap() == Some((pow2(31) - 1) as nat),
        <i64 as Lane<i16>>::cap() == Some((pow2(63) - 1) as nat),
        <i128 as Lane<i32>>::cap() is None && <[u64; 3] as Lane<i64>>::cap() is None,
        <i32 as Lane<i8>>::extent() == pow2(32) && <i32 as Lane<i32>>::extent() == pow2(32),
        <i64 as Lane<i16>>::extent() == pow2(64) && <i64 as Lane<i64>>::extent() == pow2(64),
        <i128 as Lane<i32>>::extent() == pow2(128),
        <[u64; 3] as Lane<i64>>::extent() == pow2(192),
        <i32 as Lane<i8>>::precision() == pow2(128) && <i64 as Lane<i16>>::precision() == pow2(128),
        <i128 as Lane<i32>>::precision() == pow2(128),
        <[u64; 3] as Lane<i64>>::precision() == pow2(192),
        <i32 as Lane<i32>>::precision() == pow2(32) && <i64 as Lane<i64>>::precision() == pow2(64),
{
    vstd::arithmetic::power2::lemma2_to64();
    vstd::arithmetic::power2::lemma2_to64_rest();
    vstd::arithmetic::power2::lemma_pow2_adds(64, 64);
    vstd::arithmetic::power2::lemma_pow2_adds(64, 128);
}

/// Which table sequences the families run: octets never multiply to build, and look
/// at signs only where the bound is one; the others multiply; vector sequences run
/// where the host has them, for tiles of sixteen and eight rows and one or two
/// columns, unless another backend is asked for.
pub proof fn law_sequences_of_families(
    backend: Backend,
    host: Host,
    bound: nat,
    sign_book: bool,
    rows: usize,
    group: usize,
)
    requires
        bound <= u128::MAX,
    ensures
        ({
            let vector = host.neon && (rows == 16 || rows == 8) && (group == 1 || group == 2) && (
            backend == Backend::Auto || backend == Backend::Neon);
            let octets = <i8 as Tabulated>::sequence_for(
                false,
                backend,
                host,
                bound,
                sign_book,
                rows as nat,
                group as nat,
            );
            let words = <i16 as Tabulated>::sequence_for(
                false,
                backend,
                host,
                bound,
                sign_book,
                rows as nat,
                group as nat,
            );
            let wide = <i32 as Tabulated>::sequence_for(
                false,
                backend,
                host,
                bound,
                sign_book,
                rows as nat,
                group as nat,
            );
            &&& octets == (TableSpec {
                backend: if vector {
                    Backend::Neon
                } else {
                    Backend::Portable
                },
                rows,
                group,
                k_group: 1,
                lanes_per_add: if vector {
                    4
                } else {
                    1
                },
                build_products_per_step: if vector && bound <= 1 {
                    4
                } else {
                    1
                },
                lane_cap: 0x7fff_ffff,
                max_bound: if bound <= 1 {
                    1
                } else {
                    u128::MAX
                },
                build_multiplies: false,
                sequence: if bound <= 1 {
                    Sequence::SignMask
                } else {
                    Sequence::Lookup
                },
            })
            &&& words == (TableSpec {
                backend: if vector {
                    Backend::Neon
                } else {
                    Backend::Portable
                },
                rows,
                group,
                k_group: 1,
                lanes_per_add: if vector {
                    2
                } else {
                    1
                },
                build_products_per_step: if vector {
                    2
                } else {
                    1
                },
                lane_cap: 0x7fff_ffff_ffff_ffff,
                max_bound: u128::MAX,
                build_multiplies: true,
                sequence: Sequence::Product,
            })
            &&& wide == (TableSpec {
                backend: Backend::Portable,
                rows,
                group,
                k_group: 1,
                lanes_per_add: 1,
                build_products_per_step: 1,
                lane_cap: u128::MAX,
                max_bound: u128::MAX,
                build_multiplies: true,
                sequence: Sequence::Product,
            })
            &&& forall|modular: bool|
                wide == #[trigger] <i64 as Tabulated>::sequence_for(
                    modular,
                    backend,
                    host,
                    bound,
                    sign_book,
                    rows as nat,
                    group as nat,
                )
            &&& forall|modular: bool|
                wide == #[trigger] <i32 as Tabulated>::sequence_for(
                    modular,
                    backend,
                    host,
                    bound,
                    sign_book,
                    rows as nat,
                    group as nat,
                )
        }),
{
}

/// What a dense step covers, by family and host: of octets sixty-four products in
/// 512-bit registers with the dot product, sixteen in 256-bit ones, sixteen in
/// 128-bit ones with the dot product and eight without; of 32-bit words two in
/// 128-bit registers; and otherwise one.
pub proof fn law_dense_steps(host: Host, bound: nat, rows: nat, table: usize)
    ensures
        ({
            let vnni = host.avx512f && host.avx512bw && host.avx512vnni;
            let octets = |backend: Backend|
                <i8 as Tabulated>::steps_for(backend, host, bound, rows, table as nat);
            let words = |backend: Backend|
                <i32 as Tabulated>::steps_for(backend, host, bound, rows, table as nat);
            &&& octets(Backend::Avx512Vnni).dense == if vnni {
                64usize
            } else {
                1
            }
            &&& octets(Backend::Avx2).dense == if host.avx2 {
                16usize
            } else {
                1
            }
            &&& octets(Backend::NeonDotprod).dense == if host.dotprod {
                16usize
            } else {
                1
            }
            &&& octets(Backend::Neon).dense == if host.neon {
                8usize
            } else {
                1
            }
            &&& octets(Backend::Portable).dense == 1
            &&& octets(Backend::Auto).dense == if vnni {
                64usize
            } else if host.avx2 || host.dotprod {
                16
            } else if host.neon {
                8
            } else {
                1
            }
            &&& words(Backend::Auto).dense == if host.neon {
                2usize
            } else {
                1
            }
            &&& words(Backend::Neon) == words(Backend::Auto)
            &&& words(Backend::Portable).dense == 1 && words(Backend::Avx2).dense == 1
            &&& words(Backend::Avx512Vnni).dense == 1 && words(Backend::NeonDotprod).dense == 1
            &&& forall|backend: Backend|
                {
                    let s = #[trigger] octets(backend);
                    s.table == table && s.dense_rows == 4
                }
            &&& forall|backend: Backend|
                #[trigger] words(backend) == (Steps {
                    table,
                    dense: words(backend).dense,
                    dense_rows: 4,
                })
            &&& forall|backend: Backend|
                #[trigger] <i16 as Tabulated>::steps_for(backend, host, bound, rows, table as nat)
                    == (Steps { table, dense: 1, dense_rows: 4 })
            &&& forall|backend: Backend|
                #[trigger] <i64 as Tabulated>::steps_for(backend, host, bound, rows, table as nat)
                    == (Steps { table, dense: 1, dense_rows: 4 })
        }),
{
}

/// A member of an alphabet has the number of its element, and is within the bound
/// where the magnitude of the number is.
pub proof fn law_members_of_alphabets<E: Element, Bd: Bound>(x: Alphabet<E, Bd>)
    ensures
        x.val() == x.element().val(),
        x.inv() <==> (x.val() <= Bd::bound() && -x.val() <= Bd::bound()),
{
}

/// Every code of a book of at most as many entries as codes tell apart is valid, the
/// book is ready where every element of the table is within the bound, and its codes
/// are a stream of their own numbers exactly where the entries are a power of two;
/// and the same of a book of digits, of which every octet is an entry.
pub proof fn law_books_are_open<
    't,
    E: Element,
    Bd: Bound,
    const N: usize,
    const B: usize,
    K: SymbolCode,
    const SIGNS: bool,
>(
    book: Book<'t, E, Bd, N, B, K>,
    digits: Digits<'t, E, Bd, N, B, K, SIGNS>,
    code: K,
    e: nat,
)
    requires
        N > 0,
    ensures
        <Book<'t, E, Bd, N, B, K> as Enumerable<E, Bd>>::valid(code) <==> N <= K::room(),
        book.ready() <==> forall|c: int, t: int|
            0 <= c < N && 0 <= t < B ==> (#[trigger] book.entries@[c]@[t]).inv(),
        N == pow2(e) ==> <Book<'t, E, Bd, N, B, K> as Enumerable<E, Bd>>::streams(),
        <Book<'t, E, Bd, N, B, K> as Enumerable<E, Bd>>::streams() ==> is_pow2(N as int),
        <Book<'t, E, Bd, N, B, K> as Enumerable<E, Bd>>::stored(code) == code.place(),
        <Book<'t, E, Bd, N, B, K> as Enumerable<E, Bd>>::addressable(),
        !<Book<'t, E, Bd, N, B, K> as Enumerable<E, Bd>>::sign_book(),
        <Digits<'t, E, Bd, N, B, K, SIGNS> as Enumerable<E, Bd>>::valid(code) <==> 256 <= K::room(),
        <Digits<'t, E, Bd, N, B, K, SIGNS> as Enumerable<E, Bd>>::space() == (if 256
            <= K::room() {
            256nat
        } else {
            0
        }),
        digits.ready() <==> forall|c: int| 0 <= c < N ==> (#[trigger] digits.symbols@[c]).inv(),
        <Digits<'t, E, Bd, N, B, K, SIGNS> as Enumerable<E, Bd>>::streams(),
        <Digits<'t, E, Bd, N, B, K, SIGNS> as Enumerable<E, Bd>>::stored(code) == code.place(),
        <Digits<'t, E, Bd, N, B, K, SIGNS> as Enumerable<E, Bd>>::addressable(),
{
    law_power_rounds_up(N as nat, e);
    if slab_of(N as int) == N {
        crate::arith::lemma_ceil_pow2(N as nat);
    }
}

/// The tables of a factor hold, byte by byte, its products with every low half of an
/// octet, and its products with every high half at its place; and an interleaved
/// register holds the steps of a column next to each other.
pub proof fn law_tables_of_a_factor(
    row: Seq<u8>,
    a: int,
    n: int,
    words: Seq<i16>,
    pb: Seq<i8>,
    base: int,
    nr: int,
    group: int,
    j: int,
    g: int,
)
    requires
        0 <= n < 16,
        0 <= j < nr,
        0 <= g < group,
    ensures
        tables_of(row, a) ==> (row[n] + 256 * row[16 + n] - a * n) % 0x1_0000 == 0,
        tables_of(row, a) ==> (row[32 + n] + 256 * row[48 + n] - a * 16 * (if n < 8 {
            n
        } else {
            n - 16
        })) % 0x1_0000 == 0,
        interleaved(words, pb, base, nr, group) ==> words[j * group + g] == pb[(base + g) * nr + j],
{
    if tables_of(row, a) {
        let _ = row[n];
        let (x, y) = (word_of(row[n], row[16 + n]), word_of(row[32 + n], row[48 + n]));
        assert(x == a * n);
        assert(y == a * 16 * signed_nibble(n));
    }
}

/// The extents of the kernel tiles, and of the words that a hash, a tile, a cache and
/// a floating-point significand take.
pub proof fn law_declared_extents()
    ensures
        crate::isa::avx2::MR == 6 && crate::isa::avx2::NR == 16 && crate::isa::avx2::K_GROUP == 2,
        crate::isa::avx512vnni::MR == 8 && crate::isa::avx512vnni::NR == 16,
        crate::isa::avx512vnni::K_GROUP == 2 && crate::isa::avx512vnni::BYTE_GROUP == 4,
        crate::isa::avx512vnni::BYTE_LANE_CAP == (i32::MAX as int / 255) * 128,
        crate::isa::neon::MR == 4 && crate::isa::neon::NR == 8 && crate::isa::neon::K_GROUP == 8,
        crate::isa::neon_dotprod::MR == 8 && crate::isa::neon_dotprod::NR == 12,
        crate::isa::neon_dotprod::K_GROUP == 4,
        crate::isa::packed::DOT_MR == 8 && crate::isa::packed::DOT_NR == 12,
        crate::isa::tropical::NEON_TROP_MR == 4 && crate::isa::tropical::NEON_TROP_NR == 8,
        crate::isa::portable::MR == 4 && crate::isa::portable::NR == 4,
        crate::sizing::ROW_TILES@ == seq![16usize, 8, 4, 2, 1],
        crate::sizing::TALLEST_TILE == 16,
        crate::f32_q::SIGNIFICAND_BITS == 24,
        crate::f32_q::MIN_FACTOR_EXP == -149,
        crate::f32_q::MAX_FACTOR_EXP - crate::f32_q::MIN_FACTOR_EXP + 1 == 254,
        crate::f32_q::PRODUCT_BOUND == (pow2(24) - 1) * (pow2(24) - 1),
{
    vstd::arithmetic::power2::lemma2_to64();
    assert(crate::sizing::ROW_TILES@ =~= seq![16usize, 8, 4, 2, 1]);
}

} // verus!
