//! The dense stream: columns of weights decoded a page at a time, and handed to
//! the family's own dense product.
use crate::arith::{ceil_div, lemma_sum_ext, lemma_sum_shift, lemma_sum_split, sum};
use crate::blocking;
use crate::census::{enter_decoded, Ledger, Tally};
use crate::codec::{CodedMatrix, Enumerable};
use crate::dense::{dense_terms, dense_total, lemma_exact, lemma_product_reach};
use crate::element::{Accumulator, Alphabet, Bound, Element};
use crate::epilogue::{EncodeMode, Epilogue, Output};
use crate::family::Tabulated;
use crate::plan::{least, min};
use crate::rows::{cell_done, same_operands};
use crate::sizing::TALLEST_TILE;
use crate::triple::{prior_of, total, GemmOptions, TabulatedTriple};
use crate::view::{offset, MatView, MatViewMut, Strides};
use vstd::prelude::*;

verus! {

/// A total kept as it is.
pub struct Captured<A>(pub A);

impl<A: Copy> Copy for Captured<A> {

}

impl<A: Copy> Clone for Captured<A> {
    fn clone(&self) -> (r: Self)
        ensures
            r == *self,
    {
        *self
    }
}

impl<A: Accumulator> Output for Captured<A> {
    open spec fn width_bits() -> nat {
        0
    }

    fn bits() -> (r: u32) {
        0
    }

    open spec fn is_zero(self) -> bool {
        self.0.value() == 0
    }

    fn zero() -> (r: Self) {
        Captured(A::zero())
    }
}

/// The word of a total.
pub open spec fn word_of<A: Accumulator>(total: int) -> A {
    choose|acc: A| acc.value() == total
}

/// An epilogue that keeps the total. Under wrapping, which looks at no bit of
/// it, it keeps nothing.
pub struct DenseCapture;

impl<E: Element> Epilogue<E, Captured<E::Acc>> for DenseCapture {
    open spec fn reads(&self) -> bool {
        false
    }

    open spec fn finished(
        &self,
        total: int,
        prior: Option<Captured<E::Acc>>,
        mode: EncodeMode,
    ) -> Captured<E::Acc> {
        if mode == EncodeMode::Wrapping {
            Captured(word_of::<E::Acc>(0))
        } else {
            Captured(word_of::<E::Acc>(total))
        }
    }

    proof fn wraps(&self, x: int, y: int, prior: Option<Captured<E::Acc>>) {
    }

    fn reads_c(&self) -> (r: bool) {
        false
    }

    fn finish(&self, acc: E::Acc, prior: Option<Captured<E::Acc>>, mode: EncodeMode) -> (r:
        Captured<E::Acc>) {
        let kept: E::Acc = if mode == EncodeMode::Wrapping {
            <E::Acc as Accumulator>::zero()
        } else {
            acc
        };
        proof {
            let v = kept.value();
            let w = word_of::<E::Acc>(v);
            assert(w.value() == v);
            w.told_by_value(kept);
        }
        Captured(kept)
    }
}

/// The products of one row of activations with a page of weights.
pub open spec fn page_terms<E: Element, Bd: Bound>(
    a: MatView<'_, Alphabet<E, Bd>>,
    b: Seq<E>,
) -> spec_fn(int) -> int {
    |p: int| a.cell(0, p).val() * b[p].val()
}

/// The exact total of one row with one page, where the family's dense product
/// is taken with no room beside.
pub fn dense_stream_dot<E: Tabulated, Bd: Bound, Lg: Ledger>(
    a: &MatView<'_, Alphabet<E, Bd>>,
    b: &[E],
    options: GemmOptions,
    ledger: &mut Lg,
) -> (r: Option<E::Acc>)
    requires
        a.wf(),
        a.rows == 1,
        a.cols == b@.len(),
    ensures
        r is Some <==> b@.len() == 0 || E::takes_dense(0, b@.len() as nat),
        r matches Some(acc) ==> acc.value() == sum(page_terms(*a, b@), 0, b@.len() as int),
        *final(ledger) == old(ledger).charged(
            if b@.len() == 0 {
                Tally::none()
            } else {
                Tally::calling(1)
            },
        ),
{
    if b.len() == 0 {
        let zero: E::Acc = <E::Acc as Accumulator>::zero();
        proof {
            ledger.charges_nothing();
        }
        return Some(zero);
    }
    let right: MatView<'_, E> = MatView {
        data: b,
        rows: b.len(),
        cols: 1,
        origin: 0,
        strides: Strides { rs: 1, cs: 1 },
    };
    proof {
        assert(offset(right.strides, b@.len() - 1, 0) == b@.len() - 1);
    }
    let mut sink: [Captured<E::Acc>; 1] = [Captured(<E::Acc as Accumulator>::zero())];
    let mut none: [E; 0] = [];
    ledger.kernelled();
    let quiet: GemmOptions = GemmOptions { encode: EncodeMode::Nearest, ..options };
    let ran: bool;
    let ghost totals: Seq<Captured<E::Acc>>;
    {
        let mut output: MatViewMut<'_, Captured<E::Acc>> = MatViewMut {
            data: &mut sink,
            rows: 1,
            cols: 1,
            origin: 0,
            strides: Strides { rs: 1, cs: 1 },
        };
        ran = E::dense_gemm(a, &right, &mut output, &DenseCapture, quiet, &mut none);
        proof {
            totals = output.data@;
            if ran {
                assert(offset(output.strides, 0, 0) == 0);
                assert(output.cell(0, 0) == totals[0]);
            }
        }
    }
    if !ran {
        return None;
    }
    let kept: E::Acc = sink[0].0;
    proof {
        let f = dense_terms(*a, right, 0, 0);
        let g = page_terms(*a, b@);
        assert forall|p: int| 0 <= p < b@.len() implies #[trigger] f(p) == g(p) by {
            assert(offset(right.strides, p, 0) == p);
        }
        lemma_sum_ext(f, g, 0, b@.len() as int);
        let v = dense_total(*a, right, 0, 0);
        assert(kept == word_of::<E::Acc>(v));
        lemma_word_exists::<E, Bd>(*a, right);
    }
    Some(kept)
}

/// There is a word for the total of any reduction.
proof fn lemma_word_exists<E: Element, Bd: Bound>(
    a: MatView<'_, Alphabet<E, Bd>>,
    b: MatView<'_, E>,
)
    ensures
        word_of::<E::Acc>(dense_total(a, b, 0, 0)).value() == dense_total(a, b, 0, 0),
{
    let f = dense_terms(a, b, 0, 0);
    assert forall|p: int| 0 <= p < a.cols implies -(E::reach() * E::reach()) <= #[trigger] f(p)
        <= E::reach() * E::reach() by {
        lemma_product_reach(a.cell(0, p).element(), b.cell(p, 0));
    }
    lemma_total_word::<E>(f, a.cols as int);
}

/// There is a word for the sum of any run of products.
proof fn lemma_total_word<E: Element>(f: spec_fn(int) -> int, k: int)
    requires
        0 <= k <= usize::MAX,
        forall|p: int|
            0 <= p < k ==> -(E::reach() * E::reach()) <= #[trigger] f(p) <= E::reach() * E::reach(),
    ensures
        word_of::<E::Acc>(sum(f, 0, k)).value() == sum(f, 0, k),
{
    let square = (E::reach() * E::reach()) as int;
    crate::arith::lemma_sum_bound(f, 0, k, square);
    E::roomy();
    assert(0 <= square) by (nonlinear_arith)
        requires
            square == E::reach() * E::reach(),
    ;
    assert(k * square <= usize::MAX * square) by (nonlinear_arith)
        requires
            k <= usize::MAX,
            0 <= square,
    ;
    <E::Acc as Accumulator>::spans(sum(f, 0, k));
    let acc = choose|acc: E::Acc| acc.value() == sum(f, 0, k);
    assert(acc.value() == sum(f, 0, k));
}

/// Pages of a reduction.
pub open spec fn pages(k: int, page: int) -> int {
    ceil_div(k, page)
}

/// The work of a dense stream. With a page as long as the reduction a column is
/// decoded once and handed over a tile of rows at a time; with a shorter page
/// every cell decodes its own pages and adds them up. A family that does not
/// take the product is asked once.
pub open spec fn paged_tally(m: int, k: int, n: int, page: int, takes: bool) -> Tally {
    if page >= k {
        if takes {
            Tally::decoding((n * k) as nat).plus(
                Tally::calling((n * ceil_div(m, TALLEST_TILE as int)) as nat),
            )
        } else {
            Tally::decoding(k as nat).plus(Tally::calling(1))
        }
    } else if takes {
        Tally::decoding((m * n * k) as nat).plus(
            Tally::calling((m * n * pages(k, page)) as nat),
        ).plus(Tally::adding((m * n * (pages(k, page) - 1)) as nat))
    } else {
        Tally::decoding(page as nat).plus(Tally::calling(1))
    }
}

/// Finishes the cells of one column and a tile of rows from a decoded column.
fn column_tile<
    'a,
    'w,
    'c,
    E: Tabulated,
    Bd: Bound,
    C: Enumerable<E, Bd>,
    O: Output,
    Ep: Epilogue<E, O>,
>(
    triple: &mut TabulatedTriple<'a, 'w, 'c, E, Bd, C, O>,
    epilogue: &Ep,
    options: GemmOptions,
    column: &[E],
    j: usize,
    row0: usize,
    rows: usize,
) -> (ran: bool)
    requires
        old(triple).wf(),
        j < old(triple).w.rows,
        0 < rows <= TALLEST_TILE,
        row0 + rows <= old(triple).a.rows,
        column@.len() == old(triple).a.cols,
        crate::stream::panel_holds(column@, old(triple).w, j as int),
    ensures
        ran == E::takes_dense(0, old(triple).a.cols as nat),
        same_operands(*final(triple), *old(triple)),
        final(final(triple).c.data)@ == final(old(triple).c.data)@,
        !ran ==> final(triple).c.data@ == old(triple).c.data@,
        ran ==> forall|x: int, y: int|
            0 <= x < old(triple).a.rows && 0 <= y < old(triple).w.rows ==> if y == j && row0 <= x
                < row0 + rows {
                cell_done(*final(triple), *old(triple), *epilogue, options.encode, x, y)
            } else {
                (#[trigger] final(triple).c.cell(x, y)) == old(triple).c.cell(x, y)
            },
{
    let k: usize = triple.a.cols;
    let reads: bool = epilogue.reads_c();
    let ghost before = *triple;
    let right: MatView<'_, E> = MatView {
        data: column,
        rows: k,
        cols: 1,
        origin: 0,
        strides: Strides { rs: 1, cs: 1 },
    };
    proof {
        if k > 0 {
            let s = right.strides;
            assert((k - 1) * s.rs + 0 * s.cs == k - 1) by (nonlinear_arith)
                requires
                    s.rs == 1,
            ;
        }
    }
    let left: MatView<'_, Alphabet<E, Bd>> = match triple.a.subview(row0, 0, rows, k) {
        Some(left) => left,
        None => {
            return false;
        },
    };
    let mut output: [O; 16] = [O::zero(); 16];
    if reads {
        let mut i: usize = 0;
        while i < rows
            invariant
                *triple == before,
                before.wf(),
                j < before.w.rows,
                rows <= 16,
                row0 + rows <= before.a.rows,
                i <= rows,
                forall|x: int|
                    0 <= x < i ==> #[trigger] output@[x] == before.c.cell(row0 + x, j as int),
            decreases rows - i,
        {
            output[i] = *triple.c.at(row0 + i, j);
            i = i + 1;
        }
    }
    let ghost prior = output@;
    let mut none: [E; 0] = [];
    let ran: bool;
    let ghost written: Seq<O>;
    {
        let mut sink: MatViewMut<'_, O> = MatViewMut {
            data: &mut output,
            rows,
            cols: 1,
            origin: 0,
            strides: Strides { rs: 1, cs: 1 },
        };
        proof {
            assert(offset(sink.strides, rows - 1, 0) == rows - 1);
            assert forall|i: int, p: int, x: int, y: int|
                #![trigger offset(sink.strides, i, p), offset(sink.strides, x, y)]
                0 <= i < rows && 0 <= p < 1 && 0 <= x < rows && 0 <= y < 1 && (i != x || p
                    != y) implies offset(sink.strides, i, p) != offset(sink.strides, x, y) by {}
        }
        ran = E::dense_gemm(&left, &right, &mut sink, epilogue, options, &mut none);
        proof {
            written = sink.data@;
            if ran {
                assert forall|x: int| 0 <= x < rows implies #[trigger] written[x]
                    == epilogue.finished(
                    before.cell_total(row0 + x, j as int),
                    prior_of(epilogue.reads(), before.c.cell(row0 + x, j as int)),
                    options.encode,
                ) by {
                    assert(offset(sink.strides, x, 0) == x);
                    assert(sink.cell(x, 0) == written[x]);
                    let f = dense_terms(left, right, x, 0);
                    let g = |p: int|
                        before.a.cell(row0 + x, p).val() * before.w.entry(j as int, p).val();
                    assert forall|p: int| 0 <= p < k implies #[trigger] f(p) == g(p) by {
                        assert(left.cell(x, p) == before.a.cell(row0 + x, 0 + p));
                        assert(offset(right.strides, p, 0) == p);
                        assert(column@[p] == before.w.entry(j as int, p).element());
                    }
                    lemma_sum_ext(f, g, 0, k as int);
                    if epilogue.reads() {
                        assert(prior[x] == before.c.cell(row0 + x, j as int));
                    }
                }
            }
        }
    }
    if !ran {
        return false;
    }
    let mut i: usize = 0;
    while i < rows
        invariant
            before == *old(triple),
            before.wf(),
            same_operands(*triple, before),
            final(triple.c.data)@ == final(old(triple).c.data)@,
            j < before.w.rows,
            rows <= 16,
            row0 + rows <= before.a.rows,
            i <= rows,
            output@ == written,
            forall|x: int|
                0 <= x < rows ==> #[trigger] written[x] == epilogue.finished(
                    before.cell_total(row0 + x, j as int),
                    prior_of(epilogue.reads(), before.c.cell(row0 + x, j as int)),
                    options.encode,
                ),
            forall|x: int, y: int|
                0 <= x < before.a.rows && 0 <= y < before.w.rows ==> if y == j && row0 <= x < row0
                    + i {
                    cell_done(*triple, before, *epilogue, options.encode, x, y)
                } else {
                    (#[trigger] triple.c.cell(x, y)) == before.c.cell(x, y)
                },
        decreases rows - i,
    {
        assert(written[i as int] == output@[i as int]);
        triple.c.put(row0 + i, j, output[i]);
        i = i + 1;
    }
    true
}

/// The exact total of one cell, a page of weights at a time; nothing where the
/// family does not take the first page.
fn paged_cell<E: Tabulated, Bd: Bound, C: Enumerable<E, Bd>, Lg: Ledger>(
    a: &MatView<'_, Alphabet<E, Bd>>,
    w: &CodedMatrix<'_, E, Bd, C>,
    options: GemmOptions,
    page: &mut [E],
    i: usize,
    j: usize,
    ledger: &mut Lg,
) -> (r: Option<E::Acc>)
    requires
        a.wf(),
        w.wf(),
        a.cols == w.cols,
        i < a.rows,
        j < w.rows,
        0 < old(page)@.len() < a.cols,
    ensures
        final(page)@.len() == old(page)@.len(),
        r is Some <==> E::takes_dense(0, 1),
        r matches Some(acc) ==> acc.value() == total(*a, *w, i as int, j as int),
        *final(ledger) == old(ledger).charged(
            if E::takes_dense(0, 1) {
                cell_tally(a.cols as int, pages(a.cols as int, old(page)@.len() as int))
            } else {
                Tally::decoding(old(page)@.len() as nat).plus(Tally::calling(1))
            },
        ),
{
    let k: usize = a.cols;
    let ghost begun = *ledger;
    let ghost (ki, g) = (k as int, page@.len() as int);
    let ghost f = |p: int| a.cell(i as int, p).val() * w.entry(j as int, p).val();
    let mut acc: E::Acc = <E::Acc as Accumulator>::zero();
    let mut first: bool = true;
    let mut start: usize = 0;
    let ghost mut done: int = 0;
    proof {
        E::family_laws();
        begun.charges_nothing();
        assert(E::takes_dense(0, 1) == E::takes_dense(0, 1));
        assert forall|p: int| 0 <= p < k implies -(E::reach() * E::reach()) <= #[trigger] f(p)
            <= E::reach() * E::reach() by {
            lemma_product_reach(a.cell(i as int, p).element(), w.entry(j as int, p).element());
        }
        assert(0 * g == 0);
    }
    while start < k
        invariant
            a.wf(),
            w.wf(),
            a.cols == w.cols,
            k == ki == a.cols,
            g == page@.len() == old(page)@.len(),
            0 < g < ki,
            i < a.rows,
            j < w.rows,
            begun == *old(ledger),
            f == (|p: int| a.cell(i as int, p).val() * w.entry(j as int, p).val()),
            forall|p: int|
                0 <= p < k ==> -(E::reach() * E::reach()) <= #[trigger] f(p) <= E::reach()
                    * E::reach(),
            forall|d: nat, e: nat|
                d > 0 && e > 0 ==> #[trigger] E::takes_dense(0, d) == #[trigger] E::takes_dense(
                    0,
                    e,
                ),
            start <= k,
            0 <= done,
            start < k ==> start == done * g,
            start == k ==> done == pages(ki, g),
            first == (start == 0),
            start > 0 ==> E::takes_dense(0, 1) && done >= 1,
            start == 0 ==> done == 0,
            acc.value() == sum(f, 0, start as int),
            *ledger == begun.charged(
                if start == 0 {
                    Tally::none()
                } else {
                    cell_tally(start as int, done)
                },
            ),
        decreases k - start,
    {
        let depth: usize = min(k - start, page.len());
        let mut p: usize = 0;
        while p < depth
            invariant
                w.wf(),
                j < w.rows,
                start + depth <= w.cols,
                depth <= page@.len() == g,
                p <= depth,
                forall|x: int|
                    0 <= x < p ==> #[trigger] page@[x] == w.entry(
                        j as int,
                        start + x,
                    ).element(),
            decreases depth - p,
        {
            page[p] = w.at(j, start + p).get();
            p = p + 1;
        }
        let ghost before = *ledger;
        enter_decoded(ledger, depth, 1);
        let left: MatView<'_, Alphabet<E, Bd>> = match a.subview(i, start, 1, depth) {
            Some(left) => left,
            None => {
                return None;
            },
        };
        let b: &[E] = vstd::slice::slice_subrange(&*page, 0, depth);
        let found: Option<E::Acc> = dense_stream_dot(&left, b, options, ledger);
        proof {
            assert(depth * 1 == depth);
            let t = if start == 0 {
                Tally::none()
            } else {
                cell_tally(start as int, done)
            };
            begun.charges_compose(t, Tally::decoding(depth as nat));
            begun.charges_compose(t.plus(Tally::decoding(depth as nat)), Tally::calling(1));
            assert(E::takes_dense(0, depth as nat) == E::takes_dense(0, 1));
            assert(Tally::none().plus(Tally::decoding(depth as nat)) == Tally::decoding(
                depth as nat,
            ));
        }
        let partial: E::Acc = match found {
            Some(partial) => partial,
            None => {
                return None;
            },
        };
        proof {
            let h = page_terms(left, b@);
            assert forall|x: int| 0 <= x < depth implies #[trigger] h(x) == f(x + start) by {
                assert(left.cell(0, x) == a.cell(i + 0, start + x));
                assert(b@[x] == page@[x]);
            }
            lemma_sum_shift(h, f, start as int, 0, depth as int);
            lemma_sum_split(f, 0, start as int, start + depth);
            assert(partial.value() == sum(f, start as int, start + depth));
        }
        if first {
            acc = partial;
            first = false;
        } else {
            ledger.added(1);
            let next: E::Acc = acc.combine(partial);
            proof {
                lemma_exact::<E>(next, f, start + depth);
            }
            acc = next;
        }
        proof {
            let t = if start == 0 {
                Tally::none()
            } else {
                cell_tally(start as int, done)
            };
            let u = t.plus(Tally::decoding(depth as nat)).plus(Tally::calling(1));
            begun.charges_compose(u, Tally::adding(1));
            if start == 0 {
                assert(u == cell_tally(start + depth, done + 1));
            } else {
                assert(u.plus(Tally::adding(1)) == cell_tally(start + depth, done + 1));
            }
            lemma_page_step(ki, g, done, start as int, depth as int);
            done = done + 1;
        }
        start = start + depth;
    }
    Some(acc)
}

/// The work of `pages` pages of one cell that cover `steps` steps.
pub open spec fn cell_tally(steps: int, pages: int) -> Tally {
    Tally::decoding(steps as nat).plus(Tally::calling(pages as nat)).plus(
        Tally::adding((pages - 1) as nat),
    )
}

proof fn lemma_page_step(k: int, g: int, done: int, start: int, depth: int)
    requires
        0 < g,
        0 <= done,
        start == done * g,
        start < k,
        depth == least(k - start, g),
    ensures
        start + depth < k ==> start + depth == (done + 1) * g,
        start + depth == k ==> done + 1 == pages(k, g),
{
    assert((done + 1) * g == done * g + g) by (nonlinear_arith);
    if start + depth == k {
        let rest = g - depth;
        assert(k + g - 1 == g * (done + 1) + (depth - 1)) by (nonlinear_arith)
            requires
                k == done * g + depth,
        ;
        vstd::arithmetic::div_mod::lemma_fundamental_div_mod_converse(
            k + g - 1,
            g,
            done + 1,
            depth - 1,
        );
    }
}

/// The work of `cells` cells, each of `pages` pages.
pub open spec fn cells_tally(k: int, pages: int, cells: int) -> Tally {
    Tally::decoding((cells * k) as nat).plus(Tally::calling((cells * pages) as nat)).plus(
        Tally::adding((cells * (pages - 1)) as nat),
    )
}

proof fn lemma_cells_step(k: int, pages: int, cells: int)
    requires
        0 <= k,
        1 <= pages,
        0 <= cells,
    ensures
        cells_tally(k, pages, cells).plus(cell_tally(k, pages)) == cells_tally(k, pages, cells + 1),
        cells_tally(k, pages, 0) == Tally::none(),
{
    assert((cells + 1) * k == cells * k + k && (cells + 1) * pages == cells * pages + pages && (
    cells + 1) * (pages - 1) == cells * (pages - 1) + (pages - 1)) by (nonlinear_arith);
    assert(0 <= cells * k && 0 <= cells * pages && 0 <= cells * (pages - 1)) by (nonlinear_arith)
        requires
            0 <= cells,
            0 <= k,
            1 <= pages,
    ;
    assert(0 * k == 0 && 0 * pages == 0 && 0 * (pages - 1) == 0);
}

/// Every cell by itself, in pages shorter than the reduction.
fn stream_by_pages<
    'a,
    'w,
    'c,
    E: Tabulated,
    Bd: Bound,
    C: Enumerable<E, Bd>,
    O: Output,
    Ep: Epilogue<E, O>,
    Lg: Ledger,
>(
    triple: &mut TabulatedTriple<'a, 'w, 'c, E, Bd, C, O>,
    epilogue: &Ep,
    options: GemmOptions,
    page: &mut [E],
    ledger: &mut Lg,
) -> (r: bool)
    requires
        old(triple).wf(),
        old(triple).a.rows > 0,
        old(triple).w.rows > 0,
        0 < old(page)@.len() < old(triple).a.cols,
    ensures
        r == E::takes_dense(0, 1),
        final(triple).wf(),
        r ==> final(triple).is_product_of(*old(triple), *epilogue, options.encode),
        !r ==> *final(triple) == *old(triple),
        final(final(triple).c.data)@ == final(old(triple).c.data)@,
        final(page)@.len() == old(page)@.len(),
        *final(ledger) == old(ledger).charged(
            paged_tally(
                old(triple).a.rows as int,
                old(triple).a.cols as int,
                old(triple).w.rows as int,
                old(page)@.len() as int,
                E::takes_dense(0, 1),
            ),
        ),
{
    let (m, n): (usize, usize) = (triple.a.rows, triple.w.rows);
    let reads: bool = epilogue.reads_c();
    let ghost before = *triple;
    let ghost begun = *ledger;
    let ghost (mi, ki, ni) = (m as int, triple.a.cols as int, n as int);
    let ghost g = pages(ki, page@.len() as int);
    proof {
        begun.charges_nothing();
        vstd::arithmetic::div_mod::lemma_div_non_zero(ki + page@.len() - 1, page@.len() as int);
        lemma_cells_step(ki, g, 0);
        assert(0 * mi == 0);
    }
    let mut j: usize = 0;
    while j < n
        invariant
            before == *old(triple),
            begun == *old(ledger),
            same_operands(*triple, before),
            final(triple.c.data)@ == final(old(triple).c.data)@,
            m == mi == before.a.rows,
            ki == before.a.cols,
            n == ni == before.w.rows,
            m > 0,
            page@.len() == old(page)@.len(),
            0 < page@.len() < ki,
            g == pages(ki, page@.len() as int),
            g >= 1,
            reads == epilogue.reads(),
            j <= n,
            j > 0 ==> E::takes_dense(0, 1),
            j == 0 ==> *triple == before,
            forall|x: int, y: int|
                0 <= x < m && 0 <= y < n ==> if y < j {
                    cell_done(*triple, before, *epilogue, options.encode, x, y)
                } else {
                    (#[trigger] triple.c.cell(x, y)) == before.c.cell(x, y)
                },
            *ledger == begun.charged(cells_tally(ki, g, j * mi)),
        decreases n - j,
    {
        let mut i: usize = 0;
        while i < m
            invariant
                before == *old(triple),
                begun == *old(ledger),
                same_operands(*triple, before),
                final(triple.c.data)@ == final(old(triple).c.data)@,
                m == mi == before.a.rows,
                ki == before.a.cols,
                n == ni == before.w.rows,
                page@.len() == old(page)@.len(),
                0 < page@.len() < ki,
                g == pages(ki, page@.len() as int),
                g >= 1,
                reads == epilogue.reads(),
                j < n,
                i <= m,
                j > 0 || i > 0 ==> E::takes_dense(0, 1),
                j == 0 && i == 0 ==> *triple == before,
                forall|x: int, y: int|
                    0 <= x < m && 0 <= y < n ==> if y < j || (y == j && x < i) {
                        cell_done(*triple, before, *epilogue, options.encode, x, y)
                    } else {
                        (#[trigger] triple.c.cell(x, y)) == before.c.cell(x, y)
                    },
                *ledger == begun.charged(cells_tally(ki, g, j * mi + i)),
            decreases m - i,
        {
            let found: Option<E::Acc> = paged_cell(
                &triple.a,
                &triple.w,
                options,
                page,
                i,
                j,
                ledger,
            );
            proof {
                assert(0 <= j * mi) by (nonlinear_arith)
                    requires
                        0 <= mi,
                ;
                lemma_cells_step(ki, g, j * mi + i);
                begun.charges_compose(cells_tally(ki, g, j * mi + i), cell_tally(ki, g));
                if !E::takes_dense(0, 1) {
                    begun.charges_compose(
                        Tally::none(),
                        Tally::decoding(page@.len() as nat).plus(Tally::calling(1)),
                    );
                    let t = Tally::decoding(page@.len() as nat).plus(Tally::calling(1));
                    assert(Tally::none().plus(t) == t);
                }
            }
            let acc: E::Acc = match found {
                Some(acc) => acc,
                None => {
                    return false;
                },
            };
            let prior: Option<O> = if reads {
                Some(*triple.c.at(i, j))
            } else {
                None
            };
            triple.c.put(i, j, epilogue.finish(acc, prior, options.encode));
            i = i + 1;
        }
        assert(j * mi + mi == (j + 1) * mi) by (nonlinear_arith);
        j = j + 1;
    }
    proof {
        let cells = ni * mi;
        assert(cells * ki == mi * ni * ki && cells * g == mi * ni * g && cells * (g - 1) == mi * ni
            * (g - 1)) by (nonlinear_arith)
            requires
                cells == ni * mi,
        ;
    }
    true
}

/// The work of `j` whole columns and of `tiles` tiles of the next, once it is
/// decoded.
pub open spec fn tiles_tally(k: int, per_column: int, j: int, decoded: bool, tiles: int) -> Tally {
    Tally::decoding(
        (if decoded {
            (j + 1) * k
        } else {
            j * k
        }) as nat,
    ).plus(Tally::calling((j * per_column + tiles) as nat))
}

/// Whole columns, a tile of rows at a time.
fn stream_by_columns<
    'a,
    'w,
    'c,
    E: Tabulated,
    Bd: Bound,
    C: Enumerable<E, Bd>,
    O: Output,
    Ep: Epilogue<E, O>,
    Lg: Ledger,
>(
    triple: &mut TabulatedTriple<'a, 'w, 'c, E, Bd, C, O>,
    epilogue: &Ep,
    options: GemmOptions,
    page: &mut [E],
    ledger: &mut Lg,
) -> (r: bool)
    requires
        old(triple).wf(),
        old(triple).a.rows > 0,
        old(triple).w.rows > 0,
        old(page)@.len() >= old(triple).a.cols,
    ensures
        r == E::takes_dense(0, old(triple).a.cols as nat),
        final(triple).wf(),
        r ==> final(triple).is_product_of(*old(triple), *epilogue, options.encode),
        !r ==> same_operands(*final(triple), *old(triple)) && final(triple).c.data@
            == old(triple).c.data@,
        final(final(triple).c.data)@ == final(old(triple).c.data)@,
        final(page)@.len() == old(page)@.len(),
        *final(ledger) == old(ledger).charged(
            paged_tally(
                old(triple).a.rows as int,
                old(triple).a.cols as int,
                old(triple).w.rows as int,
                old(page)@.len() as int,
                E::takes_dense(0, old(triple).a.cols as nat),
            ),
        ),
{
    let (m, k, n): (usize, usize, usize) = (triple.a.rows, triple.a.cols, triple.w.rows);
    let ghost before = *triple;
    let ghost begun = *ledger;
    let ghost (mi, ki, ni) = (m as int, k as int, n as int);
    let ghost tall = TALLEST_TILE as int;
    let ghost t = ceil_div(mi, tall);
    proof {
        begun.charges_nothing();
        assert(0 * ki == 0 && 0 * t == 0);
        assert(tiles_tally(ki, t, 0, false, 0) == Tally::none());
    }
    let mut j: usize = 0;
    while j < n
        invariant
            before == *old(triple),
            begun == *old(ledger),
            same_operands(*triple, before),
            final(triple.c.data)@ == final(old(triple).c.data)@,
            m == mi == before.a.rows,
            k == ki == before.a.cols,
            n == ni == before.w.rows,
            m > 0,
            tall == TALLEST_TILE,
            t == ceil_div(mi, tall),
            page@.len() == old(page)@.len(),
            page@.len() >= k,
            j <= n,
            j > 0 ==> E::takes_dense(0, k as nat),
            j == 0 ==> triple.c.data@ == before.c.data@,
            forall|x: int, y: int|
                0 <= x < m && 0 <= y < n ==> if y < j {
                    cell_done(*triple, before, *epilogue, options.encode, x, y)
                } else {
                    (#[trigger] triple.c.cell(x, y)) == before.c.cell(x, y)
                },
            *ledger == begun.charged(tiles_tally(ki, t, j as int, false, 0)),
        decreases n - j,
    {
        triple.w.decode_row_into(j, page);
        enter_decoded(ledger, k, 1);
        let column: &[E] = vstd::slice::slice_subrange(&*page, 0, k);
        let ghost mut tiles: int = 0;
        proof {
            assert(k * 1 == k);
            begun.charges_compose(
                tiles_tally(ki, t, j as int, false, 0),
                Tally::decoding(k as nat),
            );
            assert((j + 1) * ki == j * ki + ki) by (nonlinear_arith);
            assert(0 <= j * ki) by (nonlinear_arith)
                requires
                    0 <= ki,
            ;
            assert(tiles_tally(ki, t, j as int, false, 0).plus(Tally::decoding(k as nat))
                == tiles_tally(ki, t, j as int, true, 0));
            assert(0 * tall == 0);
        }
        let mut row0: usize = 0;
        while row0 < m
            invariant
                before == *old(triple),
                begun == *old(ledger),
                same_operands(*triple, before),
                final(triple.c.data)@ == final(old(triple).c.data)@,
                m == mi == before.a.rows,
                k == ki == before.a.cols,
                n == ni == before.w.rows,
                tall == TALLEST_TILE,
                t == ceil_div(mi, tall),
                page@.len() == old(page)@.len(),
                page@.len() >= k,
                column@.len() == k,
                crate::stream::panel_holds(column@, before.w, j as int),
                j < n,
                row0 <= m,
                0 <= tiles,
                row0 < m ==> row0 == tiles * tall,
                row0 == m ==> tiles == t,
                j > 0 || row0 > 0 ==> E::takes_dense(0, k as nat),
                j == 0 && row0 == 0 ==> triple.c.data@ == before.c.data@ && tiles == 0,
                forall|x: int, y: int|
                    0 <= x < m && 0 <= y < n ==> if y < j || (y == j && x < row0) {
                        cell_done(*triple, before, *epilogue, options.encode, x, y)
                    } else {
                        (#[trigger] triple.c.cell(x, y)) == before.c.cell(x, y)
                    },
                *ledger == begun.charged(tiles_tally(ki, t, j as int, true, tiles)),
            decreases m - row0,
        {
            let rows: usize = min(m - row0, TALLEST_TILE);
            ledger.kernelled();
            let ghost last = *triple;
            let ran: bool = column_tile(triple, epilogue, options, column, j, row0, rows);
            proof {
                begun.charges_compose(
                    tiles_tally(ki, t, j as int, true, tiles),
                    Tally::calling(1),
                );
                assert(0 <= j * t) by (nonlinear_arith)
                    requires
                        0 <= t,
                ;
                assert(tiles_tally(ki, t, j as int, true, tiles).plus(Tally::calling(1))
                    == tiles_tally(ki, t, j as int, true, tiles + 1));
                if !ran {
                    assert(j * t == 0 && (j + 1) * ki == ki) by (nonlinear_arith)
                        requires
                            j == 0,
                    ;
                }
            }
            if !ran {
                return false;
            }
            proof {
                assert forall|x: int, y: int| 0 <= x < m && 0 <= y < n implies if y < j || (y == j
                    && x < row0 + rows) {
                    cell_done(*triple, before, *epilogue, options.encode, x, y)
                } else {
                    (#[trigger] triple.c.cell(x, y)) == before.c.cell(x, y)
                } by {
                    let _ = last.c.cell(x, y);
                    assert(last.cell_total(x, y) == before.cell_total(x, y));
                }
                lemma_page_step(mi, tall, tiles, row0 as int, rows as int);
                tiles = tiles + 1;
            }
            row0 = row0 + rows;
        }
        proof {
            assert(j * t + t == (j + 1) * t) by (nonlinear_arith);
            assert(tiles_tally(ki, t, j as int, true, t) == tiles_tally(ki, t, j + 1, false, 0));
        }
        j = j + 1;
    }
    true
}

/// The product through a page that is lent: by whole columns where the page is
/// as long as the reduction, and by pages where it is shorter. A family that
/// does not take the product with no room beside is asked once, and nothing is
/// written.
pub fn dense_stream_with_page<
    'a,
    'w,
    'c,
    E: Tabulated,
    Bd: Bound,
    C: Enumerable<E, Bd>,
    O: Output,
    Ep: Epilogue<E, O>,
    Lg: Ledger,
>(
    triple: &mut TabulatedTriple<'a, 'w, 'c, E, Bd, C, O>,
    epilogue: &Ep,
    options: GemmOptions,
    page: &mut [E],
    ledger: &mut Lg,
) -> (r: bool)
    requires
        old(triple).wf(),
        old(triple).a.rows > 0,
        old(triple).a.cols > 0,
        old(triple).w.rows > 0,
        old(page)@.len() > 0,
    ensures
        r == E::takes_dense(0, 1),
        final(triple).wf(),
        r ==> final(triple).is_product_of(*old(triple), *epilogue, options.encode),
        !r ==> same_operands(*final(triple), *old(triple)) && final(triple).c.data@
            == old(triple).c.data@,
        final(final(triple).c.data)@ == final(old(triple).c.data)@,
        final(page)@.len() == old(page)@.len(),
        *final(ledger) == old(ledger).charged(
            paged_tally(
                old(triple).a.rows as int,
                old(triple).a.cols as int,
                old(triple).w.rows as int,
                old(page)@.len() as int,
                E::takes_dense(0, 1),
            ),
        ),
{
    let k: usize = triple.a.cols;
    proof {
        E::family_laws();
        assert(E::takes_dense(0, k as nat) == E::takes_dense(0, 1));
    }
    if page.len() >= k {
        stream_by_columns(triple, epilogue, options, page, ledger)
    } else {
        stream_by_pages(triple, epilogue, options, page, ledger)
    }
}

/// The page of a dense stream: what is lent, or a page of its own.
pub open spec fn page_of(panel: int) -> int {
    if panel > 0 {
        panel
    } else {
        blocking::KC as int
    }
}

/// The product through the panel, or through a page of its own where there is
/// no panel.
pub fn dense_stream<
    'a,
    'w,
    'c,
    E: Tabulated,
    Bd: Bound,
    C: Enumerable<E, Bd>,
    O: Output,
    Ep: Epilogue<E, O>,
    Lg: Ledger,
>(
    triple: &mut TabulatedTriple<'a, 'w, 'c, E, Bd, C, O>,
    epilogue: &Ep,
    options: GemmOptions,
    panel: &mut [E],
    ledger: &mut Lg,
) -> (r: bool)
    requires
        old(triple).wf(),
        old(triple).a.rows > 0,
        old(triple).a.cols > 0,
        old(triple).w.rows > 0,
    ensures
        r == E::takes_dense(0, 1),
        final(triple).wf(),
        r ==> final(triple).is_product_of(*old(triple), *epilogue, options.encode),
        !r ==> same_operands(*final(triple), *old(triple)) && final(triple).c.data@
            == old(triple).c.data@,
        final(final(triple).c.data)@ == final(old(triple).c.data)@,
        final(panel)@.len() == old(panel)@.len(),
        *final(ledger) == old(ledger).charged(
            paged_tally(
                old(triple).a.rows as int,
                old(triple).a.cols as int,
                old(triple).w.rows as int,
                page_of(old(panel)@.len() as int),
                E::takes_dense(0, 1),
            ),
        ),
{
    if panel.len() > 0 {
        return dense_stream_with_page(triple, epilogue, options, panel, ledger);
    }
    let mut page: [E; 256] = [E::zero(); 256];
    dense_stream_with_page(triple, epilogue, options, &mut page, ledger)
}

/// A product with no declared bound is handed to the family's own dense
/// product.
pub fn atlas_stream_route<
    'a,
    'w,
    'c,
    E: Tabulated,
    Bd: Bound,
    C: Enumerable<E, Bd>,
    O: Output,
    Ep: Epilogue<E, O>,
    Lg: Ledger,
>(
    triple: &mut TabulatedTriple<'a, 'w, 'c, E, Bd, C, O>,
    epilogue: &Ep,
    options: GemmOptions,
    panel: &mut [E],
    ledger: &mut Lg,
) -> (r: bool)
    requires
        old(triple).wf(),
        old(triple).a.rows > 0,
        old(triple).w.rows > 0,
    ensures
        r == (Bd::bound() == u128::MAX && old(triple).a.cols > 0 && E::takes_dense(0, 1)),
        final(triple).wf(),
        r ==> final(triple).is_product_of(*old(triple), *epilogue, options.encode),
        !r ==> same_operands(*final(triple), *old(triple)) && final(triple).c.data@
            == old(triple).c.data@,
        final(final(triple).c.data)@ == final(old(triple).c.data)@,
        final(panel)@.len() == old(panel)@.len(),
        *final(ledger) == old(ledger).charged(
            if Bd::bound() == u128::MAX && old(triple).a.cols > 0 {
                paged_tally(
                    old(triple).a.rows as int,
                    old(triple).a.cols as int,
                    old(triple).w.rows as int,
                    page_of(old(panel)@.len() as int),
                    E::takes_dense(0, 1),
                )
            } else {
                Tally::none()
            },
        ),
{
    if Bd::value() != u128::MAX || triple.a.cols == 0 {
        proof {
            ledger.charges_nothing();
        }
        return false;
    }
    dense_stream(triple, epilogue, options, panel, ledger)
}

} // verus!
