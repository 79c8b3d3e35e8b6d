//! The streamed product: one dot product per cell, with a lane no longer than
//! it can carry.
use crate::arith::{
    cong, lemma_cong_add, lemma_cong_refl, lemma_cong_trans, lemma_sum_bound, lemma_sum_ext,
    lemma_sum_split, sum,
};
use crate::census::{enter_decoded, enter_multiplied, Ledger, Tally};
use crate::codec::{CodedMatrix, Enumerable};
use crate::dense::{lemma_exact, lemma_product_reach, mac_step};
use crate::element::{Accumulator, Alphabet, Bound, Element};
use crate::epilogue::{EncodeMode, Epilogue, Output};
use crate::family::Tabulated;
use crate::lane::{capacity_of, Lane};
use crate::rows::{cell_done, same_operands};
use crate::triple::{total, TabulatedTriple};
use crate::view::MatView;
use vstd::prelude::*;

verus! {

/// Two runs of elements, walked together.
pub trait Pairs<E: Element> {
    /// Pairs there are.
    spec fn count(&self) -> int;

    /// The products of the pairs.
    spec fn products(&self) -> spec_fn(int) -> int;

    /// Pair `p`.
    fn pair(&self, p: usize) -> (r: (E, E))
        requires
            p < self.count(),
        ensures
            self.products()(p as int) == r.0.val() * r.1.val(),
    ;

    /// Each product is one of elements.
    proof fn products_reach(&self, p: int)
        requires
            0 <= p < self.count(),
        ensures
            -(E::reach() * E::reach()) <= self.products()(p) <= E::reach() * E::reach(),
    ;
}

/// Every stretch of at most `run` products is carried over by a lane.
pub open spec fn runs_hold<E: Element, L: Lane<E>>(
    f: spec_fn(int) -> int,
    depth: int,
    run: int,
) -> bool {
    forall|lo: int, hi: int|
        0 <= lo <= hi <= depth && hi - lo <= run ==> L::holds(#[trigger] sum(f, lo, hi))
}

/// The dot product of a walk, in lanes of at most `run` products; where a lane
/// takes none, every product goes to the total by itself.
pub fn dot_walk<E: Element, L: Lane<E>, P: Pairs<E>>(pairs: &P, depth: usize, run: usize) -> (acc:
    E::Acc)
    requires
        depth <= pairs.count(),
        run > 0 ==> runs_hold::<E, L>(pairs.products(), depth as int, run as int),
        L::precision() == E::Acc::modulus(),
    ensures
        acc.value() == sum(pairs.products(), 0, depth as int),
{
    let ghost f = pairs.products();
    let mut acc: E::Acc = <E::Acc as Accumulator>::zero();
    proof {
        acc.ranged();
        L::laws();
        lemma_cong_refl(0, E::Acc::modulus());
    }
    if run == 0 {
        let mut p: usize = 0;
        while p < depth
            invariant
                p <= depth <= pairs.count(),
                f == pairs.products(),
                cong(acc.value(), sum(f, 0, p as int), E::Acc::modulus()),
            decreases depth - p,
        {
            let (a, w): (E, E) = pairs.pair(p);
            mac_step::<E>(&mut acc, a, w, Ghost(f), Ghost(p as int));
            p = p + 1;
        }
    } else {
        let mut start: usize = 0;
        while start < depth
            invariant
                run > 0,
                start <= depth <= pairs.count(),
                f == pairs.products(),
                runs_hold::<E, L>(f, depth as int, run as int),
                L::precision() == E::Acc::modulus(),
                L::extent() > 0,
                L::blank().word() == 0,
                E::Acc::modulus() > 0,
                cong(acc.value(), sum(f, 0, start as int), E::Acc::modulus()),
            decreases depth - start,
        {
            let end: usize = if run < depth - start {
                start + run
            } else {
                depth
            };
            let lane: L = lane_walk::<E, L, P>(pairs, start, end);
            let next: E::Acc = lane.place(acc);
            proof {
                let m = E::Acc::modulus();
                let v = sum(f, start as int, end as int);
                assert(L::holds(v));
                assert(cong(next.value(), acc.value() + v, m));
                lemma_cong_refl(v, m);
                lemma_cong_add(acc.value(), sum(f, 0, start as int), v, v, m);
                lemma_cong_trans(next.value(), acc.value() + v, sum(f, 0, start as int) + v, m);
                lemma_sum_split(f, 0, start as int, end as int);
            }
            acc = next;
            start = end;
        }
    }
    proof {
        assert forall|p: int| 0 <= p < depth implies -(E::reach() * E::reach()) <= #[trigger] f(p)
            <= E::reach() * E::reach() by {
            pairs.products_reach(p);
        }
        lemma_exact::<E>(acc, f, depth as int);
    }
    acc
}

/// The lane of one stretch of products.
fn lane_walk<E: Element, L: Lane<E>, P: Pairs<E>>(pairs: &P, start: usize, end: usize) -> (lane: L)
    requires
        start <= end <= pairs.count(),
    ensures
        cong(lane.word(), sum(pairs.products(), start as int, end as int), L::extent()),
{
    let ghost f = pairs.products();
    let mut lane: L = L::zero();
    let mut p: usize = start;
    proof {
        L::laws();
        lemma_cong_refl(0, L::extent());
    }
    while p < end
        invariant
            start <= p <= end <= pairs.count(),
            f == pairs.products(),
            L::extent() > 0,
            cong(lane.word(), sum(f, start as int, p as int), L::extent()),
        decreases end - p,
    {
        let (a, w): (E, E) = pairs.pair(p);
        let next: L = lane.mac(a, w);
        proof {
            let m = L::extent();
            let v = f(p as int);
            lemma_cong_refl(v, m);
            lemma_cong_add(lane.word(), sum(f, start as int, p as int), v, v, m);
            lemma_cong_trans(next.word(), lane.word() + v, sum(f, start as int, p as int) + v, m);
        }
        lane = next;
        p = p + 1;
    }
    lane
}

/// A run of activations and a panel of weights.
pub struct SlicePairs<'s, E, Bd> {
    pub a: &'s [Alphabet<E, Bd>],
    pub w: &'s [E],
}

impl<'s, E: Element, Bd: Bound> Pairs<E> for SlicePairs<'s, E, Bd> {
    open spec fn count(&self) -> int {
        if self.a@.len() < self.w@.len() {
            self.a@.len() as int
        } else {
            self.w@.len() as int
        }
    }

    open spec fn products(&self) -> spec_fn(int) -> int {
        |p: int| self.a@[p].val() * self.w@[p].val()
    }

    fn pair(&self, p: usize) -> (r: (E, E)) {
        (self.a[p].get(), self.w[p])
    }

    proof fn products_reach(&self, p: int) {
        lemma_product_reach(self.a@[p].element(), self.w@[p]);
    }
}

/// The dot product of a run of activations with a panel of weights.
pub fn dot_lane<E: Element, Bd: Bound, L: Lane<E>>(
    a: &[Alphabet<E, Bd>],
    w: &[E],
    run: usize,
) -> (acc: E::Acc)
    requires
        a@.len() <= w@.len(),
        run > 0 ==> runs_hold::<E, L>(
            |p: int| a@[p].val() * w@[p].val(),
            a@.len() as int,
            run as int,
        ),
        L::precision() == E::Acc::modulus(),
    ensures
        acc.value() == sum(|p: int| a@[p].val() * w@[p].val(), 0, a@.len() as int),
{
    let pairs: SlicePairs<'_, E, Bd> = SlicePairs { a, w };
    proof {
        assert(pairs.products() == (|p: int| a@[p].val() * w@[p].val()));
    }
    dot_walk::<E, L, SlicePairs<'_, E, Bd>>(&pairs, a.len(), run)
}

/// A row of activations and a panel of weights.
pub struct PanelPairs<'s, 'a, E, Bd> {
    pub a: &'s MatView<'a, Alphabet<E, Bd>>,
    pub i: usize,
    pub w: &'s [E],
}

impl<'s, 'a, E: Element, Bd: Bound> Pairs<E> for PanelPairs<'s, 'a, E, Bd> {
    open spec fn count(&self) -> int {
        if self.a.wf() && self.i < self.a.rows && self.a.cols <= self.w@.len() {
            self.a.cols as int
        } else {
            0
        }
    }

    open spec fn products(&self) -> spec_fn(int) -> int {
        |p: int| self.a.cell(self.i as int, p).val() * self.w@[p].val()
    }

    fn pair(&self, p: usize) -> (r: (E, E)) {
        (self.a.at(self.i, p).get(), self.w[p])
    }

    proof fn products_reach(&self, p: int) {
        lemma_product_reach(self.a.cell(self.i as int, p).element(), self.w@[p]);
    }
}

/// A row of activations and a column of coded weights.
pub struct CodedPairs<'s, 'a, 'w, E: Element, Bd: Bound, C: Enumerable<E, Bd>> {
    pub a: &'s MatView<'a, Alphabet<E, Bd>>,
    pub i: usize,
    pub w: &'s CodedMatrix<'w, E, Bd, C>,
    pub j: usize,
}

impl<'s, 'a, 'w, E: Element, Bd: Bound, C: Enumerable<E, Bd>> Pairs<E> for CodedPairs<
    's,
    'a,
    'w,
    E,
    Bd,
    C,
> {
    open spec fn count(&self) -> int {
        if self.a.wf() && self.w.wf() && self.i < self.a.rows && self.j < self.w.rows && self.a.cols
            == self.w.cols {
            self.a.cols as int
        } else {
            0
        }
    }

    open spec fn products(&self) -> spec_fn(int) -> int {
        |p: int| self.a.cell(self.i as int, p).val() * self.w.entry(self.j as int, p).val()
    }

    fn pair(&self, p: usize) -> (r: (E, E)) {
        (self.a.at(self.i, p).get(), self.w.at(self.j, p).get())
    }

    proof fn products_reach(&self, p: int) {
        lemma_product_reach(
            self.a.cell(self.i as int, p).element(),
            self.w.entry(self.j as int, p).element(),
        );
    }
}

/// Stretches of products within a declared bound are carried over for as long
/// as the capacity of a lane.
pub proof fn lemma_capacity_holds<E: Element, L: Lane<E>>(
    f: spec_fn(int) -> int,
    depth: int,
    bound: int,
    run: int,
)
    requires
        0 <= depth <= usize::MAX,
        0 <= bound,
        match capacity_of(L::cap(), bound) {
            Some(c) => run <= c,
            None => true,
        },
        forall|p: int|
            0 <= p < depth ==> -(bound * bound) <= #[trigger] f(p) <= bound * bound && -(E::reach()
                * E::reach()) <= f(p) <= E::reach() * E::reach(),
    ensures
        runs_hold::<E, L>(f, depth, run),
{
    L::laws();
    assert forall|lo: int, hi: int| 0 <= lo <= hi <= depth && hi - lo <= run implies L::holds(
        #[trigger] sum(f, lo, hi),
    ) by {
        let n = hi - lo;
        match L::cap() {
            Some(c) => {
                let square = bound * bound;
                lemma_sum_bound(f, lo, hi, square);
                if bound == 0 {
                    assert(n * square == 0) by (nonlinear_arith)
                        requires
                            square == bound * bound,
                            bound == 0,
                    ;
                } else {
                    assert(square >= 1) by (nonlinear_arith)
                        requires
                            square == bound * bound,
                            bound >= 1,
                    ;
                    let q = c as int / square;
                    vstd::arithmetic::div_mod::lemma_fundamental_div_mod(c as int, square);
                    assert(n * square <= q * square && q * square == square * q)
                        by (nonlinear_arith)
                        requires
                            n <= q,
                            square >= 1,
                    ;
                }
            },
            None => {
                let square = (E::reach() * E::reach()) as int;
                lemma_sum_bound(f, lo, hi, square);
                assert(0 <= square) by (nonlinear_arith)
                    requires
                        square == E::reach() * E::reach(),
                ;
                assert(n * square <= usize::MAX * square) by (nonlinear_arith)
                    requires
                        n <= usize::MAX,
                        0 <= square,
                ;
            },
        }
    }
}

/// The work of the first `j` columns and of `i` cells of the next: one product
/// per step of each cell, and the weights decoded once per column where there
/// is a panel for them, once per cell where there is not.
pub open spec fn stream_part(m: int, k: int, borrowed: bool, j: int, i: int) -> Tally {
    let cells = j * m + i;
    Tally {
        multiplies: (cells * k) as nat,
        decodes: (if borrowed {
            if i == 0 {
                j * k
            } else {
                (j + 1) * k
            }
        } else {
            cells * k
        }) as nat,
        ..Tally::none()
    }
}

/// The work of a streamed product.
pub open spec fn stream_tally(m: int, k: int, n: int, borrowed: bool) -> Tally {
    Tally {
        multiplies: (m * n * k) as nat,
        decodes: (if borrowed {
            n * k
        } else {
            m * n * k
        }) as nat,
        ..Tally::none()
    }
}

/// The panel holds column `j` of the weights.
pub open spec fn panel_holds<E: Element, Bd: Bound, C: Enumerable<E, Bd>>(
    panel: Seq<E>,
    w: CodedMatrix<'_, E, Bd, C>,
    j: int,
) -> bool {
    &&& w.cols <= panel.len()
    &&& forall|p: int|
        0 <= p < w.cols ==> #[trigger] panel[p] == w.entry(j, p).element()
}

/// The exact total of one cell, from the panel where it holds the column.
fn stream_cell<E: Tabulated, Bd: Bound, C: Enumerable<E, Bd>>(
    a: &MatView<'_, Alphabet<E, Bd>>,
    w: &CodedMatrix<'_, E, Bd, C>,
    panel: &[E],
    borrowed: bool,
    i: usize,
    j: usize,
    run: usize,
) -> (acc: E::Acc)
    requires
        a.wf(),
        w.wf(),
        a.cols == w.cols,
        i < a.rows,
        j < w.rows,
        forall|x: int, p: int|
            0 <= x < a.rows && 0 <= p < a.cols ==> (#[trigger] a.cell(x, p)).inv(),
        borrowed ==> panel_holds(panel@, *w, j as int),
        match capacity_of(
            <E::StreamLane as Lane<E>>::cap(),
            Bd::bound() as int,
        ) {
            Some(c) => run <= c,
            None => true,
        },
    ensures
        acc.value() == total(*a, *w, i as int, j as int),
{
    let ghost f = |p: int| a.cell(i as int, p).val() * w.entry(j as int, p).val();
    proof {
        E::family_laws();
        assert forall|p: int| 0 <= p < a.cols implies -(Bd::bound() * Bd::bound()) <= #[trigger] f(
            p,
        ) <= Bd::bound() * Bd::bound() && -(E::reach() * E::reach()) <= f(p) <= E::reach()
            * E::reach() by {
            w.lemma_entry(j as int, p);
            crate::integers::lemma_square(
                a.cell(i as int, p).val(),
                w.entry(j as int, p).val(),
                Bd::bound() as int,
            );
            lemma_product_reach(a.cell(i as int, p).element(), w.entry(j as int, p).element());
        }
    }
    if !borrowed {
        let pairs: CodedPairs<'_, '_, '_, E, Bd, C> = CodedPairs { a, i, w, j };
        proof {
            assert(pairs.products() == f);
            lemma_capacity_holds::<E, E::StreamLane>(
                f,
                a.cols as int,
                Bd::bound() as int,
                run as int,
            );
        }
        return dot_walk::<E, E::StreamLane, CodedPairs<'_, '_, '_, E, Bd, C>>(
            &pairs,
            a.cols,
            run,
        );
    }
    match a.row_slice(i) {
        Some(row) => {
            let head: &[E] = vstd::slice::slice_subrange(panel, 0, a.cols);
            let ghost g = |p: int| row@[p].val() * head@[p].val();
            proof {
                assert forall|p: int| 0 <= p < a.cols implies #[trigger] f(p) == g(p) by {
                    assert(row@[p] == a.cell(i as int, p));
                    assert(head@[p] == panel@[p]);
                }
                assert forall|p: int| 0 <= p < a.cols implies -(Bd::bound() * Bd::bound())
                    <= #[trigger] g(p) <= Bd::bound() * Bd::bound() && -(E::reach() * E::reach())
                    <= g(p) <= E::reach() * E::reach() by {
                    assert(f(p) == g(p));
                }
                lemma_sum_ext(f, g, 0, a.cols as int);
                lemma_capacity_holds::<E, E::StreamLane>(
                    g,
                    a.cols as int,
                    Bd::bound() as int,
                    run as int,
                );
            }
            dot_lane::<E, Bd, E::StreamLane>(row, head, run)
        },
        None => {
            let pairs: PanelPairs<'_, '_, E, Bd> = PanelPairs { a, i, w: panel };
            let ghost g = pairs.products();
            proof {
                assert forall|p: int| 0 <= p < a.cols implies #[trigger] f(p) == g(p) by {
                    assert(panel@[p] == w.entry(j as int, p).element());
                }
                assert forall|p: int| 0 <= p < a.cols implies -(Bd::bound() * Bd::bound())
                    <= #[trigger] g(p) <= Bd::bound() * Bd::bound() && -(E::reach() * E::reach())
                    <= g(p) <= E::reach() * E::reach() by {
                    assert(f(p) == g(p));
                }
                lemma_sum_ext(f, g, 0, a.cols as int);
                lemma_capacity_holds::<E, E::StreamLane>(
                    g,
                    a.cols as int,
                    Bd::bound() as int,
                    run as int,
                );
            }
            dot_walk::<E, E::StreamLane, PanelPairs<'_, '_, E, Bd>>(&pairs, a.cols, run)
        },
    }
}

/// Finishes every cell from its own dot product. A panel as long as the
/// reduction holds one column of weights at a time.
pub fn stream<
    'a,
    'w,
    'c,
    E: Tabulated,
    Bd: Bound,
    C: Enumerable<E, Bd>,
    O: Output,
    Ep: Epilogue<E, O>,
    Lg: Ledger,
>(
    triple: &mut TabulatedTriple<'a, 'w, 'c, E, Bd, C, O>,
    epilogue: &Ep,
    mode: EncodeMode,
    panel: &mut [E],
    ledger: &mut Lg,
)
    requires
        old(triple).wf(),
    ensures
        final(triple).wf(),
        final(triple).is_product_of(*old(triple), *epilogue, mode),
        final(final(triple).c.data)@ == final(old(triple).c.data)@,
        final(panel)@.len() == old(panel)@.len(),
        *final(ledger) == old(ledger).charged(
            stream_tally(
                old(triple).a.rows as int,
                old(triple).a.cols as int,
                old(triple).w.rows as int,
                old(panel)@.len() >= old(triple).a.cols,
            ),
        ),
{
    let (m, k, n): (usize, usize, usize) = (triple.a.rows, triple.a.cols, triple.w.rows);
    let reads: bool = epilogue.reads_c();
    let borrowed: bool = panel.len() >= k;
    let run: usize = match <E::StreamLane as Lane<E>>::capacity(Bd::value()) {
        Some(run) => run,
        None => usize::MAX,
    };
    let ghost before = *triple;
    let ghost begun = *ledger;
    let ghost (mi, ki, ni) = (m as int, k as int, n as int);
    proof {
        begun.charges_nothing();
        assert(0 * mi == 0 && 0 * ki == 0);
        assert(stream_part(mi, ki, borrowed, 0, 0) == Tally::none());
    }
    let mut j: usize = 0;
    while j < n
        invariant
            before == *old(triple),
            begun == *old(ledger),
            same_operands(*triple, before),
            final(triple.c.data)@ == final(old(triple).c.data)@,
            m == mi == before.a.rows,
            k == ki == before.a.cols,
            n == ni == before.w.rows,
            panel@.len() == old(panel)@.len(),
            borrowed == (panel@.len() >= k),
            reads == epilogue.reads(),
            match capacity_of(<E::StreamLane as Lane<E>>::cap(), Bd::bound() as int) {
                Some(c) => run <= c,
                None => true,
            },
            j <= n,
            forall|x: int, y: int|
                0 <= x < m && 0 <= y < n ==> if y < j {
                    cell_done(*triple, before, *epilogue, mode, x, y)
                } else {
                    (#[trigger] triple.c.cell(x, y)) == before.c.cell(x, y)
                },
            *ledger == begun.charged(stream_part(mi, ki, borrowed, j as int, 0)),
        decreases n - j,
    {
        if borrowed {
            triple.w.decode_row_into(j, panel);
            enter_decoded(ledger, k, 1);
        }
        let ghost decoded = Tally::decoding((if borrowed { ki } else { 0 }) as nat);
        proof {
            assert(k * 1 == k);
            begun.charges_compose(
                stream_part(mi, ki, borrowed, j as int, 0),
                Tally::decoding(k as nat),
            );
            let t = stream_part(mi, ki, borrowed, j as int, 0);
            assert(t.plus(Tally::decoding(0)) == t);
        }
        let mut i: usize = 0;
        while i < m
            invariant
                before == *old(triple),
                begun == *old(ledger),
                same_operands(*triple, before),
                final(triple.c.data)@ == final(old(triple).c.data)@,
                m == mi == before.a.rows,
                k == ki == before.a.cols,
                n == ni == before.w.rows,
                panel@.len() == old(panel)@.len(),
                borrowed == (panel@.len() >= k),
                borrowed ==> panel_holds(panel@, before.w, j as int),
                reads == epilogue.reads(),
                match capacity_of(<E::StreamLane as Lane<E>>::cap(), Bd::bound() as int) {
                    Some(c) => run <= c,
                    None => true,
                },
                j < n,
                i <= m,
                forall|x: int, y: int|
                    0 <= x < m && 0 <= y < n ==> if y < j || (y == j && x < i) {
                        cell_done(*triple, before, *epilogue, mode, x, y)
                    } else {
                        (#[trigger] triple.c.cell(x, y)) == before.c.cell(x, y)
                    },
                decoded == Tally::decoding((if borrowed { ki } else { 0 }) as nat),
                *ledger == begun.charged(
                    if i == 0 {
                        stream_part(mi, ki, borrowed, j as int, 0).plus(decoded)
                    } else {
                        stream_part(mi, ki, borrowed, j as int, i as int)
                    },
                ),
            decreases m - i,
        {
            let acc: E::Acc = stream_cell(&triple.a, &triple.w, panel, borrowed, i, j, run);
            let ghost spent = if i == 0 {
                stream_part(mi, ki, borrowed, j as int, 0).plus(decoded)
            } else {
                stream_part(mi, ki, borrowed, j as int, i as int)
            };
            if !borrowed {
                enter_decoded(ledger, k, 1);
            }
            enter_multiplied(ledger, k, 1, 1);
            proof {
                assert(k * 1 == k && k * 1 * 1 == k);
                let d = Tally::decoding(k as nat);
                let u = Tally::multiplying(k as nat);
                begun.charges_compose(spent, d);
                begun.charges_compose(spent.plus(d), u);
                begun.charges_compose(spent, u);
                lemma_stream_step(mi, ki, borrowed, j as int, i as int);
            }
            let prior: Option<O> = if reads {
                Some(*triple.c.at(i, j))
            } else {
                None
            };
            triple.c.put(i, j, epilogue.finish(acc, prior, mode));
            i = i + 1;
        }
        proof {
            lemma_stream_column(mi, ki, borrowed, j as int);
            if m == 0 {
                assert(stream_part(mi, ki, borrowed, j as int, 0).plus(decoded) == stream_part(
                    mi,
                    ki,
                    borrowed,
                    j + 1,
                    0,
                ));
            }
        }
        j = j + 1;
    }
    proof {
        assert(ni * mi + 0 == mi * ni && (mi * ni) * ki == mi * ni * ki) by (nonlinear_arith);
        assert(stream_part(mi, ki, borrowed, ni, 0) == stream_tally(mi, ki, ni, borrowed));
    }
}

proof fn lemma_stream_step(m: int, k: int, borrowed: bool, j: int, i: int)
    requires
        0 <= m,
        0 <= k,
        0 <= j,
        0 <= i,
    ensures
        ({
            let spent = if i == 0 {
                stream_part(m, k, borrowed, j, 0).plus(
                    Tally::decoding((if borrowed { k } else { 0 }) as nat),
                )
            } else {
                stream_part(m, k, borrowed, j, i)
            };
            let u = Tally::multiplying(k as nat);
            let d = Tally::decoding(k as nat);
            stream_part(m, k, borrowed, j, i + 1) == if borrowed {
                spent.plus(u)
            } else {
                spent.plus(d).plus(u)
            }
        }),
{
    let cells = j * m + i;
    assert((cells + 1) * k == cells * k + k) by (nonlinear_arith);
    assert((j + 1) * k == j * k + k) by (nonlinear_arith);
    assert(0 <= j * m) by (nonlinear_arith)
        requires
            0 <= j,
            0 <= m,
    ;
    assert(0 <= cells * k) by (nonlinear_arith)
        requires
            0 <= cells,
            0 <= k,
    ;
    assert(0 <= j * k) by (nonlinear_arith)
        requires
            0 <= j,
            0 <= k,
    ;
}

proof fn lemma_stream_column(m: int, k: int, borrowed: bool, j: int)
    requires
        0 <= m,
        0 <= k,
        0 <= j,
    ensures
        m > 0 ==> stream_part(m, k, borrowed, j, m) == stream_part(m, k, borrowed, j + 1, 0),
        m == 0 ==> stream_part(m, k, borrowed, j, 0).plus(
            Tally::decoding((if borrowed { k } else { 0 }) as nat),
        ) == stream_part(m, k, borrowed, j + 1, 0),
{
    assert(j * m + m == (j + 1) * m) by (nonlinear_arith);
    assert((j + 1) * k == j * k + k) by (nonlinear_arith);
    assert(0 <= j * k) by (nonlinear_arith)
        requires
            0 <= j,
            0 <= k,
    ;
    if m == 0 {
        assert(j * m == 0 && (j + 1) * m == 0) by (nonlinear_arith)
            requires
                m == 0,
        ;
    }
}

} // verus!
