//! One tile of rows: what its table holds and what its columns add up to.
use crate::arith::{cong, lemma_sum_bound, lemma_sum_scale, lemma_sum_shift, lemma_sum_split, sum};
use crate::codec::{CodedMatrix, Enumerable};
use crate::element::{Accumulator, Alphabet, Bound, Element};
use crate::family::{rows_gradable, step_limit, step_within, Graded, Tabulated};
use crate::lane::Lane;
use crate::scale::LaneScale;
use crate::sequence::{entry_suits, entry_sum, lemma_cell, Sequence, TableLane, TableSpec};
use crate::triple::total;
use crate::view::MatView;
use vstd::prelude::*;

verus! {

/// Adds every lane to its total and blanks it. The first time the totals are
/// written afresh; after that they are added to.
pub fn place<E: Element, L: Lane<E>>(
    lane: &mut [L],
    acc: &mut [E::Acc],
    count: usize,
    onto: bool,
    exponent: i32,
)
    requires
        count <= old(lane)@.len(),
        count <= old(acc)@.len(),
    ensures
        final(lane)@.len() == old(lane)@.len(),
        final(acc)@.len() == old(acc)@.len(),
        forall|x: int| 0 <= x < count ==> #[trigger] final(lane)@[x] == L::blank(),
        forall|x: int, v: int|
            #![trigger final(acc)@[x], L::holds(v)]
            0 <= x < count && cong(old(lane)@[x].word(), v, L::extent()) && L::holds(v) ==> cong(
                final(acc)@[x].value(),
                (if onto {
                    old(acc)@[x].value()
                } else {
                    0
                }) + v * E::weight(exponent),
                L::precision(),
            ),
{
    let ghost (lane0, acc0) = (lane@, acc@);
    let mut x: usize = 0;
    while x < count
        invariant
            x <= count,
            count <= lane@.len() == lane0.len(),
            count <= acc@.len() == acc0.len(),
            lane0 == old(lane)@,
            acc0 == old(acc)@,
            forall|y: int| 0 <= y < x ==> #[trigger] lane@[y] == L::blank(),
            forall|y: int| x <= y < lane0.len() ==> #[trigger] lane@[y] == lane0[y],
            forall|y: int| x <= y < acc0.len() ==> #[trigger] acc@[y] == acc0[y],
            forall|y: int, v: int|
                #![trigger acc@[y], L::holds(v)]
                0 <= y < x && cong(lane0[y].word(), v, L::extent()) && L::holds(v) ==> cong(
                    acc@[y].value(),
                    (if onto {
                        acc0[y].value()
                    } else {
                        0
                    }) + v * E::weight(exponent),
                    L::precision(),
                ),
        decreases count - x,
    {
        let prior: E::Acc = if onto {
            acc[x]
        } else {
            <E::Acc as Accumulator>::zero()
        };
        let word: L = lane[x];
        let ghost acc1 = acc@;
        acc[x] = word.place_scaled(prior, exponent);
        lane[x] = L::zero();
        proof {
            assert forall|y: int, v: int|
                #![trigger acc@[y], L::holds(v)]
                0 <= y < x + 1 && cong(lane0[y].word(), v, L::extent()) && L::holds(v) implies cong(
                acc@[y].value(),
                (if onto {
                    acc0[y].value()
                } else {
                    0
                }) + v * E::weight(exponent),
                L::precision(),
            ) by {
                if y < x {
                    assert(acc@[y] == acc1[y]);
                } else {
                    assert(lane0[y] == word);
                }
            }
        }
        x = x + 1;
    }
}

/// Whether the lanes must be placed before `next_depth` more blocks are added
/// to a run of `in_run`, where a lane takes `capacity` blocks.
pub fn run_requires_place(in_run: usize, next_depth: usize, capacity: usize) -> (r: bool)
    ensures
        r == (in_run != 0 && in_run + next_depth > capacity),
{
    in_run != 0 && (in_run > capacity || next_depth > capacity - in_run)
}

/// A tile of rows of a product, with the book and the activations that were
/// graded for it.
pub struct Tile<'t, E: Tabulated, Bd: Bound, C: Enumerable<E, Bd>> {
    pub a: MatView<'t, Alphabet<E, Bd>>,
    pub w: CodedMatrix<'t, E, Bd, C>,
    pub scale: LaneScale,
    pub row0: usize,
    pub rows: usize,
    /// The book, graded.
    pub book: &'t [E],
    /// The first rows of `a`, graded.
    pub projected: &'t [E],
    pub projected_rows: usize,
}

impl<'t, E: Tabulated, Bd: Bound, C: Enumerable<E, Bd>> Copy for Tile<'t, E, Bd, C> {

}

impl<'t, E: Tabulated, Bd: Bound, C: Enumerable<E, Bd>> Clone for Tile<'t, E, Bd, C> {
    fn clone(&self) -> (r: Self)
        ensures
            r == *self,
    {
        *self
    }
}

/// The book holds the graded entry of every code of `w`.
pub open spec fn book_ready<E: Graded, Bd: Bound, C: Enumerable<E, Bd>>(
    book: Seq<E>,
    w: CodedMatrix<'_, E, Bd, C>,
    base: i32,
) -> bool {
    &&& C::space() * C::block() <= book.len()
    &&& forall|x: int, t: int|
        #![trigger w.codec.decoded(w.codes@[x], t)]
        0 <= x < w.codes@.len() && 0 <= t < C::block() ==> {
            &&& w.codec.decoded(w.codes@[x], t).element().gradable(base)
            &&& book[C::index(w.codes@[x]) * C::block() + t] == w.codec.decoded(
                w.codes@[x],
                t,
            ).element().graded(base)
        }
}

/// The first `rows` rows of `a`, graded, row after row.
pub open spec fn rows_projected<E: Graded, Bd: Bound>(
    projected: Seq<E>,
    a: MatView<'_, Alphabet<E, Bd>>,
    rows: int,
    base: i32,
) -> bool {
    &&& 0 <= rows <= a.rows
    &&& rows * a.cols <= projected.len()
    &&& forall|i: int, p: int|
        #![trigger projected[i * a.cols + p]]
        0 <= i < rows && 0 <= p < a.cols ==> projected[i * a.cols + p] == a.cell(
            i,
            p,
        ).element().graded(base)
}

impl<'t, E: Tabulated, Bd: Bound, C: Enumerable<E, Bd>> Tile<'t, E, Bd, C> {
    /// The operands conform, the tile lies inside, and what was graded is
    /// graded.
    pub open spec fn wf(self) -> bool {
        &&& self.a.wf()
        &&& self.w.wf()
        &&& self.a.cols == self.w.cols
        &&& self.rows > 0
        &&& self.row0 + self.rows <= self.a.rows
        &&& C::space() > 0
        &&& forall|i: int, p: int|
            0 <= i < self.a.rows && 0 <= p < self.a.cols ==> (#[trigger] self.a.cell(i, p)).inv()
        &&& rows_gradable(self.a, self.scale.base_a)
        &&& book_ready(self.book@, self.w, self.scale.base_b)
        &&& rows_projected(
            self.projected@,
            self.a,
            self.projected_rows as int,
            self.scale.base_a,
        )
        &&& self.bounded()
    }

    /// The scale bounds the steps that it is known of.
    pub open spec fn bounded(self) -> bool {
        &&& E::admissible(Bd::bound(), self.scale)
        &&& E::step_known(self.scale) ==> forall|i: int, p: int, x: int, t: int|
            #![trigger self.a.cell(i, p), self.w.codec.decoded(self.w.codes@[x], t)]
            0 <= i < self.a.rows && 0 <= p < self.a.cols && 0 <= x < self.w.codes@.len() && 0 <= t
                < C::block() ==> step_within(
                self.scale,
                self.a.cell(i, p).element(),
                self.w.codec.decoded(self.w.codes@[x], t).element(),
            )
    }

    /// The graded product of row `i` of the tile with column `j`, at step `p`.
    pub open spec fn term(self, i: int, j: int) -> spec_fn(int) -> int {
        |p: int|
            self.a.cell(self.row0 + i, p).element().graded(self.scale.base_a).val() * self.w.entry(
                j,
                p,
            ).element().graded(self.scale.base_b).val()
    }

    /// Elements per block.
    pub open spec fn block(self) -> int {
        C::block() as int
    }

    /// Blocks of the reduction.
    pub open spec fn blocks(self) -> int {
        self.w.per_row()
    }

    /// The graded dot product of row `i` with column `j` over block `p`.
    pub open spec fn dot(self, i: int, j: int, p: int) -> int {
        sum(self.term(i, j), p * self.block(), (p + 1) * self.block())
    }

    /// The graded sum of row `i` with column `j` over blocks `lo .. hi`.
    pub open spec fn run(self, i: int, j: int, lo: int, hi: int) -> int {
        sum(self.term(i, j), lo * self.block(), hi * self.block())
    }

    /// The place that column `j` names at block `p`.
    pub open spec fn place_at(self, j: int, p: int) -> int {
        C::index(self.w.code(j, p)) as int
    }

    /// The elements of block `p` of a column.
    pub proof fn lemma_block_entry(self, j: int, p: int, t: int)
        requires
            self.wf(),
            0 <= j < self.w.rows,
            0 <= p < self.blocks(),
            0 <= t < self.block(),
        ensures
            self.w.entry(j, p * self.block() + t) == self.w.codec.decoded(self.w.code(j, p), t),
            0 <= p * self.block() + t < self.a.cols,
            self.place_at(j, p) < C::space(),
    {
        let b = self.block();
        vstd::arithmetic::div_mod::lemma_fundamental_div_mod_converse(p * b + t, b, p, t);
        self.w.lemma_code(j, p);
        self.w.codec.names(self.w.code(j, p), t);
        vstd::arithmetic::div_mod::lemma_fundamental_div_mod(self.w.cols as int, b);
        let per = self.blocks();
        assert(0 <= p * b && p * b + b <= per * b && b * per == per * b) by (nonlinear_arith)
            requires
                0 <= p < per,
                b > 0,
        ;
    }

    /// A step of a column is a product of graded elements, within the step of
    /// the scale where that is known.
    pub proof fn lemma_term(self, i: int, j: int, p: int)
        requires
            self.wf(),
            0 <= i < self.rows,
            0 <= j < self.w.rows,
            0 <= p < self.a.cols,
        ensures
            exists|x: E, y: E| self.term(i, j)(p) == #[trigger] (x.val() * y.val()),
            E::step_known(self.scale) ==> -step_limit::<E>(self.scale) <= self.term(i, j)(p)
                <= step_limit::<E>(self.scale),
            self.a.cell(self.row0 + i, p).val() * self.w.entry(j, p).val() == self.term(i, j)(p)
                * E::weight(self.scale.grade()),
    {
        let b = self.block();
        self.w.lemma_block(p);
        let (q, t) = (p / b, p % b);
        self.w.lemma_code(j, q);
        let at = j * self.w.per_row() + q;
        let x = self.a.cell(self.row0 + i, p).element();
        let y = self.w.codec.decoded(self.w.codes@[at], t).element();
        assert(self.w.entry(j, p).element() == y);
        assert(x.gradable(self.scale.base_a));
        assert(y.gradable(self.scale.base_b));
        E::grading(x, y, self.scale);
        let (gx, gy) = (x.graded(self.scale.base_a), y.graded(self.scale.base_b));
        assert(self.term(i, j)(p) == gx.val() * gy.val());
        crate::dense::lemma_product_reach(gx, gy);
        if E::step_known(self.scale) {
            assert(step_within(self.scale, x, y));
        }
    }

    /// The graded sum of a whole column is the total of its cell, at the weight
    /// of the grade.
    pub proof fn lemma_total(self, i: int, j: int)
        requires
            self.wf(),
            0 <= i < self.rows,
            0 <= j < self.w.rows,
        ensures
            self.run(i, j, 0, self.blocks()) * E::weight(self.scale.grade()) == total(
                self.a,
                self.w,
                self.row0 + i,
                j,
            ),
    {
        let f = |p: int| self.a.cell(self.row0 + i, p).val() * self.w.entry(j, p).val();
        let g = self.term(i, j);
        let b = self.block();
        assert forall|p: int| 0 <= p < self.a.cols implies #[trigger] f(p) == g(p) * E::weight(
            self.scale.grade(),
        ) by {
            self.lemma_term(i, j, p);
        }
        lemma_sum_scale(f, g, E::weight(self.scale.grade()), 0, self.a.cols as int);
        vstd::arithmetic::div_mod::lemma_fundamental_div_mod(self.w.cols as int, b);
        assert(self.blocks() * b == b * self.blocks()) by (nonlinear_arith);
        assert(0 * b == 0);
    }

    /// A graded sum over as many steps as a lane takes is carried over.
    pub proof fn lemma_run_holds<L: TableLane<E>>(self, i: int, j: int, lo: int, hi: int)
        requires
            self.wf(),
            0 <= i < self.rows,
            0 <= j < self.w.rows,
            0 <= lo <= hi <= self.a.cols,
            E::run_of(L::cap(), Bd::bound() as int, self.scale) matches Some(run)
                ==> hi - lo <= run,
        ensures
            L::holds(sum(self.term(i, j), lo, hi)),
    {
        let f = self.term(i, j);
        let v = sum(f, lo, hi);
        let limit = step_limit::<E>(self.scale);
        L::envelope_laws();
        if E::step_known(self.scale) {
            assert forall|p: int| lo <= p < hi implies -limit <= #[trigger] f(p) <= limit by {
                self.lemma_term(i, j, p);
            }
            lemma_sum_bound(f, lo, hi, limit);
            E::run_laws::<L>(Bd::bound(), self.scale, (hi - lo) as nat, v);
        } else {
            E::run_laws::<L>(Bd::bound(), self.scale, (hi - lo) as nat, v);
            if hi == lo {
                assert(L::holds(0));
            } else {
                self.lemma_term(i, j, lo);
                assert(sum(f, lo, hi) == sum(f, lo, lo) + f(lo));
                let (x, y) = choose|x: E, y: E| f(lo) == #[trigger] (x.val() * y.val());
                assert(L::holds(x.val() * y.val()));
            }
        }
    }

    /// The book entry that column `j` names at block `p` suits the sequence.
    pub proof fn lemma_suits(self, spec: TableSpec, j: int, p: int)
        requires
            self.wf(),
            0 <= j < self.w.rows,
            0 <= p < self.blocks(),
            spec.sequence == Sequence::SignMask ==> Bd::bound() <= 1 && E::declared_scale(),
        ensures
            entry_suits(spec.sequence, self.book@, self.block(), self.place_at(j, p)),
            forall|t: int|
                0 <= t < self.block() && spec.sequence == Sequence::SignMask ==> -1 <= (
                #[trigger] self.book@[self.place_at(j, p) * self.block() + t]).val() <= 1,
    {
        E::family_laws();
        if spec.sequence == Sequence::SignMask {
            assert forall|t: int| 0 <= t < self.block() implies -1 <= (
            #[trigger] self.book@[self.place_at(j, p) * self.block() + t]).val() <= 1 by {
                self.w.lemma_code(j, p);
                let at = j * self.w.per_row() + p;
                let y = self.w.codec.decoded(self.w.codes@[at], t);
                self.w.codec.names(self.w.codes@[at], t);
                assert(self.book@[C::index(self.w.codes@[at]) * C::block() + t]
                    == y.element().graded(self.scale.base_b));
            }
        }
    }

    /// The tile of activations of block `p` is loaded.
    pub open spec fn loaded(self, acts: Seq<E>, p: int) -> bool {
        &&& self.block() * self.rows <= acts.len()
        &&& forall|t: int, i: int|
            #![trigger acts[t * self.rows + i]]
            0 <= t < self.block() && 0 <= i < self.rows ==> acts[t * self.rows + i] == self.a.cell(
                self.row0 + i,
                p * self.block() + t,
            ).element().graded(self.scale.base_a)
    }

    /// A table entry built from the book and a loaded block is the graded dot
    /// product of that block.
    pub proof fn lemma_entry_value(self, acts: Seq<E>, i: int, j: int, p: int)
        requires
            self.wf(),
            self.loaded(acts, p),
            0 <= i < self.rows,
            0 <= j < self.w.rows,
            0 <= p < self.blocks(),
        ensures
            entry_sum(
                self.book@,
                acts,
                self.block(),
                self.rows as int,
                self.place_at(j, p),
                i,
            ) == self.dot(i, j, p),
    {
        let (b, r, c) = (self.block(), self.rows as int, self.place_at(j, p));
        let f = |t: int| acts[t * r + i].val() * self.book@[c * b + t].val();
        let g = self.term(i, j);
        assert forall|t: int| 0 <= t < b implies #[trigger] f(t) == g(t + p * b) by {
            self.lemma_block_entry(j, p, t);
            self.w.lemma_code(j, p);
            let at = j * self.w.per_row() + p;
            let y = self.w.codec.decoded(self.w.codes@[at], t);
            assert(self.book@[C::index(self.w.codes@[at]) * C::block() + t] == y.element().graded(
                self.scale.base_b,
            ));
            assert(acts[t * r + i] == self.a.cell(self.row0 + i, p * b + t).element().graded(
                self.scale.base_a,
            ));
        }
        lemma_sum_shift(f, g, p * b, 0, b);
        assert((p + 1) * b == p * b + b) by (nonlinear_arith);
    }

    /// The graded sum over blocks is the sum of the blocks' dot products.
    pub proof fn lemma_run_step(self, i: int, j: int, lo: int, hi: int)
        requires
            0 <= lo <= hi,
            self.block() > 0,
        ensures
            self.run(i, j, lo, hi + 1) == self.run(i, j, lo, hi) + self.dot(i, j, hi),
            self.run(i, j, lo, lo) == 0,
    {
        let b = self.block();
        assert(lo * b <= hi * b && (hi + 1) * b == hi * b + b) by (nonlinear_arith)
            requires
                lo <= hi,
                b > 0,
        ;
        lemma_sum_split(self.term(i, j), lo * b, hi * b, (hi + 1) * b);
    }

    pub proof fn lemma_run_split(self, i: int, j: int, lo: int, mid: int, hi: int)
        requires
            0 <= lo <= mid <= hi,
            self.block() > 0,
        ensures
            self.run(i, j, lo, hi) == self.run(i, j, lo, mid) + self.run(i, j, mid, hi),
    {
        let b = self.block();
        assert(lo * b <= mid * b <= hi * b) by (nonlinear_arith)
            requires
                lo <= mid <= hi,
                b > 0,
        ;
        lemma_sum_split(self.term(i, j), lo * b, mid * b, hi * b);
    }

    /// Loads the activations of block `p`.
    pub fn load(&self, acts: &mut [E], p: usize)
        requires
            self.wf(),
            p < self.blocks(),
            self.block() * self.rows <= old(acts)@.len(),
        ensures
            final(acts)@.len() == old(acts)@.len(),
            self.loaded(final(acts)@, p as int),
    {
        let block: usize = C::max_block();
        let k: usize = self.a.cols;
        let ghost (b, r) = (block as int, self.rows as int);
        proof {
            assert(acts.len() == acts@.len());
            assert(self.projected.len() == self.projected@.len());
        }
        let mut t: usize = 0;
        while t < block
            invariant
                self.wf(),
                p < self.blocks(),
                block == b == self.block(),
                r == self.rows,
                k == self.a.cols,
                b * r <= acts@.len() <= usize::MAX,
                self.projected@.len() <= usize::MAX,
                acts@.len() == old(acts)@.len(),
                t <= block,
                forall|x: int, i: int|
                    #![trigger acts@[x * r + i]]
                    0 <= x < t && 0 <= i < r ==> acts@[x * r + i] == self.a.cell(
                        self.row0 + i,
                        p * b + x,
                    ).element().graded(self.scale.base_a),
            decreases block - t,
        {
            let mut i: usize = 0;
            while i < self.rows
                invariant
                    self.wf(),
                    p < self.blocks(),
                    block == b == self.block(),
                    r == self.rows,
                    k == self.a.cols,
                    b * r <= acts@.len() <= usize::MAX,
                    self.projected@.len() <= usize::MAX,
                    acts@.len() == old(acts)@.len(),
                    t < block,
                    i <= self.rows,
                    forall|x: int, y: int|
                        #![trigger acts@[x * r + y]]
                        0 <= x <= t && 0 <= y < r && (x < t || y < i) ==> acts@[x * r + y]
                            == self.a.cell(self.row0 + y, p * b + x).element().graded(
                            self.scale.base_a,
                        ),
                decreases self.rows - i,
            {
                proof {
                    lemma_cell(b, r, t as int, i as int);
                    self.lemma_column_step(p as int, t as int);
                }
                let row: usize = self.row0 + i;
                let step: usize = p * block + t;
                let value: E = if row < self.projected_rows {
                    proof {
                        lemma_cell(
                            self.projected_rows as int,
                            k as int,
                            row as int,
                            step as int,
                        );
                    }
                    self.projected[row * k + step]
                } else {
                    E::prescale(self.a.at(row, step).get(), self.scale.base_a)
                };
                let ghost before = acts@;
                acts[t * self.rows + i] = value;
                proof {
                    assert forall|x: int, y: int|
                        #![trigger acts@[x * r + y]]
                        0 <= x <= t && 0 <= y < r && (x < t || y < i + 1) implies acts@[x * r + y]
                        == self.a.cell(self.row0 + y, p * b + x).element().graded(
                        self.scale.base_a,
                    ) by {
                        lemma_cell(b, r, x, y);
                        if x * r + y == t * r + i {
                            crate::sequence::lemma_cell_apart(r, x, y, t as int, i as int);
                        } else {
                            assert(acts@[x * r + y] == before[x * r + y]);
                        }
                    }
                }
                i = i + 1;
            }
            t = t + 1;
        }
    }

    /// Loads the activations of one step.
    pub fn load_step(&self, acts: &mut [E], step: usize)
        requires
            self.wf(),
            step < self.a.cols,
            self.rows <= old(acts)@.len(),
        ensures
            final(acts)@.len() == old(acts)@.len(),
            forall|i: int|
                0 <= i < self.rows ==> #[trigger] final(acts)@[i] == self.a.cell(
                    self.row0 + i,
                    step as int,
                ).element().graded(self.scale.base_a),
    {
        let k: usize = self.a.cols;
        proof {
            assert(self.projected.len() == self.projected@.len());
        }
        let mut i: usize = 0;
        while i < self.rows
            invariant
                self.wf(),
                step < k,
                k == self.a.cols,
                i <= self.rows <= acts@.len(),
                self.projected@.len() <= usize::MAX,
                acts@.len() == old(acts)@.len(),
                forall|x: int|
                    0 <= x < i ==> #[trigger] acts@[x] == self.a.cell(
                        self.row0 + x,
                        step as int,
                    ).element().graded(self.scale.base_a),
            decreases self.rows - i,
        {
            let row: usize = self.row0 + i;
            acts[i] = if row < self.projected_rows {
                proof {
                    lemma_cell(self.projected_rows as int, k as int, row as int, step as int);
                }
                self.projected[row * k + step]
            } else {
                E::prescale(self.a.at(row, step).get(), self.scale.base_a)
            };
            i = i + 1;
        }
    }

    /// Step `t` of block `p` is a step of the reduction.
    pub proof fn lemma_column_step(self, p: int, t: int)
        requires
            self.wf(),
            0 <= p < self.blocks(),
            0 <= t < self.block(),
        ensures
            0 <= p * self.block(),
            p * self.block() + t < self.a.cols,
            (p + 1) * self.block() <= self.a.cols,
            self.blocks() * self.block() == self.a.cols,
    {
        let b = self.block();
        vstd::arithmetic::div_mod::lemma_fundamental_div_mod(self.w.cols as int, b);
        let per = self.blocks();
        assert(0 <= p * b && p * b + b <= per * b && b * per == per * b && (p + 1) * b == p * b + b)
            by (nonlinear_arith)
            requires
                0 <= p < per,
                b > 0,
        ;
    }
}

} // verus!
