//! How a lane that is planned from the data is filled: what each step of the
//! reduction may add, which blocks are taken apart, and what that costs.
use crate::accumulate::columns_tally;
use crate::census::Tally;
use crate::codec::{CodedMatrix, Enumerable};
use crate::element::{Alphabet, Bound};
use crate::family::Tabulated;
use crate::plan::most;
use crate::rows::{block_width, collapsed_at};
use crate::scale::{regraded, LaneScale};
use crate::sequence::TableSpec;
use crate::sources::{addressed_places, built_cells, built_entries};
use crate::sweep::{present, present_count};
use crate::table::build_tally;
use crate::view::MatView;
use vstd::prelude::*;

verus! {

/// A tile of rows and a block of columns of a product, at the scale of the call,
/// in lanes that hold sums up to `cap`.
pub ghost struct Region<'t, E: Tabulated, Bd: Bound, C: Enumerable<E, Bd>> {
    pub a: MatView<'t, Alphabet<E, Bd>>,
    pub w: CodedMatrix<'t, E, Bd, C>,
    pub scale: LaneScale,
    pub row0: int,
    pub rows: int,
    /// The first equal column of each, where columns repeat.
    pub index: Option<Seq<usize>>,
    pub col0: int,
    pub cols: int,
    pub cap: int,
}

impl<'t, E: Tabulated, Bd: Bound, C: Enumerable<E, Bd>> Region<'t, E, Bd, C> {
    /// The activations that one step of the reduction meets.
    pub open spec fn acts(self, source: int) -> Seq<E> {
        Seq::new(self.rows as nat, |i: int| self.a.cell(self.row0 + i, source).element())
    }

    /// The weight that one step of the reduction meets in column `j`.
    pub open spec fn weight(self, source: int, j: int) -> Seq<E> {
        seq![self.w.entry(self.col0 + j, source).element()]
    }

    /// What one step adds to column `j` at most, in units of the call.
    pub open spec fn height(self, source: int, j: int) -> int {
        regraded(
            E::found_scale(self.acts(source), self.weight(source, j), true, Bd::bound()),
            self.scale,
            self.cap,
        )
    }

    /// What one step adds to any of the first `n` columns at most.
    pub open spec fn step_height(self, source: int, n: int) -> int
        decreases n,
    {
        if n <= 0 {
            0
        } else if present(self.index, n - 1) {
            most(self.height(source, n - 1), self.step_height(source, n - 1))
        } else {
            self.step_height(source, n - 1)
        }
    }

    /// The work of finding that.
    pub open spec fn step_probe(self, source: int, n: int) -> Tally
        decreases n,
    {
        if n <= 0 {
            Tally::none()
        } else if present(self.index, n - 1) {
            self.step_probe(source, n - 1).plus(
                E::scale_tally(self.acts(source), self.weight(source, n - 1), true),
            )
        } else {
            self.step_probe(source, n - 1)
        }
    }

    /// What the first `t` steps of block `p` add at most; past `cap` it is not
    /// told by how much.
    pub open spec fn block_height(self, p: int, t: int) -> int
        decreases t,
    {
        if t <= 0 {
            0
        } else {
            let before = self.block_height(p, t - 1);
            let step = self.step_height(p * C::block() + (t - 1), self.cols);
            if before > self.cap || step > self.cap || before + step > self.cap {
                self.cap + 1
            } else {
                before + step
            }
        }
    }

    /// The work of finding that: no step is looked at once `cap` is passed.
    pub open spec fn block_probe(self, p: int, t: int) -> Tally
        decreases t,
    {
        if t <= 0 {
            Tally::none()
        } else if self.block_height(p, t - 1) > self.cap {
            self.block_probe(p, t - 1)
        } else {
            self.block_probe(p, t - 1).plus(
                self.step_probe(p * C::block() + (t - 1), self.cols),
            )
        }
    }

    /// The places of the entries that block `p` names.
    pub open spec fn named(self, p: int) -> Seq<nat> {
        addressed_places::<E, Bd, C>(
            self.w.codes@,
            self.w.per_row(),
            self.col0,
            p,
            self.index,
            self.cols,
        )
    }

    /// Table words that one slot is read for.
    pub open spec fn reads(self) -> nat {
        (present_count(self.index, self.cols) * self.rows) as nat
    }

    /// The work of a block that is taken whole.
    pub open spec fn whole(self, spec: TableSpec, room: Option<int>, p: int) -> Tally {
        build_tally(
            spec,
            built_entries::<E, Bd, C>(self.named(p), room),
            C::block() as int,
            self.rows,
        ).plus(Tally::gathering(self.reads()))
    }

    /// The work of the first `t` steps of a block that is taken apart.
    pub open spec fn apart(self, spec: TableSpec, room: Option<int>, p: int, t: int) -> Tally
        decreases t,
    {
        if t <= 0 {
            Tally::none()
        } else {
            self.apart(spec, room, p, t - 1).plus(
                self.step_probe(p * C::block() + (t - 1), self.cols),
            ).plus(
                build_tally(spec, built_cells::<E, Bd, C>(self.named(p), room), 1, self.rows),
            ).plus(Tally::gathering(self.reads()))
        }
    }

    /// The work of the first `p` blocks: each is looked at, and taken whole where
    /// it fits a lane.
    pub open spec fn work(
        self,
        spec: TableSpec,
        scalar_spec: TableSpec,
        room: Option<int>,
        p: int,
    ) -> Tally
        decreases p,
    {
        if p <= 0 {
            Tally::none()
        } else {
            let block = C::block() as int;
            self.work(spec, scalar_spec, room, p - 1).plus(self.block_probe(p - 1, block)).plus(
                if self.block_height(p - 1, block) <= self.cap {
                    self.whole(spec, room, p - 1)
                } else {
                    self.apart(scalar_spec, room, p - 1, block)
                },
            )
        }
    }

    /// Looking at steps reads no table and calls no kernel.
    proof fn lemma_probe(self, source: int, n: int)
        ensures
            ({
                let t = self.step_probe(source, n);
                t.multiplies == 0 && t.reads == 0 && t.calls == 0
            }),
        decreases n,
    {
        E::family_laws();
        if n > 0 {
            self.lemma_probe(source, n - 1);
            let _ = E::scale_tally(self.acts(source), self.weight(source, n - 1), true);
        }
    }

    proof fn lemma_block_probe(self, p: int, t: int)
        ensures
            ({
                let u = self.block_probe(p, t);
                u.multiplies == 0 && u.reads == 0 && u.calls == 0
            }),
        decreases t,
    {
        if t > 0 {
            self.lemma_block_probe(p, t - 1);
            self.lemma_probe(p * C::block() + (t - 1), self.cols);
        }
    }

    proof fn lemma_apart(self, spec: TableSpec, room: Option<int>, p: int, t: int)
        requires
            0 <= t,
        ensures
            ({
                let u = self.apart(spec, room, p, t);
                &&& u.reads == t * self.reads()
                &&& u.calls == 0
                &&& !spec.build_multiplies ==> u.multiplies == 0
            }),
        decreases t,
    {
        if t > 0 {
            self.lemma_apart(spec, room, p, t - 1);
            self.lemma_probe(p * C::block() + (t - 1), self.cols);
            let r = self.reads();
            assert(t * r == (t - 1) * r + r) by (nonlinear_arith);
        } else {
            assert(0 * self.reads() == 0);
        }
    }

    /// Every block is read once for each row and column, or once for each of its
    /// steps where it is taken apart; no dense kernel is called; and nothing is
    /// multiplied where no build multiplies.
    pub proof fn lemma_work(
        self,
        spec: TableSpec,
        scalar_spec: TableSpec,
        room: Option<int>,
        p: int,
    )
        requires
            0 <= p,
            C::block() > 0,
        ensures
            ({
                let t = self.work(spec, scalar_spec, room, p);
                &&& p * self.reads() <= t.reads <= p * self.reads() * C::block()
                &&& t.calls == 0
                &&& !spec.build_multiplies && !scalar_spec.build_multiplies ==> t.multiplies == 0
            }),
        decreases p,
    {
        let r = self.reads() as int;
        let block = C::block() as int;
        if p > 0 {
            self.lemma_work(spec, scalar_spec, room, p - 1);
            self.lemma_block_probe(p - 1, block);
            self.lemma_apart(scalar_spec, room, p - 1, block);
            assert(p * r == (p - 1) * r + r && p * r * block == (p - 1) * r * block + block * r && r
                <= block * r) by (nonlinear_arith)
                requires
                    r >= 0,
                    block >= 1,
            ;
        } else {
            assert(0 * r == 0 && 0 * r * block == 0) by (nonlinear_arith);
        }
    }
}

/// The work of a block of columns: as the data decides in `local` lanes, and
/// else every block of the reduction whole.
pub open spec fn block_work<'t, E: Tabulated, Bd: Bound, C: Enumerable<E, Bd>>(
    local: bool,
    region: Region<'t, E, Bd, C>,
    spec: TableSpec,
    scalar_spec: TableSpec,
    room: Option<int>,
) -> Tally {
    let per_row = region.w.per_row();
    if local {
        region.work(spec, scalar_spec, room, per_row)
    } else {
        columns_tally::<E, Bd, C>(
            spec,
            region.w.codes@,
            per_row,
            region.rows,
            region.index,
            region.col0,
            region.cols,
            room,
            per_row,
        )
    }
}

/// Block `b` of the columns of a tile of rows.
pub open spec fn region_at<'t, E: Tabulated, Bd: Bound, C: Enumerable<E, Bd>>(
    a: MatView<'t, Alphabet<E, Bd>>,
    w: CodedMatrix<'t, E, Bd, C>,
    scale: LaneScale,
    row0: int,
    rows: int,
    cap: int,
    map: Option<(Seq<usize>, Seq<usize>)>,
    plan_cols: int,
    b: int,
) -> Region<'t, E, Bd, C> {
    let col0 = b * plan_cols;
    let cols = block_width(w.rows as int, plan_cols, b);
    Region {
        a,
        w,
        scale,
        row0,
        rows,
        index: collapsed_at(map, plan_cols, col0, cols),
        col0,
        cols,
        cap,
    }
}

/// The work of the first `b` blocks of columns of a tile of rows.
pub open spec fn row_work<'t, E: Tabulated, Bd: Bound, C: Enumerable<E, Bd>>(
    local: bool,
    a: MatView<'t, Alphabet<E, Bd>>,
    w: CodedMatrix<'t, E, Bd, C>,
    scale: LaneScale,
    row0: int,
    rows: int,
    spec: TableSpec,
    scalar_spec: TableSpec,
    map: Option<(Seq<usize>, Seq<usize>)>,
    plan_cols: int,
    room: Option<int>,
    b: int,
) -> Tally
    decreases b,
{
    if b <= 0 {
        Tally::none()
    } else {
        row_work(
            local,
            a,
            w,
            scale,
            row0,
            rows,
            spec,
            scalar_spec,
            map,
            plan_cols,
            room,
            b - 1,
        ).plus(
            block_work(
                local,
                region_at(
                    a,
                    w,
                    scale,
                    row0,
                    rows,
                    spec.lane_cap as int,
                    map,
                    plan_cols,
                    b - 1,
                ),
                spec,
                scalar_spec,
                room,
            ),
        )
    }
}

} // verus!
