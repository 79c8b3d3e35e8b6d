//! The exact sums of one block of columns where the data decides how much a
//! lane takes: every step is bounded before it is added.
use crate::accumulate::{agree, blank_lanes, lemma_codes_at, lemma_covers};
use crate::arith::{cong, lemma_cong_add, lemma_cong_refl, lemma_cong_trans, lemma_sum_split, sum};
use crate::census::{enter_gathered, Ledger, Tally};
use crate::codec::{CodedMatrix, Enumerable, ScalarCodec};
use crate::element::{Accumulator, Alphabet, Bound};
use crate::entries::EntrySet;
use crate::family::{met_elements, panel_elements, sparse_book, step_within, Tabulated};
use crate::lane::Lane;
use crate::scale::{regrade_envelope, regraded, LaneScale};
use crate::schedule::Region;
use crate::sequence::{lemma_cell, Sequence, TableLane, TableSpec};
use crate::sources::{
    build_source_block, build_source_scalar, built_cells, built_entries, set_ready, set_restored,
    set_room, BlockCodes,
};
use crate::sweep::{
    column_gathered, column_words, present, present_count, seq_of, stack_place, Sweep,
};
use crate::table::{build_tally, cell_dot, entry_ready, Table};
use crate::tile::{place, Tile};
use crate::view::MatView;
use vstd::arithmetic::power2::pow2;
use vstd::prelude::*;

verus! {

/// The part of a product that a tile and a block of columns make up.
pub open spec fn region_of<'t, E: Tabulated, Bd: Bound, C: Enumerable<E, Bd>>(
    tile: Tile<'t, E, Bd, C>,
    index: Option<&[usize]>,
    col0: usize,
    cols: usize,
    cap: u128,
) -> Region<'t, E, Bd, C> {
    Region {
        a: tile.a,
        w: tile.w,
        scale: tile.scale,
        row0: tile.row0 as int,
        rows: tile.rows as int,
        index: seq_of(index),
        col0: col0 as int,
        cols: cols as int,
        cap: cap as int,
    }
}

/// One step of the reduction in one column, as two panels of their own.
proof fn lemma_step_panels<'t, E: Tabulated, Bd: Bound, C: Enumerable<E, Bd>>(
    tile: Tile<'t, E, Bd, C>,
    region: Region<'t, E, Bd, C>,
    sub: MatView<'_, Alphabet<E, Bd>>,
    w: CodedMatrix<'_, E, Bd, ScalarCodec<'_, C>>,
    p: int,
    coordinate: int,
    j: int,
)
    requires
        tile.wf(),
        C::space() > 0,
        region.a == tile.a,
        region.w == tile.w,
        region.row0 == tile.row0,
        region.rows == tile.rows,
        0 <= region.col0 + j < tile.w.rows,
        0 <= p < tile.blocks(),
        0 <= coordinate < tile.block(),
        sub.rows == tile.rows,
        sub.cols == 1,
        forall|i: int, q: int|
            0 <= i < sub.rows && 0 <= q < 1 ==> #[trigger] sub.cell(i, q) == tile.a.cell(
                tile.row0 + i,
                p * tile.block() + coordinate + q,
            ),
        w.codes@.len() == 1,
        w.codes@[0] == tile.w.code(region.col0 + j, p),
        w.codec.codec == tile.w.codec,
        w.codec.coordinate == coordinate,
    ensures
        panel_elements(sub) == region.acts(p * tile.block() + coordinate),
        met_elements(w) == region.weight(p * tile.block() + coordinate, j),
{
    let source = p * tile.block() + coordinate;
    assert(sub.rows * 1 == sub.rows) by (nonlinear_arith);
    assert forall|x: int| 0 <= x < tile.rows implies #[trigger] panel_elements(sub)[x]
        == region.acts(source)[x] by {
        assert(x / 1 == x && x % 1 == 0);
        let _ = sub.cell(x, 0);
    }
    assert(panel_elements(sub) =~= region.acts(source));
    tile.lemma_block_entry(region.col0 + j, p, coordinate);
    tile.w.lemma_code(region.col0 + j, p);
    let code = w.codes@[0];
    tile.w.codec.names(code, coordinate);
    assert(<ScalarCodec<'_, C> as Enumerable<E, Bd>>::block() == 1);
    assert(C::space() * 1 == C::space()) by (nonlinear_arith);
    assert(met_elements(w).len() == 1);
    if !sparse_book(w) {
        assert(C::index(code) == 0);
        assert(0int / 1 == 0 && 0int % 1 == 0);
    }
    assert(met_elements(w)[0] == tile.w.codec.decoded(code, coordinate).element());
    assert(met_elements(w) =~= region.weight(source, j));
}

/// The step of every first column at one step of the reduction is within
/// `bound`.
pub open spec fn steps_within<E: Tabulated, Bd: Bound, C: Enumerable<E, Bd>>(
    tile: Tile<'_, E, Bd, C>,
    index: Option<&[usize]>,
    col0: int,
    cols: int,
    step: int,
    bound: int,
) -> bool {
    forall|i: int, j: int|
        #![trigger tile.term(i, col0 + j), present(seq_of(index), j)]
        0 <= i < tile.rows && 0 <= j < cols && present(seq_of(index), j) ==> -bound <= tile.term(
            i,
            col0 + j,
        )(step) <= bound
}

/// A step bounded at its own grade is bounded at the grade of the call.
proof fn lemma_regraded_step<E: Tabulated>(x: E, y: E, local: LaneScale, call: LaneScale, cap: int)
    requires
        x.gradable(local.base_a),
        x.gradable(call.base_a),
        y.gradable(local.base_b),
        y.gradable(call.base_b),
        step_within(local, x, y),
        regraded(local, call, cap) <= cap,
    ensures
        -regraded(local, call, cap) <= x.graded(call.base_a).val() * y.graded(call.base_b).val()
            <= regraded(local, call, cap),
{
    let (a, b) = (local.base_a - call.base_a, local.base_b - call.base_b);
    E::regrading(x, call.base_a, local.base_a);
    E::regrading(y, call.base_b, local.base_b);
    vstd::arithmetic::power2::lemma_pow2_adds(a as nat, b as nat);
    vstd::arithmetic::power2::lemma_pow2_pos((a + b) as nat);
    let (u, v) = (x.graded(local.base_a).val(), y.graded(local.base_b).val());
    let (pa, pb) = (pow2(a as nat) as int, pow2(b as nat) as int);
    let (p, s) = (pow2((a + b) as nat) as int, local.per_step as int);
    assert((u * pa) * (v * pb) == (u * v) * (pa * pb)) by (nonlinear_arith);
    assert(-(s * p) <= (u * v) * p <= s * p) by (nonlinear_arith)
        requires
            -s <= u * v <= s,
            p >= 1,
    ;
}

/// The largest bound of a step at one coordinate of block `p`, over the first
/// columns of a block: at most one more than the cap, which says that some
/// step passes it.
pub fn scalar_envelope<E: Tabulated, Bd: Bound, C: Enumerable<E, Bd>, Lg: Ledger>(
    tile: &Tile<'_, E, Bd, C>,
    index: Option<&[usize]>,
    col0: usize,
    cols: usize,
    p: usize,
    coordinate: usize,
    cap: u128,
    ledger: &mut Lg,
) -> (envelope: u128)
    requires
        tile.wf(),
        E::scales(),
        col0 + cols <= tile.w.rows,
        p < tile.blocks(),
        coordinate < tile.block(),
        index is Some ==> index->0@.len() >= cols,
        cap < u128::MAX,
        forall|scale: LaneScale| scale.per_step <= cap ==> #[trigger] E::step_known(scale),
    ensures
        envelope <= cap + 1,
        envelope <= cap ==> steps_within(
            *tile,
            index,
            col0 as int,
            cols as int,
            p * tile.block() + coordinate,
            envelope as int,
        ),
        envelope == region_of(*tile, index, col0, cols, cap).step_height(
            p * tile.block() + coordinate,
            cols as int,
        ),
        *final(ledger) == old(ledger).charged(
            region_of(*tile, index, col0, cols, cap).step_probe(
                p * tile.block() + coordinate,
                cols as int,
            ),
        ),
{
    let block: usize = C::max_block();
    proof {
        tile.lemma_column_step(p as int, coordinate as int);
        ledger.charges_nothing();
        assert(tile.w.codes.len() == tile.w.codes@.len());
    }
    let source: usize = p * block + coordinate;
    let sub: MatView<'_, Alphabet<E, Bd>> = match tile.a.subview(
        tile.row0,
        source,
        tile.rows,
        1,
    ) {
        Some(sub) => sub,
        None => {
            proof {
                assert(false);
            }
            return cap + 1;
        },
    };
    let ghost region = region_of(*tile, index, col0, cols, cap);
    let codes_per_row: usize = tile.w.codes_per_row();
    let scalar: ScalarCodec<'_, C> = ScalarCodec { codec: &tile.w.codec, coordinate };
    let ghost begun = *ledger;
    let ghost b = tile.block();
    let mut envelope: u128 = 0;
    let mut j: usize = 0;
    while j < cols
        invariant
            tile.wf(),
            E::scales(),
            col0 + cols <= tile.w.rows,
            p < tile.blocks(),
            coordinate < b,
            b == tile.block(),
            index is Some ==> index->0@.len() >= cols,
            cap < u128::MAX,
            forall|scale: LaneScale| scale.per_step <= cap ==> #[trigger] E::step_known(scale),
            begun == *old(ledger),
            region == region_of(*tile, index, col0, cols, cap),
            C::space() > 0,
            envelope == region.step_height(source as int, j as int),
            *ledger == begun.charged(region.step_probe(source as int, j as int)),
            j <= cols,
            source == p * b + coordinate,
            source < tile.a.cols,
            codes_per_row == tile.w.per_row(),
            tile.w.codes@.len() <= usize::MAX,
            scalar.codec == tile.w.codec,
            scalar.coordinate == coordinate,
            sub.wf(),
            sub.rows == tile.rows,
            sub.cols == 1,
            forall|i: int, q: int|
                0 <= i < sub.rows && 0 <= q < 1 ==> #[trigger] sub.cell(i, q) == tile.a.cell(
                    tile.row0 + i,
                    source + q,
                ),
            envelope <= cap + 1,
            envelope <= cap ==> forall|i: int, x: int|
                #![trigger tile.term(i, col0 + x), present(seq_of(index), x)]
                0 <= i < tile.rows && 0 <= x < j && present(seq_of(index), x)
                    ==> -envelope <= tile.term(
                    i,
                    col0 + x,
                )(source as int) <= envelope,
        decreases cols - j,
    {
        let first: bool = match index {
            Some(of) => of[j] == j,
            None => true,
        };
        if !first {
            j = j + 1;
            continue;
        }
        proof {
            tile.w.lemma_code(col0 + j, p as int);
            assert(0 <= (col0 + j) * codes_per_row) by (nonlinear_arith);
        }
        let at: usize = (col0 + j) * codes_per_row + p;
        let one: &[C::Code] = vstd::slice::slice_subrange(tile.w.codes, at, at + 1);
        let w: CodedMatrix<'_, E, Bd, ScalarCodec<'_, C>> = CodedMatrix {
            codec: scalar,
            rows: 1,
            cols: 1,
            codes: one,
        };
        proof {
            assert(one@.len() == 1 && one@[0] == tile.w.codes@[at as int]);
            assert(<ScalarCodec<'_, C> as Enumerable<E, Bd>>::block() == 1);
            assert(1int / 1int == 1);
            assert(w.codec.ready());
            assert(w.per_row() == 1);
            assert(w.codes@.len() == w.rows * w.per_row());
            assert(w.cols as int % 1 == 0);
            assert forall|i: int| 0 <= i < w.codes@.len() implies <ScalarCodec<
                '_,
                C,
            > as Enumerable<E, Bd>>::valid(#[trigger] w.codes@[i]) by {
                assert(i == 0);
            }
            assert(w.wf());
        }
        let ghost before = *ledger;
        let found: Option<LaneScale> = E::lane_scale(&sub, &w, ledger);
        proof {
            lemma_step_panels(
                *tile,
                region,
                sub,
                w,
                p as int,
                coordinate as int,
                j as int,
            );
            let t = E::scale_tally(
                region.acts(source as int),
                region.weight(source as int, j as int),
                true,
            );
            begun.charges_compose(region.step_probe(source as int, j as int), t);
        }
        let local: LaneScale = match found {
            Some(local) => local,
            None => {
                proof {
                    assert(false);
                }
                return cap + 1;
            },
        };
        let bound: u128 = regrade_envelope(local, tile.scale, cap);
        proof {
            if bound <= cap {
                assert(E::step_known(local));
                assert forall|i: int| 0 <= i < tile.rows implies -bound <= (#[trigger] tile.term(
                    i,
                    col0 + j,
                ))(source as int) <= bound by {
                    let x = sub.cell(i, 0).element();
                    let code = tile.w.codes@[at as int];
                    let y = w.codec.decoded(w.codes@[0], 0).element();
                    assert(y == tile.w.codec.decoded(code, coordinate as int).element());
                    assert(step_within(local, x, y));
                    assert(x.gradable(local.base_a));
                    assert(y.gradable(local.base_b));
                    assert(tile.a.cell(tile.row0 + i, source as int).element().gradable(
                        tile.scale.base_a,
                    ));
                    lemma_regraded_step(x, y, local, tile.scale, cap as int);
                    tile.lemma_block_entry(col0 + j, p as int, coordinate as int);
                }
            }
        }
        if bound > envelope {
            envelope = bound;
        }
        j = j + 1;
    }
    envelope
}

/// The lanes of a column hold its graded sum over steps `lo .. hi`.
pub open spec fn lanes_sum<E: Tabulated, Bd: Bound, C: Enumerable<E, Bd>, L: Lane<E>>(
    tile: Tile<'_, E, Bd, C>,
    lanes: Seq<L>,
    j: int,
    col: int,
    lo: int,
    hi: int,
) -> bool {
    forall|i: int|
        0 <= i < tile.rows ==> cong(
            (#[trigger] lanes[j * tile.rows + i]).word(),
            sum(tile.term(i, col), lo, hi),
            L::extent(),
        )
}

/// The totals of a column hold its graded sum over steps `0 .. hi`, at the
/// weight of the grade.
pub open spec fn totals_sum<E: Tabulated, Bd: Bound, C: Enumerable<E, Bd>, L: Lane<E>>(
    tile: Tile<'_, E, Bd, C>,
    acc: Seq<E::Acc>,
    j: int,
    col: int,
    hi: int,
) -> bool {
    forall|i: int|
        0 <= i < tile.rows ==> cong(
            (#[trigger] acc[j * tile.rows + i]).value(),
            sum(tile.term(i, col), 0, hi) * E::weight(tile.scale.grade()),
            L::precision(),
        )
}

/// What is known of a block of columns after `s` steps: the lanes hold what
/// came since step `q`, within `height`, and the totals hold what came before.
pub open spec fn stepped<E: Tabulated, Bd: Bound, C: Enumerable<E, Bd>, L: TableLane<E>>(
    tile: Tile<'_, E, Bd, C>,
    index: Option<&[usize]>,
    lanes: Seq<L>,
    acc: Seq<E::Acc>,
    col0: int,
    cols: int,
    placed: bool,
    q: int,
    s: int,
    height: int,
) -> bool {
    &&& 0 <= q <= s <= tile.a.cols
    &&& !placed ==> q == 0
    &&& forall|j: int|
        0 <= j < cols && #[trigger] present(seq_of(index), j) ==> {
            &&& lanes_sum::<E, Bd, C, L>(tile, lanes, j, col0 + j, q, s)
            &&& placed ==> totals_sum::<E, Bd, C, L>(tile, acc, j, col0 + j, q)
            &&& forall|i: int|
                0 <= i < tile.rows ==> -height <= sum(#[trigger] tile.term(i, col0 + j), q, s)
                    <= height
        }
}

/// Every first column's sum since step `q` is carried over by a lane.
pub open spec fn all_hold<E: Tabulated, Bd: Bound, C: Enumerable<E, Bd>, L: TableLane<E>>(
    tile: Tile<'_, E, Bd, C>,
    index: Option<&[usize]>,
    col0: int,
    cols: int,
    q: int,
    s: int,
) -> bool {
    forall|i: int, j: int|
        #![trigger tile.term(i, col0 + j), present(seq_of(index), j)]
        0 <= i < tile.rows && 0 <= j < cols && present(seq_of(index), j) ==> L::holds(
            sum(tile.term(i, col0 + j), q, s),
        )
}

/// Places the lanes of a block of columns.
fn place_steps<E: Tabulated, Bd: Bound, C: Enumerable<E, Bd>, L: TableLane<E>>(
    tile: &Tile<'_, E, Bd, C>,
    index: Option<&[usize]>,
    carried: &mut [L],
    acc: &mut [E::Acc],
    col0: usize,
    cols: usize,
    placed: bool,
    Ghost(q): Ghost<int>,
    Ghost(s): Ghost<int>,
    Ghost(height): Ghost<int>,
)
    requires
        tile.wf(),
        col0 + cols <= tile.w.rows,
        cols * tile.rows <= old(carried)@.len(),
        cols * tile.rows <= old(acc)@.len(),
        stepped::<E, Bd, C, L>(
            *tile,
            index,
            old(carried)@,
            old(acc)@,
            col0 as int,
            cols as int,
            placed,
            q,
            s,
            height,
        ),
        all_hold::<E, Bd, C, L>(*tile, index, col0 as int, cols as int, q, s),
    ensures
        final(carried)@.len() == old(carried)@.len(),
        final(acc)@.len() == old(acc)@.len(),
        stepped::<E, Bd, C, L>(
            *tile,
            index,
            final(carried)@,
            final(acc)@,
            col0 as int,
            cols as int,
            true,
            s,
            s,
            0,
        ),
{
    let ghost (lanes0, acc0) = (carried@, acc@);
    proof {
        assert(carried.len() == carried@.len());
    }
    assert(0 <= cols * tile.rows) by (nonlinear_arith);
    place::<E, L>(carried, acc, cols * tile.rows, placed, tile.scale.exponent());
    proof {
        L::laws();
        let (m, p, w) = (L::extent(), L::precision(), E::weight(tile.scale.grade()));
        assert forall|j: int| 0 <= j < cols && #[trigger] present(seq_of(index), j) implies {
            &&& lanes_sum::<E, Bd, C, L>(*tile, carried@, j, col0 + j, s, s)
            &&& totals_sum::<E, Bd, C, L>(*tile, acc@, j, col0 + j, s)
            &&& forall|i: int|
                0 <= i < tile.rows ==> -0 <= sum(#[trigger] tile.term(i, col0 + j), s, s) <= 0
        } by {
            let col = col0 + j;
            assert forall|i: int| 0 <= i < tile.rows implies cong(
                (#[trigger] carried@[j * tile.rows + i]).word(),
                sum(tile.term(i, col), s, s),
                m,
            ) by {
                lemma_cell(cols as int, tile.rows as int, j, i);
                lemma_cong_refl(0, m);
            }
            assert forall|i: int| 0 <= i < tile.rows implies cong(
                (#[trigger] acc@[j * tile.rows + i]).value(),
                sum(tile.term(i, col), 0, s) * w,
                p,
            ) by {
                let x = j * tile.rows + i;
                lemma_cell(cols as int, tile.rows as int, j, i);
                let f = tile.term(i, col);
                let v = sum(f, q, s);
                assert(L::holds(v));
                assert(cong(lanes0[x].word(), v, m));
                let prior = if placed {
                    acc0[x].value()
                } else {
                    0
                };
                assert(cong(acc@[x].value(), prior + v * w, p));
                let done = sum(f, 0, q) * w;
                if placed {
                    assert(cong(acc0[x].value(), done, p));
                } else {
                    assert(0 * w == 0);
                    lemma_cong_refl(0, p);
                }
                lemma_cong_refl(v * w, p);
                lemma_cong_add(prior, done, v * w, v * w, p);
                lemma_cong_trans(acc@[x].value(), prior + v * w, done + v * w, p);
                lemma_sum_split(f, 0, q, s);
                assert((sum(f, 0, q) + v) * w == done + v * w) by (nonlinear_arith)
                    requires
                        done == sum(f, 0, q) * w,
                ;
            }
        }
    }
}

/// A sweep of one slot adds to every first column what the slot holds of it.
proof fn lemma_step_swept<E: Tabulated, Bd: Bound, C: Enumerable<E, Bd>, L: TableLane<E>>(
    tile: Tile<'_, E, Bd, C>,
    sweep: Sweep<'_, E, Bd, C>,
    table: Table<'_, L>,
    before: Seq<L>,
    after: Seq<L>,
    acc: Seq<E::Acc>,
    col0: int,
    cols: int,
    p: int,
    placed: bool,
    q: int,
    s: int,
    next: int,
    height: int,
    bound: int,
)
    requires
        agree(tile, sweep, table),
        0 <= col0,
        col0 + cols <= tile.w.rows,
        0 <= p < tile.blocks(),
        s <= next <= tile.a.cols,
        stepped::<E, Bd, C, L>(
            tile,
            sweep.index,
            before,
            acc,
            col0,
            cols,
            placed,
            q,
            s,
            height,
        ),
        forall|i: int, j: int|
            #![trigger tile.term(i, col0 + j), present(seq_of(sweep.index), j)]
            0 <= i < tile.rows && 0 <= j < cols && present(seq_of(sweep.index), j) ==> {
                &&& cong(
                    table.words@[stack_place(
                        table.slab_len(),
                        tile.rows as int,
                        0,
                        tile.place_at(col0 + j, p),
                        i,
                    )].word(),
                    sum(tile.term(i, col0 + j), s, next),
                    L::extent(),
                )
                &&& -bound <= sum(tile.term(i, col0 + j), s, next) <= bound
            },
        forall|j: int|
            0 <= j < cols ==> #[trigger] sweep.column_swept(
                before,
                after,
                table.words@,
                col0,
                j,
                p,
                1,
            ),
    ensures
        stepped::<E, Bd, C, L>(
            tile,
            sweep.index,
            after,
            acc,
            col0,
            cols,
            placed,
            q,
            next,
            height + bound,
        ),
{
    L::laws();
    let (m, r, slab) = (L::extent(), tile.rows as int, table.slab_len());
    assert forall|j: int| 0 <= j < cols && #[trigger] present(seq_of(sweep.index), j) implies {
        &&& lanes_sum::<E, Bd, C, L>(tile, after, j, col0 + j, q, next)
        &&& placed ==> totals_sum::<E, Bd, C, L>(tile, acc, j, col0 + j, q)
        &&& forall|i: int|
            0 <= i < tile.rows ==> -(height + bound) <= sum(
                #[trigger] tile.term(i, col0 + j),
                q,
                next,
            ) <= height + bound
    } by {
        let col = col0 + j;
        let entry = sweep.entries(col, p);
        assert(entry(0) == tile.place_at(col, p)) by {
            assert(col * sweep.codes_per_row + p + 0 == col * tile.w.per_row() + p);
        }
        assert(sweep.column_swept(before, after, table.words@, col0, j, p, 1));
        assert(column_gathered::<E, L>(
            before,
            after,
            j * r,
            table.words@,
            slab,
            r,
            entry,
            0,
            1,
        ));
        assert forall|i: int| 0 <= i < r implies cong(
            (#[trigger] after[j * r + i]).word(),
            sum(tile.term(i, col), q, next),
            m,
        ) by {
            let f = tile.term(i, col);
            let g = column_words::<E, L>(table.words@, slab, r, entry, i);
            assert(sum(g, 0, 1) == sum(g, 0, 0) + g(0));
            assert(cong(g(0), sum(f, s, next), m));
            assert(cong(before[j * r + i].word(), sum(f, q, s), m));
            lemma_cong_add(before[j * r + i].word(), sum(f, q, s), g(0), sum(f, s, next), m);
            lemma_sum_split(f, q, s, next);
            lemma_cong_trans(
                after[j * r + i].word(),
                before[j * r + i].word() + sum(g, 0, 1),
                sum(f, q, next),
                m,
            );
        }
        assert forall|i: int| 0 <= i < r implies -(height + bound) <= sum(
            #[trigger] tile.term(i, col),
            q,
            next,
        ) <= height + bound by {
            lemma_sum_split(tile.term(i, col), q, s, next);
        }
    }
}

/// Sums within the envelope of a lane are carried over.
proof fn lemma_within_envelope<E: Tabulated, Bd: Bound, C: Enumerable<E, Bd>, L: TableLane<E>>(
    tile: Tile<'_, E, Bd, C>,
    index: Option<&[usize]>,
    lanes: Seq<L>,
    acc: Seq<E::Acc>,
    col0: int,
    cols: int,
    placed: bool,
    q: int,
    s: int,
    height: int,
)
    requires
        stepped::<E, Bd, C, L>(tile, index, lanes, acc, col0, cols, placed, q, s, height),
        height <= L::envelope(),
    ensures
        all_hold::<E, Bd, C, L>(tile, index, col0, cols, q, s),
{
    L::envelope_laws();
}

/// The sum of the bounds of the steps of block `p`, or one more than the cap
/// where it passes the cap.
fn block_envelope<E: Tabulated, Bd: Bound, C: Enumerable<E, Bd>, Lg: Ledger>(
    tile: &Tile<'_, E, Bd, C>,
    index: Option<&[usize]>,
    col0: usize,
    cols: usize,
    p: usize,
    cap: u128,
    ledger: &mut Lg,
) -> (block_bound: u128)
    requires
        tile.wf(),
        E::scales(),
        col0 + cols <= tile.w.rows,
        p < tile.blocks(),
        index is Some ==> index->0@.len() >= cols,
        cap < u128::MAX,
        forall|scale: LaneScale| scale.per_step <= cap ==> #[trigger] E::step_known(scale),
    ensures
        block_bound <= cap + 1,
        block_bound <= cap ==> forall|i: int, j: int|
            #![trigger tile.term(i, col0 + j), present(seq_of(index), j)]
            0 <= i < tile.rows && 0 <= j < cols && present(seq_of(index), j)
                ==> -block_bound <= sum(
                tile.term(i, col0 + j),
                p * tile.block(),
                (p + 1) * tile.block(),
            ) <= block_bound,
        block_bound == region_of(*tile, index, col0, cols, cap).block_height(
            p as int,
            tile.block(),
        ),
        *final(ledger) == old(ledger).charged(
            region_of(*tile, index, col0, cols, cap).block_probe(p as int, tile.block()),
        ),
{
    let block: usize = C::max_block();
    let ghost begun = *ledger;
    let ghost base = p * tile.block();
    let ghost region = region_of(*tile, index, col0, cols, cap);
    let mut block_bound: u128 = 0;
    let mut t: usize = 0;
    proof {
        ledger.charges_nothing();
        assert((p + 1) * tile.block() == base + tile.block()) by (nonlinear_arith)
            requires
                base == p * tile.block(),
        ;
    }
    while t < block
        invariant
            tile.wf(),
            E::scales(),
            block == tile.block(),
            base == p * tile.block(),
            col0 + cols <= tile.w.rows,
            p < tile.blocks(),
            index is Some ==> index->0@.len() >= cols,
            cap < u128::MAX,
            forall|scale: LaneScale| scale.per_step <= cap ==> #[trigger] E::step_known(scale),
            begun == *old(ledger),
            region == region_of(*tile, index, col0, cols, cap),
            block_bound == region.block_height(p as int, t as int),
            *ledger == begun.charged(region.block_probe(p as int, t as int)),
            t <= block,
            block_bound <= cap,
            forall|i: int, j: int|
                #![trigger tile.term(i, col0 + j), present(seq_of(index), j)]
                0 <= i < tile.rows && 0 <= j < cols && present(seq_of(index), j)
                    ==> -block_bound <= sum(
                    tile.term(i, col0 + j),
                    base,
                    base + t,
                ) <= block_bound,
        decreases block - t,
    {
        let ghost before = *ledger;
        let bound: u128 = scalar_envelope(tile, index, col0, cols, p, t, cap, ledger);
        proof {
            begun.charges_compose(
                region.block_probe(p as int, t as int),
                region.step_probe(base + t, cols as int),
            );
        }
        if bound > cap || block_bound > cap - bound {
            proof {
                lemma_block_passed(region, p as int, t + 1, tile.block());
            }
            return cap + 1;
        }
        proof {
            assert forall|i: int, j: int|
                #![trigger tile.term(i, col0 + j), present(seq_of(index), j)]
                0 <= i < tile.rows && 0 <= j < cols && present(seq_of(index), j) implies -(block_bound
                + bound) <= sum(tile.term(i, col0 + j), base, base + t + 1) <= block_bound + bound by {
                let f = tile.term(i, col0 + j);
                assert(sum(f, base, base + t + 1) == sum(f, base, base + t) + f(base + t));
            }
        }
        block_bound = block_bound + bound;
        t = t + 1;
    }
    block_bound
}

/// A block that has passed the cap stays past it, and is not looked at any
/// further.
proof fn lemma_block_passed<'t, E: Tabulated, Bd: Bound, C: Enumerable<E, Bd>>(
    region: Region<'t, E, Bd, C>,
    p: int,
    t: int,
    end: int,
)
    requires
        0 <= t <= end,
        region.block_height(p, t) > region.cap,
    ensures
        region.block_height(p, end) > region.cap,
        t > 0 ==> region.block_height(p, end) == region.cap + 1,
        region.block_probe(p, end) == region.block_probe(p, t),
    decreases end - t,
{
    if t < end {
        lemma_block_passed(region, p, t, end - 1);
    }
}

/// Adds block `p` of the first columns to their lanes, through the first slot.
fn add_block<E: Tabulated, Bd: Bound, C: Enumerable<E, Bd>, L: TableLane<E>, Lg: Ledger>(
    tile: &Tile<'_, E, Bd, C>,
    sweep: &Sweep<'_, E, Bd, C>,
    spec: &TableSpec,
    table: &mut Table<'_, L>,
    acts: &mut [E],
    carried: &mut [L],
    entries: &mut Option<EntrySet<'_>>,
    col0: usize,
    cols: usize,
    group: usize,
    addressed: usize,
    p: usize,
    ledger: &mut Lg,
    Ghost(acc): Ghost<Seq<E::Acc>>,
    Ghost(placed): Ghost<bool>,
    Ghost(q): Ghost<int>,
    Ghost(height): Ghost<int>,
    Ghost(bound): Ghost<int>,
)
    requires
        agree(*tile, *sweep, *old(table)),
        spec.sequence == Sequence::SignMask ==> Bd::bound() <= 1 && E::declared_scale(),
        col0 + cols <= tile.w.rows,
        p < tile.blocks(),
        tile.block() * tile.rows <= old(acts)@.len(),
        cols * tile.rows <= old(carried)@.len(),
        sweep.index is Some ==> sweep.index->0@.len() >= cols,
        addressed == present_count(seq_of(sweep.index), cols as int),
        set_ready(*old(entries)),
        stepped::<E, Bd, C, L>(
            *tile,
            sweep.index,
            old(carried)@,
            acc,
            col0 as int,
            cols as int,
            placed,
            q,
            p * tile.block(),
            height,
        ),
        forall|i: int, j: int|
            #![trigger tile.term(i, col0 + j), present(seq_of(sweep.index), j)]
            0 <= i < tile.rows && 0 <= j < cols && present(seq_of(sweep.index), j)
                ==> -bound <= sum(
                tile.term(i, col0 + j),
                p * tile.block(),
                (p + 1) * tile.block(),
            ) <= bound,
    ensures
        agree(*tile, *sweep, *final(table)),
        final(table).same_geometry(*old(table)),
        final(final(table).words)@ == final(old(table).words)@,
        old(table).blank_padding() ==> final(table).blank_padding(),
        final(acts)@.len() == old(acts)@.len(),
        final(carried)@.len() == old(carried)@.len(),
        set_restored(*final(entries), *old(entries)),
        stepped::<E, Bd, C, L>(
            *tile,
            sweep.index,
            final(carried)@,
            acc,
            col0 as int,
            cols as int,
            placed,
            q,
            (p + 1) * tile.block(),
            height + bound,
        ),
        *final(ledger) == old(ledger).charged(
            region_of(*tile, sweep.index, col0, cols, 0).whole(
                *spec,
                set_room(*old(entries)),
                p as int,
            ),
        ),
{
    let codes: BlockCodes<'_, E, Bd, C> = BlockCodes {
        codes: sweep.codes,
        codes_per_row: sweep.codes_per_row,
        col0,
        cols,
        p,
        collapsed: sweep.index,
    };
    let ghost begun = *ledger;
    let ghost start = *table;
    let ghost slab = table.slab_len();
    let ghost before = carried@;
    proof {
        lemma_codes_at(*tile, *sweep, *table, codes);
        tile.lemma_column_step(p as int, 0);
        assert((p + 1) * tile.block() == p * tile.block() + tile.block()) by (nonlinear_arith);
    }
    tile.load(acts, p);
    build_source_block(table, spec, tile.book, acts, 0, codes, addressed, entries, ledger);
    proof {
        let live = start.live();
        assert(0 * slab == 0);
        assert(live <= slab) by (nonlinear_arith)
            requires
                live == start.code_space * start.rows,
                slab == start.codes * start.rows,
                start.code_space <= start.codes,
        ;
        if start.blank_padding() {
            table.lemma_padding_kept(start, 0, 0, live);
        }
        lemma_covers(*tile, *sweep, *table, col0 as int, cols as int, p as int, 1);
    }
    let ghost middle = *ledger;
    let computed: usize = sweep.sweep_group(group, table.stack(), carried, col0, cols, p, 1);
    enter_gathered(ledger, computed, 1, tile.rows);
    proof {
        assert(computed * 1 * tile.rows == addressed * tile.rows) by (nonlinear_arith)
            requires
                computed == addressed,
        ;
        begun.charges_compose(
            build_tally(
                *spec,
                built_entries::<E, Bd, C>(codes.addressed(cols as int), set_room(*old(entries))),
                C::block() as int,
                start.rows as int,
            ),
            Tally::gathering((computed * 1 * tile.rows) as nat),
        );
        assert forall|i: int, j: int|
            #![trigger tile.term(i, col0 + j), present(seq_of(sweep.index), j)]
            0 <= i < tile.rows && 0 <= j < cols && present(seq_of(sweep.index), j) implies {
            &&& cong(
                table.words@[stack_place(
                    slab,
                    tile.rows as int,
                    0,
                    tile.place_at(col0 + j, p as int),
                    i,
                )].word(),
                sum(
                    tile.term(i, col0 + j),
                    p * tile.block(),
                    (p + 1) * tile.block(),
                ),
                L::extent(),
            )
            &&& -bound <= sum(
                tile.term(i, col0 + j),
                p * tile.block(),
                (p + 1) * tile.block(),
            ) <= bound
        } by {
            assert(codes.place(j) as int == tile.place_at(col0 + j, p as int));
            crate::accumulate::lemma_slot_built::<E, Bd, C, L>(
                *tile,
                *table,
                *spec,
                acts@,
                0,
                col0 + j,
                p as int,
            );
            let at = stack_place(
                slab,
                tile.rows as int,
                0,
                tile.place_at(col0 + j, p as int),
                i,
            );
            assert(cong(table.words@[at].word(), tile.dot(i, col0 + j, p as int), L::extent()));
        }
        lemma_step_swept::<E, Bd, C, L>(
            *tile,
            *sweep,
            *table,
            before,
            carried@,
            acc,
            col0 as int,
            cols as int,
            p as int,
            placed,
            q,
            p * tile.block(),
            (p + 1) * tile.block(),
            height,
            bound,
        );
    }
}

/// Adds one step of block `p` of the first columns to their lanes, through the
/// first slot.
fn add_step<E: Tabulated, Bd: Bound, C: Enumerable<E, Bd>, L: TableLane<E>, Lg: Ledger>(
    tile: &Tile<'_, E, Bd, C>,
    sweep: &Sweep<'_, E, Bd, C>,
    spec: &TableSpec,
    table: &mut Table<'_, L>,
    acts: &mut [E],
    carried: &mut [L],
    entries: &mut Option<EntrySet<'_>>,
    col0: usize,
    cols: usize,
    group: usize,
    addressed: usize,
    p: usize,
    t: usize,
    ledger: &mut Lg,
    Ghost(acc): Ghost<Seq<E::Acc>>,
    Ghost(placed): Ghost<bool>,
    Ghost(q): Ghost<int>,
    Ghost(height): Ghost<int>,
    Ghost(bound): Ghost<int>,
)
    requires
        agree(*tile, *sweep, *old(table)),
        spec.sequence == Sequence::SignMask ==> Bd::bound() <= 1 && E::declared_scale(),
        col0 + cols <= tile.w.rows,
        p < tile.blocks(),
        t < tile.block(),
        tile.rows <= old(acts)@.len(),
        cols * tile.rows <= old(carried)@.len(),
        sweep.index is Some ==> sweep.index->0@.len() >= cols,
        addressed == present_count(seq_of(sweep.index), cols as int),
        set_ready(*old(entries)),
        stepped::<E, Bd, C, L>(
            *tile,
            sweep.index,
            old(carried)@,
            acc,
            col0 as int,
            cols as int,
            placed,
            q,
            p * tile.block() + t,
            height,
        ),
        steps_within(
            *tile,
            sweep.index,
            col0 as int,
            cols as int,
            p * tile.block() + t,
            bound,
        ),
    ensures
        agree(*tile, *sweep, *final(table)),
        final(table).same_geometry(*old(table)),
        final(final(table).words)@ == final(old(table).words)@,
        old(table).blank_padding() ==> final(table).blank_padding(),
        final(acts)@.len() == old(acts)@.len(),
        final(carried)@.len() == old(carried)@.len(),
        set_restored(*final(entries), *old(entries)),
        stepped::<E, Bd, C, L>(
            *tile,
            sweep.index,
            final(carried)@,
            acc,
            col0 as int,
            cols as int,
            placed,
            q,
            p * tile.block() + t + 1,
            height + bound,
        ),
        *final(ledger) == old(ledger).charged(
            build_tally(
                *spec,
                built_cells::<E, Bd, C>(
                    region_of(*tile, sweep.index, col0, cols, 0).named(p as int),
                    set_room(*old(entries)),
                ),
                1,
                tile.rows as int,
            ).plus(
                Tally::gathering(region_of(*tile, sweep.index, col0, cols, 0).reads()),
            ),
        ),
{
    let block: usize = C::max_block();
    let codes: BlockCodes<'_, E, Bd, C> = BlockCodes {
        codes: sweep.codes,
        codes_per_row: sweep.codes_per_row,
        col0,
        cols,
        p,
        collapsed: sweep.index,
    };
    let ghost begun = *ledger;
    let ghost start = *table;
    let ghost slab = table.slab_len();
    let ghost r = tile.rows as int;
    let ghost before = carried@;
    proof {
        lemma_codes_at(*tile, *sweep, *table, codes);
        tile.lemma_column_step(p as int, t as int);
    }
    let source: usize = p * block + t;
    tile.load_step(acts, source);
    build_source_scalar(table, spec, t, tile.book, acts, codes, addressed, entries, ledger);
    proof {
        let live = start.live();
        assert(0 * slab == 0);
        assert(live <= slab) by (nonlinear_arith)
            requires
                live == start.code_space * start.rows,
                slab == start.codes * start.rows,
                start.code_space <= start.codes,
        ;
        if start.blank_padding() {
            table.lemma_padding_kept(start, 0, 0, live);
        }
        lemma_covers(*tile, *sweep, *table, col0 as int, cols as int, p as int, 1);
    }
    let ghost middle = *ledger;
    let computed: usize = sweep.sweep_group(group, table.stack(), carried, col0, cols, p, 1);
    enter_gathered(ledger, computed, 1, tile.rows);
    proof {
        assert(computed * 1 * tile.rows == addressed * tile.rows) by (nonlinear_arith)
            requires
                computed == addressed,
        ;
        begun.charges_compose(
            build_tally(
                *spec,
                built_cells::<E, Bd, C>(codes.addressed(cols as int), set_room(*old(entries))),
                1,
                start.rows as int,
            ),
            Tally::gathering((computed * 1 * tile.rows) as nat),
        );
        let s = source as int;
        assert forall|i: int, j: int|
            #![trigger tile.term(i, col0 + j), present(seq_of(sweep.index), j)]
            0 <= i < tile.rows && 0 <= j < cols && present(seq_of(sweep.index), j) implies {
            &&& cong(
                table.words@[stack_place(
                    slab,
                    r,
                    0,
                    tile.place_at(col0 + j, p as int),
                    i,
                )].word(),
                sum(tile.term(i, col0 + j), s, s + 1),
                L::extent(),
            )
            &&& -bound <= sum(tile.term(i, col0 + j), s, s + 1) <= bound
        } by {
            let f = tile.term(i, col0 + j);
            let c = tile.place_at(col0 + j, p as int);
            assert(sum(f, s, s + 1) == sum(f, s, s) + f(s));
            assert(codes.place(j) as int == c);
            tile.lemma_suits(*spec, col0 + j, p as int);
            tile.lemma_block_entry(col0 + j, p as int, t as int);
            tile.w.lemma_code(col0 + j, p as int);
            let at = (col0 + j) * tile.w.per_row() + p;
            assert(tile.book@[C::index(tile.w.codes@[at]) * C::block() + t]
                == tile.w.codec.decoded(tile.w.codes@[at], t as int).element().graded(
                tile.scale.base_b,
            ));
            let dot = cell_dot(tile.book@, acts@, c * tile.block() + t);
            assert(table.ready::<E>(0, c, dot));
            assert(entry_ready::<E, L>(table.words@, slab, r, 0, c, dot));
            assert(cong(table.words@[0 * slab + c * r + i].word(), dot(i), L::extent()));
            assert(acts@[i] == tile.a.cell(tile.row0 + i, s).element().graded(tile.scale.base_a));
            assert(dot(i) == f(s));
        }
        lemma_step_swept::<E, Bd, C, L>(
            *tile,
            *sweep,
            *table,
            before,
            carried@,
            acc,
            col0 as int,
            cols as int,
            p as int,
            placed,
            q,
            s,
            s + 1,
            height,
            bound,
        );
    }
}

/// What one pass over a block of columns keeps of its working storage.
pub open spec fn storage_kept<E: Tabulated, Bd: Bound, C: Enumerable<E, Bd>, L: TableLane<E>>(
    tile: Tile<'_, E, Bd, C>,
    sweep: Sweep<'_, E, Bd, C>,
    table: Table<'_, L>,
    start: Table<'_, L>,
    entries: Option<EntrySet<'_>>,
    entries0: Option<EntrySet<'_>>,
) -> bool {
    &&& agree(tile, sweep, table)
    &&& table.same_geometry(start)
    &&& start.blank_padding() ==> table.blank_padding()
    &&& set_ready(entries)
    &&& set_restored(entries, entries0)
}

/// Any step is within the square of the reach.
proof fn lemma_any_step<E: Tabulated, Bd: Bound, C: Enumerable<E, Bd>>(
    tile: Tile<'_, E, Bd, C>,
    index: Option<&[usize]>,
    col0: int,
    cols: int,
    step: int,
)
    requires
        tile.wf(),
        0 <= col0,
        col0 + cols <= tile.w.rows,
        0 <= step < tile.a.cols,
    ensures
        steps_within(tile, index, col0, cols, step, (E::reach() * E::reach()) as int),
{
    assert forall|i: int, j: int|
        #![trigger tile.term(i, col0 + j), present(seq_of(index), j)]
        0 <= i < tile.rows && 0 <= j < cols && present(seq_of(index), j) implies -(E::reach() * E::reach())
        <= tile.term(i, col0 + j)(step) <= E::reach() * E::reach() by {
        tile.lemma_term(i, col0 + j, step);
        let (x, y) = choose|x: E, y: E|
            tile.term(i, col0 + j)(step) == #[trigger] (x.val() * y.val());
        crate::dense::lemma_product_reach(x, y);
    }
}

/// One step by itself is carried over.
proof fn lemma_lone_step<E: Tabulated, Bd: Bound, C: Enumerable<E, Bd>, L: TableLane<E>>(
    tile: Tile<'_, E, Bd, C>,
    index: Option<&[usize]>,
    col0: int,
    cols: int,
    step: int,
)
    requires
        tile.wf(),
        0 <= col0,
        col0 + cols <= tile.w.rows,
        0 <= step < tile.a.cols,
    ensures
        all_hold::<E, Bd, C, L>(tile, index, col0, cols, step, step + 1),
{
    L::envelope_laws();
    assert forall|i: int, j: int|
        #![trigger tile.term(i, col0 + j), present(seq_of(index), j)]
        0 <= i < tile.rows && 0 <= j < cols && present(seq_of(index), j) implies L::holds(
        sum(tile.term(i, col0 + j), step, step + 1),
    ) by {
        let f = tile.term(i, col0 + j);
        tile.lemma_term(i, col0 + j, step);
        assert(sum(f, step, step + 1) == sum(f, step, step) + f(step));
        let (x, y) = choose|x: E, y: E| f(step) == #[trigger] (x.val() * y.val());
        assert(L::holds(x.val() * y.val()));
    }
}

/// Block `p` of the first columns, step by step: a step past the cap is placed
/// by itself. Returns whether anything is left in the lanes, whether the
/// totals have been written, and how much the lanes hold at most.
fn add_fractured<E: Tabulated, Bd: Bound, C: Enumerable<E, Bd>, L: TableLane<E>, Lg: Ledger>(
    tile: &Tile<'_, E, Bd, C>,
    sweep: &Sweep<'_, E, Bd, C>,
    scalar_spec: &TableSpec,
    table: &mut Table<'_, L>,
    acts: &mut [E],
    carried: &mut [L],
    acc: &mut [E::Acc],
    entries: &mut Option<EntrySet<'_>>,
    col0: usize,
    cols: usize,
    group: usize,
    addressed: usize,
    p: usize,
    cap: u128,
    pending0: bool,
    placed0: bool,
    height0: u128,
    ledger: &mut Lg,
    Ghost(q0): Ghost<int>,
) -> (r: (bool, bool, u128, Ghost<int>))
    requires
        agree(*tile, *sweep, *old(table)),
        E::scales(),
        scalar_spec.sequence == Sequence::SignMask ==> Bd::bound() <= 1 && E::declared_scale(),
        col0 + cols <= tile.w.rows,
        p < tile.blocks(),
        tile.rows <= old(acts)@.len(),
        cols * tile.rows <= old(carried)@.len(),
        cols * tile.rows <= old(acc)@.len(),
        sweep.index is Some ==> sweep.index->0@.len() >= cols,
        addressed == present_count(seq_of(sweep.index), cols as int),
        set_ready(*old(entries)),
        cap < u128::MAX,
        cap <= L::envelope(),
        forall|scale: LaneScale| scale.per_step <= cap ==> #[trigger] E::step_known(scale),
        stepped::<E, Bd, C, L>(
            *tile,
            sweep.index,
            old(carried)@,
            old(acc)@,
            col0 as int,
            cols as int,
            placed0,
            q0,
            p * tile.block(),
            height0 as int,
        ),
        height0 <= cap,
        !pending0 ==> q0 == p * tile.block() && height0 == 0,
    ensures
        storage_kept(*tile, *sweep, *final(table), *old(table), *final(entries), *old(entries)),
        final(final(table).words)@ == final(old(table).words)@,
        final(acts)@.len() == old(acts)@.len(),
        final(carried)@.len() == old(carried)@.len(),
        final(acc)@.len() == old(acc)@.len(),
        stepped::<E, Bd, C, L>(
            *tile,
            sweep.index,
            final(carried)@,
            final(acc)@,
            col0 as int,
            cols as int,
            r.1,
            r.3@,
            (p + 1) * tile.block(),
            r.2 as int,
        ),
        r.2 <= cap,
        !r.0 ==> r.3@ == (p + 1) * tile.block() && r.2 == 0,
        r.0 || r.1,
        *final(ledger) == old(ledger).charged(
            region_of(*tile, sweep.index, col0, cols, cap).apart(
                *scalar_spec,
                set_room(*old(entries)),
                p as int,
                tile.block(),
            ),
        ),
{
    let block: usize = C::max_block();
    let ghost start = *table;
    let ghost begun = *ledger;
    let ghost mut q: int = q0;
    let ghost base = p * tile.block();
    let ghost region = region_of(*tile, sweep.index, col0, cols, cap);
    let ghost room = set_room(*entries);
    let mut pending: bool = pending0;
    let mut placed: bool = placed0;
    let mut height: u128 = height0;
    let mut t: usize = 0;
    proof {
        begun.charges_nothing();
        tile.lemma_column_step(p as int, 0);
        assert((p + 1) * tile.block() == base + tile.block()) by (nonlinear_arith)
            requires
                base == p * tile.block(),
        ;
    }
    while t < block
        invariant
            block == tile.block(),
            base == p * tile.block(),
            base + block <= tile.a.cols,
            start == *old(table),
            begun == *old(ledger),
            storage_kept(*tile, *sweep, *table, start, *entries, *old(entries)),
            final(table.words)@ == final(old(table).words)@,
            E::scales(),
            scalar_spec.sequence == Sequence::SignMask ==> Bd::bound() <= 1 && E::declared_scale(),
            col0 + cols <= tile.w.rows,
            p < tile.blocks(),
            acts@.len() == old(acts)@.len(),
            carried@.len() == old(carried)@.len(),
            acc@.len() == old(acc)@.len(),
            tile.rows <= acts@.len(),
            cols * tile.rows <= carried@.len(),
            cols * tile.rows <= acc@.len(),
            sweep.index is Some ==> sweep.index->0@.len() >= cols,
            addressed == present_count(seq_of(sweep.index), cols as int),
            cap < u128::MAX,
            cap <= L::envelope(),
            forall|scale: LaneScale| scale.per_step <= cap ==> #[trigger] E::step_known(scale),
            t <= block,
            stepped::<E, Bd, C, L>(
                *tile,
                sweep.index,
                carried@,
                acc@,
                col0 as int,
                cols as int,
                placed,
                q,
                base + t,
                height as int,
            ),
            height <= cap,
            !pending ==> q == base + t && height == 0,
            t > 0 ==> pending || placed,
            region == region_of(*tile, sweep.index, col0, cols, cap),
            room == set_room(*old(entries)),
            *ledger == begun.charged(region.apart(*scalar_spec, room, p as int, t as int)),
        decreases block - t,
    {
        let ghost s = base + t;
        let bound: u128 = scalar_envelope(
            tile,
            sweep.index,
            col0,
            cols,
            p,
            t,
            cap,
            ledger,
        );
        let singleton: bool = bound > cap;
        if pending && (singleton || bound > cap - height) {
            proof {
                lemma_within_envelope::<E, Bd, C, L>(
                    *tile,
                    sweep.index,
                    carried@,
                    acc@,
                    col0 as int,
                    cols as int,
                    placed,
                    q,
                    s,
                    height as int,
                );
            }
            place_steps(
                tile,
                sweep.index,
                carried,
                acc,
                col0,
                cols,
                placed,
                Ghost(q),
                Ghost(s),
                Ghost(height as int),
            );
            placed = true;
            height = 0;
            proof {
                q = s;
            }
        }
        let ghost step_bound: int = if singleton {
            (E::reach() * E::reach()) as int
        } else {
            bound as int
        };
        proof {
            if singleton {
                lemma_any_step(*tile, sweep.index, col0 as int, cols as int, s);
            }
        }
        add_step(
            tile,
            sweep,
            scalar_spec,
            table,
            acts,
            carried,
            entries,
            col0,
            cols,
            group,
            addressed,
            p,
            t,
            ledger,
            Ghost(acc@),
            Ghost(placed),
            Ghost(q),
            Ghost(height as int),
            Ghost(step_bound),
        );
        proof {
            let done = region.apart(*scalar_spec, room, p as int, t as int);
            let probe = region.step_probe(s, cols as int);
            let build = build_tally(
                *scalar_spec,
                built_cells::<E, Bd, C>(region.named(p as int), room),
                1,
                tile.rows as int,
            );
            let gather = Tally::gathering(region.reads());
            begun.charges_compose(done, probe);
            begun.charges_compose(done.plus(probe), build.plus(gather));
            assert(done.plus(probe).plus(build.plus(gather)) == done.plus(probe).plus(build).plus(
                gather,
            ));
        }
        if singleton {
            proof {
                lemma_lone_step::<E, Bd, C, L>(
                    *tile,
                    sweep.index,
                    col0 as int,
                    cols as int,
                    s,
                );
            }
            place_steps(
                tile,
                sweep.index,
                carried,
                acc,
                col0,
                cols,
                placed,
                Ghost(q),
                Ghost(s + 1),
                Ghost(height + step_bound),
            );
            placed = true;
            pending = false;
            height = 0;
            proof {
                q = s + 1;
            }
        } else {
            height = height + bound;
            pending = true;
        }
        t = t + 1;
    }
    (pending, placed, height, Ghost(q))
}

/// The exact sums of a block of columns, block by block where the bounds of a
/// block fit the lane together, and step by step where they do not.
pub fn accumulate_envelopes<
    E: Tabulated,
    Bd: Bound,
    C: Enumerable<E, Bd>,
    L: TableLane<E>,
    Lg: Ledger,
>(
    tile: &Tile<'_, E, Bd, C>,
    sweep: &Sweep<'_, E, Bd, C>,
    spec: &TableSpec,
    scalar_spec: &TableSpec,
    table: &mut Table<'_, L>,
    acts: &mut [E],
    carried: &mut [L],
    acc: &mut [E::Acc],
    entries: &mut Option<EntrySet<'_>>,
    col0: usize,
    cols: usize,
    group: usize,
    addressed: usize,
    ledger: &mut Lg,
)
    requires
        agree(*tile, *sweep, *old(table)),
        E::scales(),
        spec.sequence == Sequence::SignMask ==> Bd::bound() <= 1 && E::declared_scale(),
        scalar_spec.sequence == Sequence::SignMask ==> Bd::bound() <= 1 && E::declared_scale(),
        col0 + cols <= tile.w.rows,
        0 < tile.blocks(),
        tile.block() * tile.rows <= old(acts)@.len(),
        cols * tile.rows <= old(carried)@.len(),
        cols * tile.rows <= old(acc)@.len(),
        sweep.index is Some ==> sweep.index->0@.len() >= cols,
        addressed == present_count(seq_of(sweep.index), cols as int),
        set_ready(*old(entries)),
        spec.lane_cap < u128::MAX,
        spec.lane_cap <= L::envelope(),
        forall|scale: LaneScale|
            scale.per_step <= spec.lane_cap ==> #[trigger] E::step_known(scale),
    ensures
        storage_kept(*tile, *sweep, *final(table), *old(table), *final(entries), *old(entries)),
        final(final(table).words)@ == final(old(table).words)@,
        final(acts)@.len() == old(acts)@.len(),
        final(carried)@.len() == old(carried)@.len(),
        final(acc)@.len() == old(acc)@.len(),
        forall|j: int|
            0 <= j < cols && #[trigger] present(seq_of(sweep.index), j)
                ==> crate::accumulate::totals_hold::<E, Bd, C, L>(
                *tile,
                final(acc)@,
                j,
                col0 + j,
                tile.blocks(),
            ),
        *final(ledger) == old(ledger).charged(
            region_of(*tile, sweep.index, col0, cols, spec.lane_cap).work(
                *spec,
                *scalar_spec,
                set_room(*old(entries)),
                tile.blocks(),
            ),
        ),
{
    let cap: u128 = spec.lane_cap;
    let blocks: usize = tile.w.codes_per_row();
    let ghost start = *table;
    let ghost begun = *ledger;
    let ghost b = tile.block();
    let ghost region = region_of(*tile, sweep.index, col0, cols, cap);
    let ghost room = set_room(*entries);
    proof {
        begun.charges_nothing();
        assert(carried.len() == carried@.len());
        assert(0 <= cols * tile.rows) by (nonlinear_arith);
        tile.lemma_column_step(0, 0);
        assert(tile.rows <= b * tile.rows) by (nonlinear_arith)
            requires
                b >= 1,
        ;
    }
    blank_lanes(carried, cols * tile.rows);
    let mut pending: bool = false;
    let mut placed: bool = false;
    let mut height: u128 = 0;
    let ghost mut q: int = 0;
    let mut p: usize = 0;
    proof {
        L::laws();
        assert forall|j: int| 0 <= j < cols && #[trigger] present(seq_of(sweep.index), j) implies
            lanes_sum::<E, Bd, C, L>(*tile, carried@, j, col0 + j, 0, 0) by {
            assert forall|i: int| 0 <= i < tile.rows implies cong(
                (#[trigger] carried@[j * tile.rows + i]).word(),
                sum(tile.term(i, col0 + j), 0, 0),
                L::extent(),
            ) by {
                lemma_cell(cols as int, tile.rows as int, j, i);
                lemma_cong_refl(0, L::extent());
            }
        }
        assert(0 * b == 0);
    }
    while p < blocks
        invariant
            blocks == tile.blocks(),
            b == tile.block(),
            cap == spec.lane_cap,
            start == *old(table),
            begun == *old(ledger),
            storage_kept(*tile, *sweep, *table, start, *entries, *old(entries)),
            final(table.words)@ == final(old(table).words)@,
            E::scales(),
            spec.sequence == Sequence::SignMask ==> Bd::bound() <= 1 && E::declared_scale(),
            scalar_spec.sequence == Sequence::SignMask ==> Bd::bound() <= 1 && E::declared_scale(),
            col0 + cols <= tile.w.rows,
            acts@.len() == old(acts)@.len(),
            carried@.len() == old(carried)@.len(),
            acc@.len() == old(acc)@.len(),
            tile.rows <= acts@.len(),
            b * tile.rows <= acts@.len(),
            cols * tile.rows <= carried@.len(),
            cols * tile.rows <= acc@.len(),
            sweep.index is Some ==> sweep.index->0@.len() >= cols,
            addressed == present_count(seq_of(sweep.index), cols as int),
            cap < u128::MAX,
            cap <= L::envelope(),
            forall|scale: LaneScale| scale.per_step <= cap ==> #[trigger] E::step_known(scale),
            p <= blocks,
            stepped::<E, Bd, C, L>(
                *tile,
                sweep.index,
                carried@,
                acc@,
                col0 as int,
                cols as int,
                placed,
                q,
                p * b,
                height as int,
            ),
            height <= cap,
            !pending ==> q == p * b && height == 0,
            p > 0 ==> pending || placed,
            region == region_of(*tile, sweep.index, col0, cols, cap),
            room == set_room(*old(entries)),
            *ledger == begun.charged(region.work(*spec, *scalar_spec, room, p as int)),
        decreases blocks - p,
    {
        let block_bound: u128 = block_envelope(
            tile,
            sweep.index,
            col0,
            cols,
            p,
            cap,
            ledger,
        );
        let ghost done = region.work(*spec, *scalar_spec, room, p as int);
        let ghost probe = region.block_probe(p as int, b);
        proof {
            begun.charges_compose(done, probe);
        }
        if block_bound <= cap {
            if pending && block_bound > cap - height {
                proof {
                    lemma_within_envelope::<E, Bd, C, L>(
                        *tile,
                        sweep.index,
                        carried@,
                        acc@,
                        col0 as int,
                        cols as int,
                        placed,
                        q,
                        p * b,
                        height as int,
                    );
                }
                place_steps(
                    tile,
                    sweep.index,
                    carried,
                    acc,
                    col0,
                    cols,
                    placed,
                    Ghost(q),
                    Ghost(p * b),
                    Ghost(height as int),
                );
                placed = true;
                height = 0;
                proof {
                    q = p * b;
                }
            }
            add_block(
                tile,
                sweep,
                spec,
                table,
                acts,
                carried,
                entries,
                col0,
                cols,
                group,
                addressed,
                p,
                ledger,
                Ghost(acc@),
                Ghost(placed),
                Ghost(q),
                Ghost(height as int),
                Ghost(block_bound as int),
            );
            proof {
                begun.charges_compose(done.plus(probe), region.whole(*spec, room, p as int));
            }
            height = height + block_bound;
            pending = true;
        } else {
            let (left, written, most, Ghost(since)) = add_fractured(
                tile,
                sweep,
                scalar_spec,
                table,
                acts,
                carried,
                acc,
                entries,
                col0,
                cols,
                group,
                addressed,
                p,
                cap,
                pending,
                placed,
                height,
                ledger,
                Ghost(q),
            );
            pending = left;
            placed = written;
            height = most;
            proof {
                q = since;
                begun.charges_compose(
                    done.plus(probe),
                    region.apart(*scalar_spec, room, p as int, b),
                );
            }
        }
        p = p + 1;
    }
    if pending {
        proof {
            lemma_within_envelope::<E, Bd, C, L>(
                *tile,
                sweep.index,
                carried@,
                acc@,
                col0 as int,
                cols as int,
                placed,
                q,
                p * b,
                height as int,
            );
        }
        place_steps(
            tile,
            sweep.index,
            carried,
            acc,
            col0,
            cols,
            placed,
            Ghost(q),
            Ghost(p * b),
            Ghost(height as int),
        );
    }
    proof {
        assert forall|j: int| 0 <= j < cols && #[trigger] present(seq_of(sweep.index), j) implies
            crate::accumulate::totals_hold::<E, Bd, C, L>(
            *tile,
            acc@,
            j,
            col0 + j,
            tile.blocks(),
        ) by {
            assert(totals_sum::<E, Bd, C, L>(*tile, acc@, j, col0 + j, p * b));
            assert(0 * b == 0);
        }
    }
}

} // verus!
