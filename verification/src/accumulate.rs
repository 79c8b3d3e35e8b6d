//! The exact sums of one block of columns of a tile.
use crate::arith::{cong, lemma_cong_add, lemma_cong_refl, lemma_cong_trans, sum};
use crate::census::{enter_gathered, Ledger, Tally};
use crate::codec::Enumerable;
use crate::element::{Accumulator, Bound, Element};
use crate::entries::EntrySet;
use crate::family::Tabulated;
use crate::lane::{Lane, LaneWord};
use crate::plan::min;
use crate::sequence::{entry_sum, lemma_cell, Sequence, TableLane, TableSpec};
use crate::sources::{
    addressed_places, build_source_block, built_entries, entry_built, set_ready, set_restored,
    set_room, BlockCodes,
};
use crate::sweep::{
    column_gathered, column_words, present, present_count, seq_of, stack_place, Sweep,
};
use crate::table::{build_tally, entry_dot, entry_ready, lemma_slot, Table};
use crate::tile::{place, run_requires_place, Tile};
use vstd::prelude::*;

verus! {

/// The words of slot `s` hold the dot products of column `col` over block `p`.
pub open spec fn slot_holds<E: Tabulated, Bd: Bound, C: Enumerable<E, Bd>, L: Lane<E>>(
    tile: Tile<'_, E, Bd, C>,
    words: Seq<L>,
    slab: int,
    s: int,
    col: int,
    p: int,
) -> bool {
    forall|i: int|
        0 <= i < tile.rows ==> cong(
            (#[trigger] words[stack_place(slab, tile.rows as int, s, tile.place_at(col, p), i)]).word(),
            tile.dot(i, col, p),
            L::extent(),
        )
}

/// The lanes of a column hold its graded sum over blocks `lo .. hi`.
pub open spec fn lanes_hold<E: Tabulated, Bd: Bound, C: Enumerable<E, Bd>, L: Lane<E>>(
    tile: Tile<'_, E, Bd, C>,
    lanes: Seq<L>,
    j: int,
    col: int,
    lo: int,
    hi: int,
) -> bool {
    forall|i: int|
        0 <= i < tile.rows ==> cong(
            (#[trigger] lanes[j * tile.rows + i]).word(),
            tile.run(i, col, lo, hi),
            L::extent(),
        )
}

/// The totals of a column hold its graded sum over blocks `0 .. hi`, at the
/// weight of the grade.
pub open spec fn totals_hold<E: Tabulated, Bd: Bound, C: Enumerable<E, Bd>, L: Lane<E>>(
    tile: Tile<'_, E, Bd, C>,
    acc: Seq<E::Acc>,
    j: int,
    col: int,
    hi: int,
) -> bool {
    forall|i: int|
        0 <= i < tile.rows ==> cong(
            (#[trigger] acc[j * tile.rows + i]).value(),
            tile.run(i, col, 0, hi) * E::weight(tile.scale.grade()),
            L::precision(),
        )
}

/// The work of building blocks `0 .. p` for a block of columns.
pub open spec fn builds_tally<E: Element, Bd: Bound, C: Enumerable<E, Bd>>(
    spec: TableSpec,
    codes: Seq<C::Code>,
    codes_per_row: int,
    rows: int,
    index: Option<Seq<usize>>,
    col0: int,
    cols: int,
    room: Option<int>,
    p: int,
) -> Tally
    decreases p,
{
    if p <= 0 {
        Tally::none()
    } else {
        builds_tally::<E, Bd, C>(
            spec,
            codes,
            codes_per_row,
            rows,
            index,
            col0,
            cols,
            room,
            p - 1,
        ).plus(
            build_tally(
                spec,
                built_entries::<E, Bd, C>(
                    addressed_places::<E, Bd, C>(codes, codes_per_row, col0, p - 1, index, cols),
                    room,
                ),
                C::block() as int,
                rows,
            ),
        )
    }
}

/// The work of blocks `0 .. p` of a block of columns: the builds, and one entry
/// gathered for each row of each first column at each block.
pub open spec fn columns_tally<E: Element, Bd: Bound, C: Enumerable<E, Bd>>(
    spec: TableSpec,
    codes: Seq<C::Code>,
    codes_per_row: int,
    rows: int,
    index: Option<Seq<usize>>,
    col0: int,
    cols: int,
    room: Option<int>,
    p: int,
) -> Tally {
    builds_tally::<E, Bd, C>(
        spec,
        codes,
        codes_per_row,
        rows,
        index,
        col0,
        cols,
        room,
        p,
    ).plus(Tally::gathering((present_count(index, cols) * p * rows) as nat))
}

/// The sweep, the table and the tile are of one product.
pub open spec fn agree<E: Tabulated, Bd: Bound, C: Enumerable<E, Bd>, L: LaneWord>(
    tile: Tile<'_, E, Bd, C>,
    sweep: Sweep<'_, E, Bd, C>,
    table: Table<'_, L>,
) -> bool {
    &&& tile.wf()
    &&& sweep.wf()
    &&& table.wf()
    &&& sweep.codes@ == tile.w.codes@
    &&& sweep.codes_per_row == tile.w.per_row()
    &&& sweep.rows == tile.rows
    &&& sweep.slab == table.slab_len()
    &&& table.code_space == C::space()
    &&& table.rows == tile.rows
}

/// The codes of a block are those of the tile.
pub proof fn lemma_codes_at<E: Tabulated, Bd: Bound, C: Enumerable<E, Bd>, L: LaneWord>(
    tile: Tile<'_, E, Bd, C>,
    sweep: Sweep<'_, E, Bd, C>,
    table: Table<'_, L>,
    codes: BlockCodes<'_, E, Bd, C>,
)
    requires
        agree(tile, sweep, table),
        codes.codes@ == sweep.codes@,
        codes.codes_per_row == sweep.codes_per_row,
        codes.collapsed == sweep.index,
        codes.col0 + codes.cols <= tile.w.rows,
        codes.p < tile.blocks(),
        sweep.index is Some ==> sweep.index->0@.len() >= codes.cols,
    ensures
        codes.wf(),
        forall|j: int|
            0 <= j < codes.cols ==> (#[trigger] codes.place(j)) as int == tile.place_at(
                codes.col0 + j,
                codes.p as int,
            ),
{
    let cpr = codes.codes_per_row as int;
    assert((codes.col0 + codes.cols) * cpr <= tile.w.rows * cpr) by (nonlinear_arith)
        requires
            codes.col0 + codes.cols <= tile.w.rows,
            0 <= cpr,
    ;
    assert forall|x: int| 0 <= x < codes.codes@.len() implies C::valid(#[trigger] codes.codes@[x])
        && C::index(codes.codes@[x]) < C::space() by {
        assert(C::valid(sweep.codes@[x]));
    }
}

/// The words that a column gathers add up to its graded sum.
proof fn lemma_words_sum<E: Tabulated, Bd: Bound, C: Enumerable<E, Bd>, L: Lane<E>>(
    tile: Tile<'_, E, Bd, C>,
    words: Seq<L>,
    slab: int,
    col: int,
    p0: int,
    n: int,
    entry: spec_fn(int) -> int,
    i: int,
)
    requires
        tile.block() > 0,
        0 <= p0,
        0 <= n,
        0 <= i < tile.rows,
        forall|s: int| 0 <= s < n ==> #[trigger] entry(s) == tile.place_at(col, p0 + s),
        forall|s: int|
            0 <= s < n ==> #[trigger] slot_holds::<E, Bd, C, L>(
                tile,
                words,
                slab,
                s,
                col,
                p0 + s,
            ),
    ensures
        cong(
            sum(column_words::<E, L>(words, slab, tile.rows as int, entry, i), 0, n),
            tile.run(i, col, p0, p0 + n),
            L::extent(),
        ),
    decreases n,
{
    L::laws();
    let m = L::extent();
    let f = column_words::<E, L>(words, slab, tile.rows as int, entry, i);
    if n == 0 {
        tile.lemma_run_step(i, col, p0, p0);
        lemma_cong_refl(0, m);
    } else {
        lemma_words_sum::<E, Bd, C, L>(tile, words, slab, col, p0, n - 1, entry, i);
        tile.lemma_run_step(i, col, p0, p0 + n - 1);
        assert(slot_holds::<E, Bd, C, L>(tile, words, slab, n - 1, col, p0 + (n - 1)));
        assert(entry(n - 1) == tile.place_at(col, p0 + (n - 1)));
        let place = stack_place(
            slab,
            tile.rows as int,
            n - 1,
            tile.place_at(col, p0 + (n - 1)),
            i,
        );
        assert(f(n - 1) == words[place].word());
        assert(cong(words[place].word(), tile.dot(i, col, p0 + n - 1), m));
        lemma_cong_add(
            sum(f, 0, n - 1),
            tile.run(i, col, p0, p0 + n - 1),
            f(n - 1),
            tile.dot(i, col, p0 + n - 1),
            m,
        );
        assert(sum(f, 0, n) == sum(f, 0, n - 1) + f(n - 1));
    }
}

/// A slot that was just built holds its dot products.
pub proof fn lemma_slot_built<E: Tabulated, Bd: Bound, C: Enumerable<E, Bd>, L: Lane<E>>(
    tile: Tile<'_, E, Bd, C>,
    table: Table<'_, L>,
    spec: TableSpec,
    acts: Seq<E>,
    slot: int,
    col: int,
    p: int,
)
    requires
        tile.wf(),
        table.rows == tile.rows,
        tile.loaded(acts, p),
        0 <= col < tile.w.rows,
        0 <= p < tile.blocks(),
        spec.sequence == Sequence::SignMask ==> Bd::bound() <= 1 && E::declared_scale(),
        entry_built(
            table,
            spec,
            tile.block(),
            tile.book@,
            acts,
            slot,
            tile.place_at(col, p),
        ),
    ensures
        slot_holds::<E, Bd, C, L>(tile, table.held(), table.slab_len(), slot, col, p),
{
    tile.lemma_suits(spec, col, p);
    let (r, slab, c) = (tile.rows as int, table.slab_len(), tile.place_at(col, p));
    let dot = entry_dot(tile.book@, acts, tile.block(), r, c);
    assert(entry_ready::<E, L>(table.words@, slab, r, slot, c, dot));
    assert forall|i: int| 0 <= i < r implies cong(
        (#[trigger] table.words@[stack_place(slab, r, slot, c, i)]).word(),
        tile.dot(i, col, p),
        L::extent(),
    ) by {
        tile.lemma_entry_value(acts, i, col, p);
        assert(dot(i) == entry_sum(tile.book@, acts, tile.block(), r, c, i));
        assert(stack_place(slab, r, slot, c, i) == slot * slab + c * r + i);
        assert(cong(table.words@[slot * slab + c * r + i].word(), dot(i), L::extent()));
    }
}

/// A slot that a later slot's build did not reach still holds.
proof fn lemma_slot_kept<E: Tabulated, Bd: Bound, C: Enumerable<E, Bd>, L: Lane<E>>(
    tile: Tile<'_, E, Bd, C>,
    after: Table<'_, L>,
    before: Table<'_, L>,
    s: int,
    slot: int,
    col: int,
    p: int,
)
    requires
        before.wf(),
        before.rows == tile.rows,
        before.code_space == C::space(),
        0 <= s < slot < before.depth,
        0 <= tile.place_at(col, p) < C::space(),
        slot_holds::<E, Bd, C, L>(tile, before.words@, before.slab_len(), s, col, p),
        after.changed_only(
            before,
            slot * before.slab_len(),
            slot * before.slab_len() + before.live(),
        ),
    ensures
        slot_holds::<E, Bd, C, L>(tile, after.held(), before.slab_len(), s, col, p),
{
    let (r, slab, c) = (tile.rows as int, before.slab_len(), tile.place_at(col, p));
    assert forall|i: int| 0 <= i < r implies cong(
        (#[trigger] after.words@[stack_place(slab, r, s, c, i)]).word(),
        tile.dot(i, col, p),
        L::extent(),
    ) by {
        lemma_cell(before.codes as int, r, c, i);
        lemma_slot(slab, before.depth as int, s, c * r + i);
        assert((s + 1) * slab <= slot * slab && (s + 1) * slab == s * slab + slab)
            by (nonlinear_arith)
            requires
                s + 1 <= slot,
                slab >= 0,
        ;
        let at = stack_place(slab, r, s, c, i);
        assert(after.words@[at] == before.words@[at]);
    }
}

/// The blocks `p0 .. p0 + n` of the columns that a sweep covers are in the
/// first `n` slots.
pub open spec fn stack_holds<E: Tabulated, Bd: Bound, C: Enumerable<E, Bd>, L: Lane<E>>(
    tile: Tile<'_, E, Bd, C>,
    words: Seq<L>,
    slab: int,
    index: Option<Seq<usize>>,
    col0: int,
    cols: int,
    p0: int,
    n: int,
) -> bool {
    forall|s: int, j: int|
        #![trigger slot_holds::<E, Bd, C, L>(tile, words, slab, s, col0 + j, p0 + s)]
        0 <= s < n && 0 <= j < cols && present(index, j) ==> slot_holds::<E, Bd, C, L>(
            tile,
            words,
            slab,
            s,
            col0 + j,
            p0 + s,
        )
}

/// Builds blocks `p0 .. p0 + depth` into the first `depth` slots.
fn build_stack<E: Tabulated, Bd: Bound, C: Enumerable<E, Bd>, L: TableLane<E>, Lg: Ledger>(
    tile: &Tile<'_, E, Bd, C>,
    sweep: &Sweep<'_, E, Bd, C>,
    spec: &TableSpec,
    table: &mut Table<'_, L>,
    acts: &mut [E],
    entries: &mut Option<EntrySet<'_>>,
    col0: usize,
    cols: usize,
    p0: usize,
    depth: usize,
    addressed: usize,
    ledger: &mut Lg,
    Ghost(before_tally): Ghost<Tally>,
    Ghost(begun): Ghost<Lg>,
)
    requires
        agree(*tile, *sweep, *old(table)),
        spec.sequence == Sequence::SignMask ==> Bd::bound() <= 1 && E::declared_scale(),
        col0 + cols <= tile.w.rows,
        p0 + depth <= tile.blocks(),
        depth <= old(table).depth,
        tile.block() * tile.rows <= old(acts)@.len(),
        sweep.index is Some ==> sweep.index->0@.len() >= cols,
        addressed == present_count(seq_of(sweep.index), cols as int),
        set_ready(*old(entries)),
        *old(ledger) == begun.charged(
            builds_tally::<E, Bd, C>(
*spec,
sweep.codes@,
sweep.codes_per_row as int,
sweep.rows as int,
seq_of(sweep.index),
col0 as int,
cols as int,
                set_room(*old(entries)),
                p0 as int,
            ).plus(before_tally),
        ),
    ensures
        agree(*tile, *sweep, *final(table)),
        final(table).same_geometry(*old(table)),
        final(final(table).words)@ == final(old(table).words)@,
        old(table).blank_padding() ==> final(table).blank_padding(),
        final(acts)@.len() == old(acts)@.len(),
        set_restored(*final(entries), *old(entries)),
        stack_holds::<E, Bd, C, L>(
            *tile,
            final(table).words@,
            old(table).slab_len(),
            seq_of(sweep.index),
            col0 as int,
            cols as int,
            p0 as int,
            depth as int,
        ),
        *final(ledger) == begun.charged(
            builds_tally::<E, Bd, C>(
*spec,
sweep.codes@,
sweep.codes_per_row as int,
sweep.rows as int,
seq_of(sweep.index),
col0 as int,
cols as int,
                set_room(*old(entries)),
                p0 + depth,
            ).plus(before_tally),
        ),
{
    let ghost start = *table;
    let ghost slab = table.slab_len();
    let ghost room = set_room(*entries);
    let mut slot: usize = 0;
    while slot < depth
        invariant
            slot <= depth,
            start == *old(table),
            start.wf(),
            agree(*tile, *sweep, *table),
            table.same_geometry(start),
            final(table.words)@ == final(old(table).words)@,
            start.blank_padding() ==> table.blank_padding(),
            slab == start.slab_len(),
            spec.sequence == Sequence::SignMask ==> Bd::bound() <= 1 && E::declared_scale(),
            col0 + cols <= tile.w.rows,
            p0 + depth <= tile.blocks(),
            depth <= start.depth,
            acts@.len() == old(acts)@.len(),
            tile.block() * tile.rows <= acts@.len(),
            sweep.index is Some ==> sweep.index->0@.len() >= cols,
            addressed == present_count(seq_of(sweep.index), cols as int),
            set_ready(*entries),
            set_restored(*entries, *old(entries)),
            room == set_room(*old(entries)),
            room == set_room(*entries),
            stack_holds::<E, Bd, C, L>(
                *tile,
                table.words@,
                slab,
                seq_of(sweep.index),
                col0 as int,
                cols as int,
                p0 as int,
                slot as int,
            ),
            *ledger == begun.charged(
                builds_tally::<E, Bd, C>(
*spec,
sweep.codes@,
sweep.codes_per_row as int,
sweep.rows as int,
seq_of(sweep.index),
col0 as int,
cols as int, room, p0 + slot).plus(before_tally),
            ),
        decreases depth - slot,
    {
        let p: usize = p0 + slot;
        let codes: BlockCodes<'_, E, Bd, C> = BlockCodes {
            codes: sweep.codes,
            codes_per_row: sweep.codes_per_row,
            col0,
            cols,
            p,
            collapsed: sweep.index,
        };
        let ghost before = *table;
        let ghost charged = *ledger;
        proof {
            lemma_codes_at(*tile, *sweep, *table, codes);
        }
        tile.load(acts, p);
        build_source_block(
            table,
            spec,
            tile.book,
            acts,
            slot,
            codes,
            addressed,
            entries,
            ledger,
        );
        proof {
            let live = before.live();
            assert(live <= slab) by (nonlinear_arith)
                requires
                    live == before.code_space * before.rows,
                    slab == before.codes * before.rows,
                    before.code_space <= before.codes,
            ;
            if start.blank_padding() {
                table.lemma_padding_kept(before, slot as int, 0, live);
            }
            assert forall|s: int, j: int|
                #![trigger slot_holds::<E, Bd, C, L>(*tile, table.words@, slab, s, col0 + j, p0 + s)]
                0 <= s < slot + 1 && 0 <= j < cols && present(seq_of(sweep.index), j) implies
                slot_holds::<E, Bd, C, L>(*tile, table.words@, slab, s, col0 + j, p0 + s) by {
                if s < slot {
                    assert(slot_holds::<E, Bd, C, L>(
                        *tile,
                        before.words@,
                        slab,
                        s,
                        col0 + j,
                        p0 + s,
                    ));
                    tile.w.lemma_code(col0 + j, p0 + s);
                    tile.w.codec.names(tile.w.code(col0 + j, p0 + s), 0);
                    lemma_slot_kept::<E, Bd, C, L>(
                        *tile,
                        *table,
                        before,
                        s,
                        slot as int,
                        col0 + j,
                        p0 + s,
                    );
                } else {
                    assert(codes.place(j) as int == tile.place_at(col0 + j, p as int));
                    lemma_slot_built::<E, Bd, C, L>(
                        *tile,
                        *table,
                        *spec,
                        acts@,
                        slot as int,
                        col0 + j,
                        p as int,
                    );
                }
            }
            let t = build_tally(
                *spec,
                built_entries::<E, Bd, C>(codes.addressed(cols as int), room),
                C::block() as int,
                sweep.rows as int,
            );
            let b = builds_tally::<E, Bd, C>(
*spec,
sweep.codes@,
sweep.codes_per_row as int,
sweep.rows as int,
seq_of(sweep.index),
col0 as int,
cols as int, room, p as int);
            begun.charges_compose(b.plus(before_tally), t);
            assert(builds_tally::<E, Bd, C>(
*spec,
sweep.codes@,
sweep.codes_per_row as int,
sweep.rows as int,
seq_of(sweep.index),
col0 as int,
cols as int, room, p + 1) == b.plus(t));
            assert(b.plus(before_tally).plus(t) == b.plus(t).plus(before_tally));
        }
        slot = slot + 1;
    }
}

/// Blanks the first `count` lanes.
pub fn blank_lanes<L: LaneWord>(lanes: &mut [L], count: usize)
    requires
        count <= old(lanes)@.len(),
    ensures
        final(lanes)@.len() == old(lanes)@.len(),
        forall|x: int| 0 <= x < count ==> #[trigger] final(lanes)@[x] == L::blank(),
{
    let mut x: usize = 0;
    while x < count
        invariant
            x <= count <= lanes@.len() == old(lanes)@.len(),
            forall|y: int| 0 <= y < x ==> #[trigger] lanes@[y] == L::blank(),
        decreases count - x,
    {
        lanes[x] = L::zero();
        x = x + 1;
    }
}

/// Blank lanes hold the empty sum.
proof fn lemma_blank_holds<E: Tabulated, Bd: Bound, C: Enumerable<E, Bd>, L: Lane<E>>(
    tile: Tile<'_, E, Bd, C>,
    lanes: Seq<L>,
    cols: int,
    j: int,
    col: int,
    p: int,
)
    requires
        tile.block() > 0,
        tile.rows > 0,
        0 <= p,
        0 <= j < cols,
        forall|x: int| 0 <= x < cols * tile.rows ==> #[trigger] lanes[x] == L::blank(),
    ensures
        lanes_hold::<E, Bd, C, L>(tile, lanes, j, col, p, p),
{
    L::laws();
    assert forall|i: int| 0 <= i < tile.rows implies cong(
        (#[trigger] lanes[j * tile.rows + i]).word(),
        tile.run(i, col, p, p),
        L::extent(),
    ) by {
        lemma_cell(cols, tile.rows as int, j, i);
        tile.lemma_run_step(i, col, p, p);
        lemma_cong_refl(0, L::extent());
    }
}

/// Placing the lanes of a column moves its sum into its totals.
proof fn lemma_column_placed<E: Tabulated, Bd: Bound, C: Enumerable<E, Bd>, L: TableLane<E>>(
    tile: Tile<'_, E, Bd, C>,
    lanes: Seq<L>,
    before: Seq<E::Acc>,
    after: Seq<E::Acc>,
    onto: bool,
    cols: int,
    j: int,
    col: int,
    lo: int,
    hi: int,
)
    requires
        tile.wf(),
        0 <= j < cols,
        0 <= col < tile.w.rows,
        0 <= lo <= hi <= tile.blocks(),
        lanes_hold::<E, Bd, C, L>(tile, lanes, j, col, lo, hi),
        onto ==> totals_hold::<E, Bd, C, L>(tile, before, j, col, lo),
        !onto ==> lo == 0,
        forall|i: int|
            0 <= i < tile.rows ==> L::holds(#[trigger] tile.run(i, col, lo, hi)),
        forall|x: int, v: int|
            #![trigger after[x], L::holds(v)]
            0 <= x < cols * tile.rows && cong(lanes[x].word(), v, L::extent()) && L::holds(v)
                ==> cong(
                after[x].value(),
                (if onto {
                    before[x].value()
                } else {
                    0
                }) + v * E::weight(tile.scale.grade()),
                L::precision(),
            ),
    ensures
        totals_hold::<E, Bd, C, L>(tile, after, j, col, hi),
{
    L::laws();
    let (m, w) = (L::precision(), E::weight(tile.scale.grade()));
    assert forall|i: int| 0 <= i < tile.rows implies cong(
        (#[trigger] after[j * tile.rows + i]).value(),
        tile.run(i, col, 0, hi) * w,
        m,
    ) by {
        let x = j * tile.rows + i;
        lemma_cell(cols, tile.rows as int, j, i);
        let v = tile.run(i, col, lo, hi);
        assert(cong(lanes[x].word(), v, L::extent()));
        assert(L::holds(v));
        let prior = if onto {
            before[x].value()
        } else {
            0
        };
        assert(cong(after[x].value(), prior + v * w, m));
        let done = tile.run(i, col, 0, lo) * w;
        if onto {
            assert(cong(before[x].value(), done, m));
        } else {
            tile.lemma_run_step(i, col, 0, 0);
            assert(0 * w == 0);
            lemma_cong_refl(0, m);
        }
        lemma_cong_refl(v * w, m);
        lemma_cong_add(prior, done, v * w, v * w, m);
        lemma_cong_trans(after[x].value(), prior + v * w, done + v * w, m);
        tile.lemma_run_split(i, col, 0, lo, hi);
        assert((tile.run(i, col, 0, lo) + v) * w == done + v * w) by (nonlinear_arith)
            requires
                done == tile.run(i, col, 0, lo) * w,
        ;
    }
}

/// A column that was swept over `depth` blocks has its lanes moved on by them,
/// where it is the first of its kind.
proof fn lemma_column_moved<E: Tabulated, Bd: Bound, C: Enumerable<E, Bd>, L: Lane<E>>(
    tile: Tile<'_, E, Bd, C>,
    sweep: Sweep<'_, E, Bd, C>,
    table: Table<'_, L>,
    before: Seq<L>,
    after: Seq<L>,
    col0: int,
    cols: int,
    j: int,
    q0: int,
    p0: int,
    depth: int,
)
    requires
        agree(tile, sweep, table),
        0 <= j < cols,
        0 <= col0,
        col0 + cols <= tile.w.rows,
        0 <= q0 <= p0,
        0 <= depth,
        p0 + depth <= tile.blocks(),
        present(seq_of(sweep.index), j),
        lanes_hold::<E, Bd, C, L>(tile, before, j, col0 + j, q0, p0),
        stack_holds::<E, Bd, C, L>(
            tile,
            table.words@,
            table.slab_len(),
            seq_of(sweep.index),
            col0,
            cols,
            p0,
            depth,
        ),
        sweep.column_swept(before, after, table.words@, col0, j, p0, depth),
    ensures
        lanes_hold::<E, Bd, C, L>(tile, after, j, col0 + j, q0, p0 + depth),
{
    L::laws();
    let (m, r, slab) = (L::extent(), tile.rows as int, table.slab_len());
    let entry = sweep.entries(col0 + j, p0);
    let col = col0 + j;
    assert forall|s: int| 0 <= s < depth implies #[trigger] entry(s) == tile.place_at(
        col,
        p0 + s,
    ) by {
        assert(col * sweep.codes_per_row + p0 + s == col * tile.w.per_row() + (p0 + s));
    }
    assert forall|s: int| 0 <= s < depth implies #[trigger] slot_holds::<E, Bd, C, L>(
        tile,
        table.words@,
        slab,
        s,
        col,
        p0 + s,
    ) by {
        assert(slot_holds::<E, Bd, C, L>(tile, table.words@, slab, s, col0 + j, p0 + s));
    }
    assert forall|i: int| 0 <= i < r implies cong(
        (#[trigger] after[j * r + i]).word(),
        tile.run(i, col, q0, p0 + depth),
        m,
    ) by {
        let words = sum(column_words::<E, L>(table.words@, slab, r, entry, i), 0, depth);
        lemma_words_sum::<E, Bd, C, L>(tile, table.words@, slab, col, p0, depth, entry, i);
        assert(column_gathered::<E, L>(
            before,
            after,
            j * r,
            table.words@,
            slab,
            r,
            entry,
            0,
            depth,
        ));
        assert(cong(after[j * r + i].word(), before[j * r + i].word() + words, m));
        assert(cong(before[j * r + i].word(), tile.run(i, col, q0, p0), m));
        lemma_cong_add(
            before[j * r + i].word(),
            tile.run(i, col, q0, p0),
            words,
            tile.run(i, col, p0, p0 + depth),
            m,
        );
        tile.lemma_run_split(i, col, q0, p0, p0 + depth);
        lemma_cong_trans(
            after[j * r + i].word(),
            before[j * r + i].word() + words,
            tile.run(i, col, q0, p0 + depth),
            m,
        );
    }
}

/// Places the lanes of a block of columns.
fn place_columns<E: Tabulated, Bd: Bound, C: Enumerable<E, Bd>, L: TableLane<E>>(
    tile: &Tile<'_, E, Bd, C>,
    index: Option<&[usize]>,
    carried: &mut [L],
    acc: &mut [E::Acc],
    col0: usize,
    cols: usize,
    placed: bool,
    Ghost(lo): Ghost<int>,
    Ghost(hi): Ghost<int>,
)
    requires
        tile.wf(),
        col0 + cols <= tile.w.rows,
        cols * tile.rows <= old(carried)@.len(),
        cols * tile.rows <= old(acc)@.len(),
        0 <= lo <= hi <= tile.blocks(),
        !placed ==> lo == 0,
        forall|j: int|
            0 <= j < cols && #[trigger] present(seq_of(index), j) ==> {
                &&& lanes_hold::<E, Bd, C, L>(*tile, old(carried)@, j, col0 + j, lo, hi)
                &&& placed ==> totals_hold::<E, Bd, C, L>(*tile, old(acc)@, j, col0 + j, lo)
                &&& forall|i: int|
                    0 <= i < tile.rows ==> L::holds(#[trigger] tile.run(i, col0 + j, lo, hi))
            },
    ensures
        final(carried)@.len() == old(carried)@.len(),
        final(acc)@.len() == old(acc)@.len(),
        forall|j: int|
            0 <= j < cols && #[trigger] present(seq_of(index), j) ==> {
                &&& lanes_hold::<E, Bd, C, L>(*tile, final(carried)@, j, col0 + j, hi, hi)
                &&& totals_hold::<E, Bd, C, L>(*tile, final(acc)@, j, col0 + j, hi)
            },
{
    let ghost (lanes0, acc0) = (carried@, acc@);
    proof {
        assert(carried.len() == carried@.len());
    }
    assert(0 <= cols * tile.rows) by (nonlinear_arith);
    place::<E, L>(carried, acc, cols * tile.rows, placed, tile.scale.exponent());
    proof {
        assert forall|j: int| 0 <= j < cols && #[trigger] present(seq_of(index), j) implies {
            &&& lanes_hold::<E, Bd, C, L>(*tile, carried@, j, col0 + j, hi, hi)
            &&& totals_hold::<E, Bd, C, L>(*tile, acc@, j, col0 + j, hi)
        } by {
            lemma_blank_holds::<E, Bd, C, L>(*tile, carried@, cols as int, j, col0 + j, hi);
            lemma_column_placed::<E, Bd, C, L>(
                *tile,
                lanes0,
                acc0,
                acc@,
                placed,
                cols as int,
                j,
                col0 + j,
                lo,
                hi,
            );
        }
    }
}

/// The exact sums of a block of columns, in chunks of `depth` blocks, placed
/// whenever a lane would take more than `run_blocks`.
pub fn accumulate_runs<
    E: Tabulated,
    Bd: Bound,
    C: Enumerable<E, Bd>,
    L: TableLane<E>,
    Lg: Ledger,
>(
    tile: &Tile<'_, E, Bd, C>,
    sweep: &Sweep<'_, E, Bd, C>,
    spec: &TableSpec,
    table: &mut Table<'_, L>,
    acts: &mut [E],
    carried: &mut [L],
    acc: &mut [E::Acc],
    entries: &mut Option<EntrySet<'_>>,
    col0: usize,
    cols: usize,
    group: usize,
    plan_depth: usize,
    run_blocks: usize,
    addressed: usize,
    ledger: &mut Lg,
)
    requires
        agree(*tile, *sweep, *old(table)),
        spec.sequence == Sequence::SignMask ==> Bd::bound() <= 1 && E::declared_scale(),
        col0 + cols <= tile.w.rows,
        0 < plan_depth <= old(table).depth,
        plan_depth <= run_blocks,
        E::run_of(L::cap(), Bd::bound() as int, tile.scale) matches Some(run) ==> run_blocks
            * tile.block() <= run,
        tile.block() * tile.rows <= old(acts)@.len(),
        cols * tile.rows <= old(carried)@.len(),
        cols * tile.rows <= old(acc)@.len(),
        sweep.index is Some ==> sweep.index->0@.len() >= cols,
        addressed == present_count(seq_of(sweep.index), cols as int),
        set_ready(*old(entries)),
    ensures
        agree(*tile, *sweep, *final(table)),
        final(table).same_geometry(*old(table)),
        final(final(table).words)@ == final(old(table).words)@,
        old(table).blank_padding() ==> final(table).blank_padding(),
        final(acts)@.len() == old(acts)@.len(),
        final(carried)@.len() == old(carried)@.len(),
        final(acc)@.len() == old(acc)@.len(),
        set_restored(*final(entries), *old(entries)),
        forall|j: int|
            0 <= j < cols && #[trigger] present(seq_of(sweep.index), j)
                ==> totals_hold::<E, Bd, C, L>(
                *tile,
                final(acc)@,
                j,
                col0 + j,
                tile.blocks(),
            ),
        *final(ledger) == old(ledger).charged(
            columns_tally::<E, Bd, C>(
*spec,
sweep.codes@,
sweep.codes_per_row as int,
sweep.rows as int,
seq_of(sweep.index),
col0 as int,
cols as int,
                set_room(*old(entries)),
                tile.blocks(),
            ),
        ),
{
    let blocks: usize = tile.w.codes_per_row();
    let ghost start = *table;
    let ghost begun = *ledger;
    let ghost room = set_room(*entries);
    let ghost n = present_count(seq_of(sweep.index), cols as int) as int;
    let ghost r = tile.rows as int;
    proof {
        assert(carried.len() == carried@.len());
        assert(table.words.len() == table.words@.len());
        assert(0 <= cols * tile.rows) by (nonlinear_arith);
        begun.charges_nothing();
        assert(n * 0 * r == 0) by (nonlinear_arith);
        assert(columns_tally::<E, Bd, C>(
*spec,
sweep.codes@,
sweep.codes_per_row as int,
sweep.rows as int,
seq_of(sweep.index),
col0 as int,
cols as int, room, 0) == Tally::none());
    }
    blank_lanes(carried, cols * tile.rows);
    let mut placed: bool = false;
    let mut p0: usize = 0;
    let mut in_run: usize = 0;
    proof {
        assert forall|j: int| 0 <= j < cols && #[trigger] present(seq_of(sweep.index), j) implies
            lanes_hold::<E, Bd, C, L>(*tile, carried@, j, col0 + j, 0, 0) by {
            lemma_blank_holds::<E, Bd, C, L>(*tile, carried@, cols as int, j, col0 + j, 0);
        }
    }
    while p0 < blocks
        invariant
            blocks == tile.blocks(),
            start == *old(table),
            begun == *old(ledger),
            agree(*tile, *sweep, *table),
            table.same_geometry(start),
            final(table.words)@ == final(old(table).words)@,
            start.blank_padding() ==> table.blank_padding(),
            spec.sequence == Sequence::SignMask ==> Bd::bound() <= 1 && E::declared_scale(),
            col0 + cols <= tile.w.rows,
            0 < plan_depth <= start.depth,
            plan_depth <= run_blocks,
            E::run_of(L::cap(), Bd::bound() as int, tile.scale) matches Some(run) ==> run_blocks
                * tile.block() <= run,
            acts@.len() == old(acts)@.len(),
            carried@.len() == old(carried)@.len(),
            acc@.len() == old(acc)@.len(),
            tile.block() * tile.rows <= acts@.len(),
            cols * tile.rows <= carried@.len(),
            cols * tile.rows <= acc@.len(),
            sweep.index is Some ==> sweep.index->0@.len() >= cols,
            addressed == present_count(seq_of(sweep.index), cols as int),
            n == addressed,
            r == tile.rows,
            set_ready(*entries),
            set_restored(*entries, *old(entries)),
            room == set_room(*old(entries)),
            room == set_room(*entries),
            p0 <= blocks,
            in_run <= p0,
            in_run <= run_blocks,
            !placed ==> in_run == p0,
            forall|j: int|
                0 <= j < cols && #[trigger] present(seq_of(sweep.index), j) ==> {
                    &&& lanes_hold::<E, Bd, C, L>(
                        *tile,
                        carried@,
                        j,
                        col0 + j,
                        p0 - in_run,
                        p0 as int,
                    )
                    &&& placed ==> totals_hold::<E, Bd, C, L>(
                        *tile,
                        acc@,
                        j,
                        col0 + j,
                        p0 - in_run,
                    )
                },
            *ledger == begun.charged(
                columns_tally::<E, Bd, C>(
*spec,
sweep.codes@,
sweep.codes_per_row as int,
sweep.rows as int,
seq_of(sweep.index),
col0 as int,
cols as int, room, p0 as int),
            ),
        decreases blocks - p0,
    {
        let depth: usize = min(plan_depth, blocks - p0);
        if run_requires_place(in_run, depth, run_blocks) {
            proof {
                lemma_runs_hold::<E, Bd, C, L>(
                    *tile,
                    col0 as int,
                    cols as int,
                    p0 - in_run,
                    p0 as int,
                    run_blocks as int,
                );
            }
            place_columns(
                tile,
                sweep.index,
                carried,
                acc,
                col0,
                cols,
                placed,
                Ghost(p0 - in_run),
                Ghost(p0 as int),
            );
            placed = true;
            in_run = 0;
        }
        let ghost gathered = Tally::gathering((n * p0 * r) as nat);
        build_stack(
            tile,
            sweep,
            spec,
            table,
            acts,
            entries,
            col0,
            cols,
            p0,
            depth,
            addressed,
            ledger,
            Ghost(gathered),
            Ghost(begun),
        );
        let ghost before = carried@;
        proof {
            lemma_covers(*tile, *sweep, *table, col0 as int, cols as int, p0 as int, depth as int);
        }
        let computed: usize = sweep.sweep_group(
            group,
            table.stack(),
            carried,
            col0,
            cols,
            p0,
            depth,
        );
        enter_gathered(ledger, computed, depth, tile.rows);
        proof {
            let q0 = p0 - in_run;
            assert forall|j: int| 0 <= j < cols && #[trigger] present(seq_of(sweep.index), j) implies {
                &&& lanes_hold::<E, Bd, C, L>(*tile, carried@, j, col0 + j, q0, p0 + depth)
                &&& placed ==> totals_hold::<E, Bd, C, L>(*tile, acc@, j, col0 + j, q0)
            } by {
                assert(sweep.column_swept(
                    before,
                    carried@,
                    table.words@,
                    col0 as int,
                    j,
                    p0 as int,
                    depth as int,
                ));
                lemma_column_moved::<E, Bd, C, L>(
                    *tile,
                    *sweep,
                    *table,
                    before,
                    carried@,
                    col0 as int,
                    cols as int,
                    j,
                    q0,
                    p0 as int,
                    depth as int,
                );
            }
            let b = builds_tally::<E, Bd, C>(
*spec,
sweep.codes@,
sweep.codes_per_row as int,
sweep.rows as int,
seq_of(sweep.index),
col0 as int,
cols as int, room, p0 + depth);
            let g = Tally::gathering((n * depth * r) as nat);
            begun.charges_compose(b.plus(gathered), g);
            lemma_gathers(n, p0 as int, depth as int, r);
            assert(b.plus(gathered).plus(g) == columns_tally::<E, Bd, C>(
*spec,
sweep.codes@,
sweep.codes_per_row as int,
sweep.rows as int,
seq_of(sweep.index),
col0 as int,
cols as int,
                room,
                p0 + depth,
            ));
        }
        p0 = p0 + depth;
        in_run = in_run + depth;
    }
    proof {
        lemma_runs_hold::<E, Bd, C, L>(
            *tile,
            col0 as int,
            cols as int,
            p0 - in_run,
            p0 as int,
            run_blocks as int,
        );
    }
    place_columns(
        tile,
        sweep.index,
        carried,
        acc,
        col0,
        cols,
        placed,
        Ghost(p0 - in_run),
        Ghost(p0 as int),
    );
}

/// Entries gathered over two stretches of blocks.
proof fn lemma_gathers(n: int, p: int, depth: int, r: int)
    requires
        0 <= n,
        0 <= p,
        0 <= depth,
        0 <= r,
    ensures
        n * p * r + n * depth * r == n * (p + depth) * r,
        0 <= n * p * r,
        0 <= n * depth * r,
{
    assert(n * p * r + n * depth * r == n * (p + depth) * r) by (nonlinear_arith);
    assert(0 <= n * p) by (nonlinear_arith)
        requires
            0 <= n,
            0 <= p,
    ;
    assert(0 <= n * depth) by (nonlinear_arith)
        requires
            0 <= n,
            0 <= depth,
    ;
    assert(0 <= n * p * r && 0 <= n * depth * r) by (nonlinear_arith)
        requires
            0 <= n * p,
            0 <= n * depth,
            0 <= r,
    ;
}

/// A run of no more blocks than a lane takes is carried over.
proof fn lemma_runs_hold<E: Tabulated, Bd: Bound, C: Enumerable<E, Bd>, L: TableLane<E>>(
    tile: Tile<'_, E, Bd, C>,
    col0: int,
    cols: int,
    lo: int,
    hi: int,
    run_blocks: int,
)
    requires
        tile.wf(),
        0 <= col0,
        col0 + cols <= tile.w.rows,
        0 <= lo <= hi <= tile.blocks(),
        hi - lo <= run_blocks,
        E::run_of(L::cap(), Bd::bound() as int, tile.scale) matches Some(run) ==> run_blocks
            * tile.block() <= run,
    ensures
        forall|j: int, i: int|
            0 <= j < cols && 0 <= i < tile.rows ==> L::holds(
                #[trigger] tile.run(i, col0 + j, lo, hi),
            ),
{
    let b = tile.block();
    assert(0 <= lo * b && lo * b <= hi * b && (hi - lo) * b == hi * b - lo * b && (hi - lo) * b
        <= run_blocks * b && hi * b <= tile.blocks() * b) by (nonlinear_arith)
        requires
            0 <= lo <= hi,
            hi <= tile.blocks(),
            hi - lo <= run_blocks,
            b > 0,
    ;
    vstd::arithmetic::div_mod::lemma_fundamental_div_mod(tile.w.cols as int, b);
    assert(b * tile.blocks() == tile.blocks() * b) by (nonlinear_arith);
    assert forall|j: int, i: int| 0 <= j < cols && 0 <= i < tile.rows implies L::holds(
        #[trigger] tile.run(i, col0 + j, lo, hi),
    ) by {
        tile.lemma_run_holds::<L>(i, col0 + j, lo * b, hi * b);
    }
}

/// The columns and blocks of a pass are there to be swept.
pub proof fn lemma_covers<E: Tabulated, Bd: Bound, C: Enumerable<E, Bd>, L: LaneWord>(
    tile: Tile<'_, E, Bd, C>,
    sweep: Sweep<'_, E, Bd, C>,
    table: Table<'_, L>,
    col0: int,
    cols: int,
    p0: int,
    depth: int,
)
    requires
        agree(tile, sweep, table),
        0 <= col0,
        0 <= cols,
        col0 + cols <= tile.w.rows,
        0 <= p0,
        0 <= depth <= table.depth,
        p0 + depth <= tile.blocks(),
        sweep.index is Some ==> sweep.index->0@.len() >= cols,
    ensures
        sweep.covers(col0, cols, p0, depth),
        depth * sweep.slab <= table.held().len(),
{
    let cpr = sweep.codes_per_row as int;
    assert((col0 + cols) * cpr <= tile.w.rows * cpr) by (nonlinear_arith)
        requires
            col0 + cols <= tile.w.rows,
            0 <= cpr,
    ;
    let slab = table.slab_len();
    assert(depth * slab <= slab * table.depth) by (nonlinear_arith)
        requires
            0 <= depth <= table.depth,
            slab >= 0,
    ;
}

} // verus!
