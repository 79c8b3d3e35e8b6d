//! One product in one lane: selection, the index words, the graded book, and
//! the walk.
use crate::arith::{ceil_div, div_ceil, lemma_ceil_pow2, sat, sat_mul};
use crate::blocking;
use crate::book::{
    addressed_lane_scale, addressed_met, decode_book, decoded_count, list_of, panel_cells,
};
use crate::census::{Ledger, Tally};
use crate::codec::{CodedMatrix, Enumerable};
use crate::columns::distinct_columns;
use crate::dictionary::{firsts_known, is_first};
use crate::element::{Alphabet, Bound, Element};
use crate::entries::EntrySet;
use crate::epilogue::{Epilogue, Output};
use crate::family::{panel_elements, Tabulated};
use crate::lane::{capacity_of, Lane};
use crate::mapping::{
    columns_mapped, columns_of, lemma_map_sound, lemma_mapped, lemma_named, lemma_repeats,
    list_room, named_entries,
};
use crate::plan::{charge_fits, is_rung, is_selected, is_shared, min, too_narrow, Plan};
use crate::routes::{decline, decline_tally};
use crate::rows::{faithful, map_of};
use crate::scale::LaneScale;
use crate::scratch::Scratch;
use crate::selection::{admits, admitted};
use crate::sequence::{TableLane, TableSpec};
use crate::sizing::{column_group, fits, group_of, slab_of, words_of, Shape, Steps};
use crate::sources::{set_ready, set_room};
use crate::tabulate::{cached_rows, projection_tally, tabulate, tiles_work, Route};
use crate::triple::{GemmOptions, TabulatedTriple};
use crate::view::MatView;
use crate::workspace::{column_workspace, ColumnMap};
use vstd::prelude::*;

verus! {

/// Products that one lane takes before the data has been looked at.
pub open spec fn probed<E: Tabulated, L: Lane<E>>(bound: int) -> Option<usize> {
    if E::declared_scale() {
        capacity_of(L::cap(), bound)
    } else {
        None
    }
}

/// The pass that `exact_offer` accumulators and `words` narrow words get.
pub open spec fn planned<E: Tabulated, L: Lane<E>>(
    plan: Option<Plan>,
    space: int,
    shape: Shape,
    block: int,
    bound: int,
    exact_offer: int,
    words: int,
) -> bool {
    let width = L::width() as int;
    if E::lane_exact() {
        is_shared(
            plan,
            space,
            shape,
            width,
            exact_offer,
            E::acc_width() as int / width,
            block,
            probed::<E, L>(bound),
        )
    } else {
        is_selected(
            plan,
            space,
            shape,
            width,
            exact_offer,
            sat(words * 8 / width) as int,
            block,
            probed::<E, L>(bound),
        )
    }
}

/// The tables and the sums of a pass fit what is on offer.
pub open spec fn pass_fits<E: Tabulated, L: Lane<E>>(
    plan: Plan,
    space: int,
    exact_offer: int,
    words: int,
) -> bool {
    let (rows, cols, depth) = (plan.rows as int, plan.cols as int, plan.depth as int);
    let per_word = E::acc_width() as int / L::width() as int;
    &&& slab_of(space) > 0
    &&& is_rung(rows)
    &&& cols > 0
    &&& depth > 0
    &&& slab_of(space) * rows <= u32::MAX
    &&& E::lane_exact() ==> per_word > 0 && charge_fits(
        space,
        rows,
        cols,
        depth,
        per_word,
        exact_offer,
    )
    &&& !E::lane_exact() ==> rows * cols <= exact_offer && rows * cols + slab_of(space) * rows
        * depth <= sat(words * 8 / L::width() as int)
}

/// The table of a pass is admitted at what its sequence and the dense kernels
/// declare.
pub open spec fn table_admitted<
    E: Tabulated,
    Bd: Bound,
    C: Enumerable<E, Bd>,
    L: TableLane<E>,
    R: Route<E, L>,
>(plan: Plan, options: GemmOptions) -> bool {
    let rows = plan.rows as nat;
    let table = E::sequence_for(
        R::modular(),
        options.backend,
        options.host,
        Bd::bound(),
        C::sign_book(),
        rows,
        group_of(rows as int) as nat,
    );
    let steps = E::steps_for(
        options.backend,
        options.host,
        Bd::bound(),
        rows,
        sat(C::block() * table.lanes_per_add) as nat,
    );
    admitted(
        options.traversal,
        C::space() as int,
        C::block() as int,
        plan,
        steps,
        L::width() as int,
        table,
    )
}

/// The scale of a pass: of all activations, and of the entries that codes name
/// where they can be listed.
pub open spec fn pass_scale<E: Tabulated, Bd: Bound, C: Enumerable<E, Bd>>(
    a: MatView<'_, Alphabet<E, Bd>>,
    w: CodedMatrix<'_, E, Bd, C>,
    room: Option<int>,
) -> LaneScale {
    E::found_scale(
        panel_elements(a),
        addressed_met(w, named_entries(w, room)),
        a.cols == 1 && C::block() == 1,
        Bd::bound(),
    )
}

/// Products that one lane takes at a scale that the data has decided.
pub open spec fn decided_run<E: Tabulated, L: Lane<E>>(bound: int, scale: LaneScale) -> Option<
    usize,
> {
    if probed::<E, L>(bound) is None {
        E::run_of(L::cap(), bound, scale)
    } else {
        None
    }
}

/// The work of a pass whose table is admitted: the scale is found, the book is
/// decoded once, entry by named entry where they can be listed, activations are
/// graded where the data decides the scale, and the tiles are walked; where the
/// panel does not hold the book the pass is not taken.
pub open spec fn pass_tally<
    E: Tabulated,
    Bd: Bound,
    C: Enumerable<E, Bd>,
    L: TableLane<E>,
    R: Route<E, L>,
>(
    plan: Plan,
    map: Option<(Seq<usize>, Seq<usize>)>,
    a: MatView<'_, Alphabet<E, Bd>>,
    w: CodedMatrix<'_, E, Bd, C>,
    options: GemmOptions,
    cells: int,
    index_len: int,
) -> Tally {
    let (m, k, n) = (a.rows as int, w.cols as int, w.rows as int);
    let (space, block) = (C::space() as int, C::block() as int);
    let room = list_room(w, plan.cols as int, index_len);
    let named = named_entries(w, room);
    let scale = pass_scale(a, w, room);
    let run = decided_run::<E, L>(Bd::bound() as int, scale);
    let met = decoded_count(w, named);
    E::scale_tally(
        panel_elements(a),
        addressed_met(w, named),
        a.cols == 1 && C::block() == 1,
    ).plus(
        if !E::scales() || cells < panel_cells(space, block) {
            decline_tally::<E, Bd>(options.traversal, cells, m, k, n)
        } else {
            Tally::decoding(
                if run is Some {
                    2 * met
                } else {
                    met
                },
            ).plus(
                (if run is Some {
                    projection_tally(
                        m,
                        k,
                        n,
                        plan.cols as int,
                        cached_rows(m, k, n, plan.cols as int, cells, space, block),
                    )
                } else {
                    Tally::none()
                }).plus(
                    tiles_work(
                        R::modular(),
                        options.backend,
                        options.host,
                        run is Some && run->0 < k,
                        a,
                        w,
                        scale,
                        map,
                        plan,
                        room,
                        0,
                    ),
                ),
            )
        },
    )
}

/// `t` is the work of a pass over the columns of `w`.
pub open spec fn pass_spends<
    E: Tabulated,
    Bd: Bound,
    C: Enumerable<E, Bd>,
    L: TableLane<E>,
    R: Route<E, L>,
>(
    t: Tally,
    plan: Plan,
    a: MatView<'_, Alphabet<E, Bd>>,
    w: CodedMatrix<'_, E, Bd, C>,
    options: GemmOptions,
    cells: int,
    index_len: int,
) -> bool {
    exists|map: Option<(Seq<usize>, Seq<usize>)>| #[trigger]
        columns_mapped(map, w, plan.cols as int, index_len) && t == pass_tally::<E, Bd, C, L, R>(
            plan,
            map,
            a,
            w,
            options,
            cells,
            index_len,
        )
}

/// `t` is the work of a product in one lane.
pub open spec fn lane_spends<
    E: Tabulated,
    Bd: Bound,
    C: Enumerable<E, Bd>,
    L: TableLane<E>,
    R: Route<E, L>,
>(
    t: Tally,
    a: MatView<'_, Alphabet<E, Bd>>,
    w: CodedMatrix<'_, E, Bd, C>,
    options: GemmOptions,
    cells: int,
    room: int,
    words: int,
    index_len: int,
) -> bool {
    let shape = Shape { m: a.rows, k: w.cols, n: w.rows };
    let dense = decline_tally::<E, Bd>(
        options.traversal,
        cells,
        a.rows as int,
        w.cols as int,
        w.rows as int,
    );
    exists|plan: Option<Plan>|
        {
            &&& #[trigger] planned::<E, L>(
                plan,
                C::space() as int,
                shape,
                C::block() as int,
                Bd::bound() as int,
                room,
                words,
            )
            &&& match plan {
                None => t == dense,
                Some(plan) => if table_admitted::<E, Bd, C, L, R>(plan, options) {
                    pass_spends::<E, Bd, C, L, R>(t, plan, a, w, options, cells, index_len)
                } else {
                    t == dense
                },
            }
        }
}

/// The work of the tiles does not depend on the slabs of a pass.
proof fn lemma_work_depth<'t, E: Tabulated, Bd: Bound, C: Enumerable<E, Bd>>(
    modular: bool,
    options: GemmOptions,
    local: bool,
    a: MatView<'t, Alphabet<E, Bd>>,
    w: CodedMatrix<'t, E, Bd, C>,
    scale: LaneScale,
    map: Option<(Seq<usize>, Seq<usize>)>,
    p: Plan,
    q: Plan,
    room: Option<int>,
    row0: int,
)
    requires
        p.rows == q.rows,
        p.cols == q.cols,
    ensures
        tiles_work(
            modular,
            options.backend,
            options.host,
            local,
            a,
            w,
            scale,
            map,
            p,
            room,
            row0,
        ) == tiles_work(
            modular,
            options.backend,
            options.host,
            local,
            a,
            w,
            scale,
            map,
            q,
            room,
            row0,
        ),
    decreases a.rows - row0,
{
    if !(row0 >= a.rows || row0 < 0) {
        let rows = crate::tabulate::tile_rows(p.rows as int, a.rows - row0);
        lemma_work_depth(modular, options, local, a, w, scale, map, p, q, room, row0 + rows);
    }
}

/// The pass that the offers get.
fn plan_for<E: Tabulated, L: Lane<E>>(
    space: usize,
    shape: Shape,
    block: usize,
    bound: u128,
    exact_offer: usize,
    words: usize,
) -> (r: Option<Plan>)
    requires
        L::width() > 0,
    ensures
        planned::<E, L>(
            r,
            space as int,
            shape,
            block as int,
            bound as int,
            exact_offer as int,
            words as int,
        ),
{
    let lane_bytes: usize = L::bytes();
    let lane_capacity: Option<usize> = E::probe_capacity::<L>(bound);
    if E::lane_is_exact() {
        let per_word: usize = E::acc_bytes() / lane_bytes;
        Plan::choose_shared_exact(
            space,
            shape,
            lane_bytes,
            exact_offer,
            per_word,
            block,
            lane_capacity,
        )
    } else {
        let held: u128 = (words as u128 * 8) / lane_bytes as u128;
        let offered: usize = if held > usize::MAX as u128 {
            usize::MAX
        } else {
            held as usize
        };
        Plan::select(space, shape, lane_bytes, exact_offer, offered, block, lane_capacity)
    }
}

/// A pass whose table is admitted fits what it was planned for.
proof fn lemma_pass_fits<
    E: Tabulated,
    Bd: Bound,
    C: Enumerable<E, Bd>,
    L: TableLane<E>,
    R: Route<E, L>,
>(plan: Plan, options: GemmOptions, shape: Shape, exact_offer: int, words: int)
    requires
        words >= 0,
        planned::<E, L>(
            Some(plan),
            C::space() as int,
            shape,
            C::block() as int,
            Bd::bound() as int,
            exact_offer,
            words,
        ),
        table_admitted::<E, Bd, C, L, R>(plan, options),
    ensures
        pass_fits::<E, L>(plan, C::space() as int, exact_offer, words),
        !too_narrow(probed::<E, L>(Bd::bound() as int), C::block() as int),
{
    let slab = slab_of(C::space() as int);
    let (rows, width) = (plan.rows as int, L::width() as int);
    assert(fits(C::space() as int, rows, blocking::L1_BYTES as int, width));
    assert(slab * rows <= u32::MAX) by (nonlinear_arith)
        requires
            slab * rows * width * 2 <= 32768,
            slab > 0,
            rows > 0,
            width > 0,
    ;
}

/// What `index` words tell of the columns of `w`: the map of those that repeat,
/// the emptied set of entries, and how many entries it lists.
fn find_columns<'i, E: Tabulated, Bd: Bound, C: Enumerable<E, Bd>>(
    w: &CodedMatrix<'_, E, Bd, C>,
    index: &'i mut [usize],
    cols: usize,
) -> (r: (Option<ColumnMap<'i>>, Option<EntrySet<'i>>, Option<usize>))
    requires
        w.wf(),
        w.rows > 0,
        w.cols > 0,
        C::space() > 0,
        cols > 0,
    ensures
        columns_mapped(map_of(r.0), *w, cols as int, old(index)@.len() as int),
        set_room(r.1) == list_room(*w, cols as int, old(index)@.len() as int),
        r.1 is Some ==> forall|q: int|
            0 <= q < r.1->0.seen@.len() ==> #[trigger] r.1->0.seen@[q] == 0,
        r.2 is Some <==> named_entries(*w, set_room(r.1)) is Some,
        r.2 matches Some(count) ==> r.1 is Some && count <= r.1->0.list_len() && Some(
            r.1->0.listed(count as int),
        ) == named_entries(*w, set_room(r.1)),
{
    let n: usize = w.rows;
    let per_row: usize = w.codes_per_row();
    let ghost index_len = index@.len() as int;
    proof {
        let block = C::block() as int;
        vstd::arithmetic::div_mod::lemma_fundamental_div_mod(w.cols as int, block);
        assert(w.per_row() > 0) by (nonlinear_arith)
            requires
                w.cols == block * w.per_row(),
                w.cols > 0,
                block > 0,
        ;
    }
    let distinct: Option<usize> = distinct_columns::<E, Bd, C>(w.codes, per_row, n, index);
    let need_entries: bool = C::max_block() == 1 && !C::sign_bit_book() && C::code_space() > 1;
    match distinct {
        None => (None, None, None),
        Some(found) => {
            let ghost mark = index@.subrange(0, n as int);
            let ghost keys = columns_of(*w, per_row);
            let repeated: bool = found < n;
            proof {
                assert(firsts_known(keys, index@, n as int));
                assert forall|j: int| 0 <= j < n implies is_first(
                    keys,
                    #[trigger] mark[j] as int,
                    j,
                ) && index@[j] < n by {
                    assert(mark[j] == index@[j]);
                    assert(is_first(keys, index@[j] as int, j));
                }
                lemma_repeats(*w, per_row, index@);
                lemma_ceil_pow2((2 * n) as nat);
                assert forall|j: int| 0 <= j < n implies #[trigger] index@[j] < n by {
                    assert(is_first(keys, index@[j] as int, j));
                }
            }
            let (collapse, entries) = column_workspace(index, n, cols, repeated, need_entries);
            proof {
                if collapse is Some {
                    lemma_mapped(*w, per_row, mark, collapse->0, cols as int, index_len);
                }
            }
            match entries {
                None => (collapse, None, None),
                Some(mut set) => {
                    proof {
                        lemma_named(*w);
                    }
                    let count: Option<usize> = set.collect::<E, Bd, C>(w.codes);
                    (collapse, Some(set), count)
                },
            }
        },
    }
}

/// Lanes that the tables and the sums of a pass take.
pub open spec fn pass_words(plan: Plan, space: int) -> int {
    plan.rows * plan.cols + slab_of(space) * plan.rows * plan.depth
}

/// A pass of no more slabs than was planned has its lanes in what is on offer.
proof fn lemma_words_fit<E: Tabulated, L: TableLane<E>, R: Route<E, L>>(
    plan: Plan,
    walk: Plan,
    space: int,
    exact_offer: nat,
    words: nat,
)
    requires
        pass_fits::<E, L>(plan, space, exact_offer as int, words as int),
        exact_offer <= usize::MAX,
        walk.rows == plan.rows,
        walk.cols == plan.cols,
        0 < walk.depth <= plan.depth,
    ensures
        plan.rows * plan.cols <= exact_offer,
        pass_words(walk, space) <= usize::MAX,
        sat(walk.rows * walk.cols + words_of(space, walk.rows as int, walk.depth as int))
            == pass_words(walk, space),
        E::lane_exact() ==> {
            let taken = ceil_div(
                pass_words(walk, space),
                E::acc_width() as int / L::width() as int,
            );
            &&& 0 <= taken
            &&& plan.rows * plan.cols + taken <= exact_offer
            &&& pass_words(walk, space) <= E::lanes_in(R::modular(), words, taken as nat)
        },
        !E::lane_exact() ==> pass_words(walk, space) <= E::lanes_in(R::modular(), words, 0),
{
    let slab = slab_of(space);
    let (rows, cols) = (plan.rows as int, plan.cols as int);
    let (deep, depth) = (plan.depth as int, walk.depth as int);
    let per = E::acc_width() as int / L::width() as int;
    assert(rows * cols >= 1) by (nonlinear_arith)
        requires
            rows >= 1,
            cols >= 1,
    ;
    assert(0 <= slab * rows * depth <= slab * rows * deep) by (nonlinear_arith)
        requires
            slab > 0,
            rows > 0,
            0 < depth <= deep,
    ;
    R::offer_laws(words, 0);
    if E::lane_exact() {
        assert(words_of(space, rows, deep) == sat(slab * rows * deep));
        assert(slab * rows * deep <= usize::MAX);
        let lanes = rows * cols + slab * rows * depth;
        let full = rows * cols + slab * rows * deep;
        let taken = ceil_div(lanes, per);
        assert(taken <= ceil_div(full, per) && 0 <= taken && lanes <= taken * per)
            by (nonlinear_arith)
            requires
                0 <= lanes <= full,
                per > 0,
                taken == (lanes + per - 1) / per,
                ceil_div(full, per) == (full + per - 1) / per,
        ;
        R::offer_laws(words, taken as nat);
    }
}

/// The entries that a set lists.
fn listed<'s>(entries: &'s Option<EntrySet<'_>>, count: Option<usize>) -> (r: Option<&'s [usize]>)
    requires
        count is Some ==> entries is Some && count->0 <= entries->0.list_len(),
    ensures
        list_of(r) == (match count {
            Some(count) => Some(entries->0.listed(count as int)),
            None => None,
        }),
{
    match count {
        None => None,
        Some(count) => match entries {
            None => None,
            Some(set) => Some(set.collected(count)),
        },
    }
}

/// The product of `triple` by the tables of a pass that is admitted.
#[verifier::rlimit(60)]
fn table_pass<
    'a,
    'w,
    'c,
    E: Tabulated,
    Bd: Bound,
    C: Enumerable<E, Bd>,
    O: Output,
    Ep: Epilogue<E, O>,
    L: TableLane<E>,
    R: Route<E, L>,
    Lg: Ledger,
>(
    triple: &mut TabulatedTriple<'a, 'w, 'c, E, Bd, C, O>,
    epilogue: &Ep,
    options: GemmOptions,
    scratch: &mut Scratch<'_, E>,
    words: &mut [i64],
    index: &mut [usize],
    plan: Plan,
    ledger: &mut Lg,
)
    requires
        old(triple).wf(),
        old(triple).a.rows > 0,
        old(triple).a.cols > 0,
        old(triple).w.rows > 0,
        C::space() > 0,
        pass_fits::<E, L>(
            plan,
            C::space() as int,
            old(scratch).room(),
            old(words)@.len() as int,
        ),
        !too_narrow(probed::<E, L>(Bd::bound() as int), C::block() as int),
        faithful::<E, O>(L::precision(), options.encode),
    ensures
        final(triple).wf(),
        final(triple).is_product_of(*old(triple), *epilogue, options.encode),
        final(final(triple).c.data)@ == final(old(triple).c.data)@,
        exists|t: Tally|
            *final(ledger) == #[trigger] old(ledger).charged(t) && pass_spends::<E, Bd, C, L, R>(
                t,
                plan,
                old(triple).a,
                old(triple).w,
                options,
                old(scratch).cells(),
                old(index)@.len() as int,
            ),
{
    let space: usize = C::code_space();
    let block: usize = C::max_block();
    let ghost a = triple.a;
    let ghost w = triple.w;
    let ghost m = triple.a.rows as int;
    let ghost cells = scratch.cells();
    let ghost index_len = index@.len() as int;
    let ghost begun = *ledger;
    let exact_offer: usize = scratch.accumulators();
    let (collapse, mut entries, count) = find_columns::<E, Bd, C>(&triple.w, index, plan.cols);
    proof {
        lemma_map_sound(map_of(collapse), w, plan.cols as int, index_len);
        if C::block() == 1 {
            lemma_named(w);
        }
    }
    let addressed: Option<&[usize]> = listed(&entries, count);
    let ghost room = set_room(entries);
    let ghost found = E::scale_tally(
        panel_elements(a),
        addressed_met(w, named_entries(w, room)),
        a.cols == 1 && C::block() == 1,
    );
    let scale: LaneScale = match addressed_lane_scale::<E, Bd, C, Lg>(
        &triple.a,
        &triple.w,
        addressed,
        ledger,
    ) {
        Some(scale) => scale,
        None => {
            decline(triple, epilogue, options, scratch, ledger);
            proof {
                let dense = decline_tally::<E, Bd>(
                    options.traversal,
                    cells,
                    m,
                    w.cols as int,
                    w.rows as int,
                );
                begun.charges_compose(found, dense);
                let t = found.plus(dense);
                assert(*ledger == begun.charged(t));
                assert(columns_mapped(map_of(collapse), w, plan.cols as int, index_len));
                assert(t == pass_tally::<E, Bd, C, L, R>(
                    plan,
                    map_of(collapse),
                    a,
                    w,
                    options,
                    cells,
                    index_len,
                ));
            }
            return;
        },
    };
    let ghost scaled = *ledger;
    let observed_run: Option<usize> = E::lane_run::<L>(Bd::value(), &scale);
    let data_dependent: bool = E::probe_capacity::<L>(Bd::value()).is_none()
        && observed_run.is_some();
    let mut walk: Plan = plan;
    let mut local_envelopes: bool = false;
    proof {
        E::family_laws();
        lemma_block_within(w);
    }
    if let Some(run) = observed_run {
        local_envelopes = data_dependent && run < triple.a.cols;
        if run >= block && !local_envelopes {
            proof {
                vstd::arithmetic::div_mod::lemma_fundamental_div_mod(run as int, block as int);
                vstd::arithmetic::div_mod::lemma_div_non_zero(run as int, block as int);
            }
            walk.depth = min(run / block, plan.depth);
            proof {
                let (q, b, d) = (run as int / block as int, block as int, walk.depth as int);
                assert(d * b <= run) by (nonlinear_arith)
                    requires
                        d <= q,
                        b > 0,
                        b * q <= run,
                ;
            }
        }
    }
    proof {
        R::offer_laws(words@.len(), 0);
        lemma_words_fit::<E, L, R>(
            plan,
            walk,
            C::space() as int,
            exact_offer as nat,
            words@.len(),
        );
    }
    let want: usize = walk.lane_words(space);
    let tile: usize = walk.rows * walk.cols;
    let take: usize = if E::lane_is_exact() {
        tile + div_ceil(want, E::acc_bytes() / L::bytes())
    } else {
        tile
    };
    let panel: &mut [E] = &mut *scratch.panel;
    let totals: &mut [E::Acc] = &mut *scratch.totals;
    let addressed: Option<&[usize]> = listed(&entries, count);
    if !decode_book::<E, Bd, C, Lg>(
        &triple.w,
        panel,
        scale.base_b,
        addressed,
        data_dependent,
        ledger,
    ) {
        proof {
            scaled.charges_nothing();
        }
        decline(triple, epilogue, options, scratch, ledger);
        proof {
            let dense = decline_tally::<E, Bd>(
                options.traversal,
                cells,
                m,
                w.cols as int,
                w.rows as int,
            );
            begun.charges_compose(found, dense);
            let t = found.plus(dense);
            assert(*ledger == begun.charged(t));
            assert(columns_mapped(map_of(collapse), w, plan.cols as int, index_len));
            assert(t == pass_tally::<E, Bd, C, L, R>(
                plan,
                map_of(collapse),
                a,
                w,
                options,
                cells,
                index_len,
            ));
        }
        return;
    }
    if let Some(set) = &mut entries {
        set.release_collected();
    }
    assert(set_ready(entries));
    assert(set_room(entries) == room);
    let (taken, _) = totals.split_at_mut(take);
    let (exact, rest) = taken.split_at_mut(tile);
    let lanes: &mut [L] = match R::lanes(words, rest, want) {
        Some(lanes) => lanes,
        // The offer holds the lanes of the pass.
        None => {
            proof {
                assert(false);
            }
            return;
        },
    };
    tabulate::<E, Bd, C, O, Ep, L, R, Lg>(
        triple,
        epilogue,
        options,
        exact,
        lanes,
        panel,
        collapse,
        &mut entries,
        walk,
        scale,
        data_dependent,
        local_envelopes,
        ledger,
    );
    proof {
        let met = decoded_count(w, list_of(addressed));
        let decoding = Tally::decoding(
            if data_dependent {
                2 * met
            } else {
                met
            },
        );
        let graded = if data_dependent {
            projection_tally(
                m,
                w.cols as int,
                w.rows as int,
                plan.cols as int,
                cached_rows(
                    m,
                    w.cols as int,
                    w.rows as int,
                    plan.cols as int,
                    cells,
                    C::space() as int,
                    C::block() as int,
                ),
            )
        } else {
            Tally::none()
        };
        let work = tiles_work(
            R::modular(),
            options.backend,
            options.host,
            local_envelopes,
            a,
            w,
            scale,
            map_of(collapse),
            walk,
            room,
            0,
        );
        lemma_work_depth(
            R::modular(),
            options,
            local_envelopes,
            a,
            w,
            scale,
            map_of(collapse),
            walk,
            plan,
            room,
            0,
        );
        begun.charges_compose(found, decoding);
        begun.charges_compose(found.plus(decoding), graded.plus(work));
        let t = found.plus(decoding.plus(graded.plus(work)));
        assert(found.plus(decoding).plus(graded.plus(work)) == t);
        assert(*ledger == begun.charged(t));
        assert(columns_mapped(map_of(collapse), w, plan.cols as int, index_len));
        assert(t == pass_tally::<E, Bd, C, L, R>(
            plan,
            map_of(collapse),
            a,
            w,
            options,
            cells,
            index_len,
        ));
    }
}

/// A block of codes is no longer than a row.
proof fn lemma_block_within<E: Element, Bd: Bound, C: Enumerable<E, Bd>>(
    w: CodedMatrix<'_, E, Bd, C>,
)
    requires
        w.wf(),
        w.cols > 0,
    ensures
        C::block() <= w.cols,
{
    let block = C::block() as int;
    if block > w.cols {
        vstd::arithmetic::div_mod::lemma_small_mod(w.cols as nat, block as nat);
    }
}

/// The product of `triple` in one lane: by tables where the offers hold a pass
/// that is admitted, and else densely.
pub fn run_lane<
    'a,
    'w,
    'c,
    E: Tabulated,
    Bd: Bound,
    C: Enumerable<E, Bd>,
    O: Output,
    Ep: Epilogue<E, O>,
    L: TableLane<E>,
    R: Route<E, L>,
    Lg: Ledger,
>(
    triple: &mut TabulatedTriple<'a, 'w, 'c, E, Bd, C, O>,
    epilogue: &Ep,
    options: GemmOptions,
    scratch: &mut Scratch<'_, E>,
    words: &mut [i64],
    index: &mut [usize],
    ledger: &mut Lg,
)
    requires
        old(triple).wf(),
        old(triple).a.rows > 0,
        old(triple).a.cols > 0,
        old(triple).w.rows > 0,
        C::space() > 0,
        faithful::<E, O>(L::precision(), options.encode),
    ensures
        final(triple).wf(),
        final(triple).is_product_of(*old(triple), *epilogue, options.encode),
        final(final(triple).c.data)@ == final(old(triple).c.data)@,
        exists|t: Tally|
            *final(ledger) == #[trigger] old(ledger).charged(t) && lane_spends::<E, Bd, C, L, R>(
                t,
                old(triple).a,
                old(triple).w,
                options,
                old(scratch).cells(),
                old(scratch).room(),
                old(words)@.len() as int,
                old(index)@.len() as int,
            ),
{
    let shape: Shape = triple.shape();
    let space: usize = C::code_space();
    let block: usize = C::max_block();
    let exact_offer: usize = scratch.accumulators();
    let ghost w = triple.w;
    let ghost begun = *ledger;
    let ghost cells = scratch.cells();
    let ghost dense = decline_tally::<E, Bd>(
        options.traversal,
        cells,
        shape.m as int,
        shape.k as int,
        shape.n as int,
    );
    proof {
        R::offer_laws(words@.len(), 0);
        assert(words.len() == words@.len());
    }
    let plan: Option<Plan> = plan_for::<E, L>(
        space,
        shape,
        block,
        Bd::value(),
        exact_offer,
        words.len(),
    );
    if let Some(plan) = plan {
        let table: TableSpec = R::table_spec(
            options.backend,
            options.host,
            Bd::value(),
            C::sign_bit_book(),
            plan.rows,
            column_group(plan.rows),
        );
        let steps: Steps = E::dense_steps(
            options.backend,
            options.host,
            Bd::value(),
            plan.rows,
            sat_mul(block, table.lanes_per_add),
        );
        if admits(options.traversal, space, block, plan, steps, L::bytes(), &table) {
            proof {
                assert(table_admitted::<E, Bd, C, L, R>(plan, options));
                lemma_pass_fits::<E, Bd, C, L, R>(
                    plan,
                    options,
                    shape,
                    exact_offer as int,
                    words@.len() as int,
                );
            }
            table_pass::<E, Bd, C, O, Ep, L, R, Lg>(
                triple,
                epilogue,
                options,
                scratch,
                words,
                index,
                plan,
                ledger,
            );
            return;
        }
    }
    decline(triple, epilogue, options, scratch, ledger);
    proof {
        assert(*ledger == begun.charged(dense));
    }
}

} // verus!
