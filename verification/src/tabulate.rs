//! The tabulated product: tiles of rows over one graded book.
use crate::arith::ceil_div;
use crate::book::panel_cells;
use crate::census::{count_product2, count_product3, count_sum2, Ledger, Tally};
use crate::codec::{CodedMatrix, Enumerable};
use crate::element::{Accumulator, Alphabet, Bound};
use crate::entries::EntrySet;
use crate::epilogue::{Epilogue, Output};
use crate::family::{rows_gradable, step_within, Graded, Tabulated};
use crate::lane::{Lane, LaneWord};
use crate::plan::{is_rung, least, min, Plan};
use crate::rows::{cell_done, faithful, map_of, map_sound, row_tile, same_operands};
use crate::scale::LaneScale;
use crate::schedule::row_work;
use crate::sequence::{lemma_cell, Backend, Host, TableLane, TableSpec};
use crate::sizing::{column_group, group_of, slab_of, ROW_TILES, TALLEST_TILE};
use crate::sources::{set_ready, set_restored, set_room};
use crate::table::{padded, Table};
use crate::tile::{book_ready, rows_projected, Tile};
use crate::triple::{GemmOptions, TabulatedTriple};
use crate::view::MatView;
use crate::workspace::ColumnMap;
use vstd::arithmetic::power2::pow2;
use vstd::prelude::*;

verus! {

/// A lane of a family, with the sequences and the words that make it up.
pub trait Route<E: Tabulated, L: TableLane<E>> {
    /// The lane keeps sums modulo its extent only.
    spec fn modular() -> bool;

    /// The lane holds what its sequences declare, and preserves a total as far
    /// as the family says.
    proof fn route_laws(
        backend: Backend,
        host: Host,
        bound: nat,
        sign_book: bool,
        rows: nat,
        group: nat,
    )
        ensures
            E::sequence_for(
                Self::modular(),
                backend,
                host,
                bound,
                sign_book,
                rows,
                group,
            ).lane_cap <= L::envelope(),
            !Self::modular() ==> L::precision() == E::Acc::modulus(),
            Self::modular() ==> forall|bits: nat|
                #[trigger] E::modular(bits) ==> L::precision() % (pow2(bits) as int) == 0,
    ;

    /// Lanes are read out of whole words on offer.
    proof fn offer_laws(narrow: nat, exact: nat)
        ensures
            L::width() > 0,
            !E::lane_exact() ==> E::lanes_in(Self::modular(), narrow, exact) == (narrow
                * 8) as int / L::width() as int,
            E::lane_exact() ==> E::lanes_in(Self::modular(), narrow, exact) == exact * (
            E::acc_width() as int / L::width() as int),
    ;

    /// The table sequence of a tile.
    fn table_spec(
        backend: Backend,
        host: Host,
        bound: u128,
        sign_book: bool,
        rows: usize,
        group: usize,
    ) -> (r: TableSpec)
        ensures
            r == E::sequence_for(
                Self::modular(),
                backend,
                host,
                bound as nat,
                sign_book,
                rows as nat,
                group as nat,
            ),
    ;

    /// The first `want` lanes of what is on offer.
    fn lanes<'s>(narrow: &'s mut [i64], exact: &'s mut [E::Acc], want: usize) -> (r: Option<
        &'s mut [L],
    >)
        ensures
            r is Some <==> want <= E::lanes_in(
                Self::modular(),
                old(narrow)@.len() as nat,
                old(exact)@.len() as nat,
            ),
            r is Some ==> r->0@.len() == want,
            r is None ==> final(exact)@.len() == old(exact)@.len(),
    ;
}

/// The exact lane of a family.
pub struct Direct;

impl<E: Tabulated> Route<E, E::Lane> for Direct {
    open spec fn modular() -> bool {
        false
    }

    proof fn route_laws(
        backend: Backend,
        host: Host,
        bound: nat,
        sign_book: bool,
        rows: nat,
        group: nat,
    ) {
        E::family_laws();
        E::sequence_laws(false, backend, host, bound, sign_book, rows, group);
    }

    proof fn offer_laws(narrow: nat, exact: nat) {
        E::offer_laws(false, narrow, exact);
    }

    fn table_spec(
        backend: Backend,
        host: Host,
        bound: u128,
        sign_book: bool,
        rows: usize,
        group: usize,
    ) -> (r: TableSpec) {
        E::table_spec(backend, host, bound, sign_book, rows, group)
    }

    fn lanes<'s>(narrow: &'s mut [i64], exact: &'s mut [E::Acc], want: usize) -> (r: Option<
        &'s mut [E::Lane],
    >) {
        E::lanes(narrow, exact, want)
    }
}

/// The modular lane of a family.
pub struct Quotient;

impl<E: Tabulated> Route<E, E::ModLane> for Quotient {
    open spec fn modular() -> bool {
        true
    }

    proof fn route_laws(
        backend: Backend,
        host: Host,
        bound: nat,
        sign_book: bool,
        rows: nat,
        group: nat,
    ) {
        E::family_laws();
        E::sequence_laws(true, backend, host, bound, sign_book, rows, group);
    }

    proof fn offer_laws(narrow: nat, exact: nat) {
        E::offer_laws(true, narrow, exact);
    }

    fn table_spec(
        backend: Backend,
        host: Host,
        bound: u128,
        sign_book: bool,
        rows: usize,
        group: usize,
    ) -> (r: TableSpec) {
        let r: TableSpec = E::table_spec_modular(backend, host, bound, rows, group);
        proof {
            let _ = E::sequence_for(
                true,
                backend,
                host,
                bound as nat,
                sign_book,
                rows as nat,
                group as nat,
            );
        }
        r
    }

    fn lanes<'s>(narrow: &'s mut [i64], exact: &'s mut [E::Acc], want: usize) -> (r: Option<
        &'s mut [E::ModLane],
    >) {
        E::lanes_modular(narrow, exact, want)
    }
}

/// The tallest tile within two heights.
pub open spec fn tile_rows(plan_rows: int, left: int) -> int {
    let cap = least(plan_rows, left);
    if cap >= 16 {
        16
    } else if cap >= 8 {
        8
    } else if cap >= 4 {
        4
    } else if cap >= 2 {
        2
    } else {
        1
    }
}

/// The tallest tile within two heights.
fn tallest_tile(plan_rows: usize, left: usize) -> (r: usize)
    ensures
        r == tile_rows(plan_rows as int, left as int),
{
    let cap: usize = min(plan_rows, left);
    let mut at: usize = 0;
    while at < 5
        invariant
            at <= 5,
            cap == least(plan_rows as int, left as int),
            at >= 1 ==> cap < 16,
            at >= 2 ==> cap < 8,
            at >= 3 ==> cap < 4,
            at >= 4 ==> cap < 2,
            at >= 5 ==> cap < 1,
        decreases 5 - at,
    {
        if ROW_TILES[at] <= cap {
            return ROW_TILES[at];
        }
        at = at + 1;
    }
    1
}

/// The work of the tiles of rows from `row0` on.
pub open spec fn tiles_work<'t, E: Tabulated, Bd: Bound, C: Enumerable<E, Bd>>(
    modular: bool,
    backend: Backend,
    host: Host,
    local: bool,
    a: MatView<'t, Alphabet<E, Bd>>,
    w: CodedMatrix<'t, E, Bd, C>,
    scale: LaneScale,
    map: Option<(Seq<usize>, Seq<usize>)>,
    plan: Plan,
    room: Option<int>,
    row0: int,
) -> Tally
    decreases a.rows - row0,
{
    if row0 >= a.rows || row0 < 0 {
        Tally::none()
    } else {
        let rows = tile_rows(plan.rows as int, a.rows - row0);
        let group = group_of(rows) as nat;
        row_work(
            local,
            a,
            w,
            scale,
            row0,
            rows,
            E::sequence_for(
                modular,
                backend,
                host,
                Bd::bound(),
                C::sign_book(),
                rows as nat,
                group,
            ),
            E::sequence_for(modular, backend, host, Bd::bound(), false, rows as nat, group),
            map,
            plan.cols as int,
            room,
            ceil_div(w.rows as int, plan.cols as int),
        ).plus(
            tiles_work(
                modular,
                backend,
                host,
                local,
                a,
                w,
                scale,
                map,
                plan,
                room,
                row0 + rows,
            ),
        )
    }
}

/// The scale is one that the operands were found to have.
pub open spec fn scale_suits<E: Tabulated, Bd: Bound, C: Enumerable<E, Bd>>(
    a: MatView<'_, Alphabet<E, Bd>>,
    w: CodedMatrix<'_, E, Bd, C>,
    scale: LaneScale,
) -> bool {
    &&& rows_gradable(a, scale.base_a)
    &&& E::admissible(Bd::bound(), scale)
    &&& E::step_known(scale) ==> forall|i: int, p: int, x: int, t: int|
        #![trigger a.cell(i, p), w.codec.decoded(w.codes@[x], t)]
        0 <= i < a.rows && 0 <= p < a.cols && 0 <= x < w.codes@.len() && 0 <= t < C::block()
            ==> step_within(
            scale,
            a.cell(i, p).element(),
            w.codec.decoded(w.codes@[x], t).element(),
        )
}

/// Grades the first `rows` rows of `a` into the head of `projected`.
fn project_rows<E: Tabulated, Bd: Bound>(
    a: &MatView<'_, Alphabet<E, Bd>>,
    base: i32,
    projected: &mut [E],
    rows: usize,
)
    requires
        a.wf(),
        rows <= a.rows,
        rows * a.cols <= old(projected)@.len(),
        rows_gradable(*a, base),
    ensures
        final(projected)@.len() == old(projected)@.len(),
        rows_projected(final(projected)@, *a, rows as int, base),
{
    let k: usize = a.cols;
    let ghost ki = k as int;
    proof {
        assert(projected.len() == projected@.len());
    }
    let mut i: usize = 0;
    while i < rows
        invariant
            a.wf(),
            k == ki == a.cols,
            i <= rows <= a.rows,
            rows * ki <= projected@.len() <= usize::MAX,
            projected@.len() == old(projected)@.len(),
            rows_gradable(*a, base),
            forall|x: int, p: int|
                #![trigger projected@[x * ki + p]]
                0 <= x < i && 0 <= p < ki ==> projected@[x * ki + p] == a.cell(
                    x,
                    p,
                ).element().graded(base),
        decreases rows - i,
    {
        let mut p: usize = 0;
        while p < k
            invariant
                a.wf(),
                k == ki == a.cols,
                i < rows <= a.rows,
                p <= k,
                rows * ki <= projected@.len() <= usize::MAX,
                projected@.len() == old(projected)@.len(),
                rows_gradable(*a, base),
                forall|x: int, q: int|
                    #![trigger projected@[x * ki + q]]
                    0 <= x <= i && 0 <= q < ki && (x < i || q < p) ==> projected@[x * ki + q]
                        == a.cell(x, q).element().graded(base),
            decreases k - p,
        {
            proof {
                lemma_cell(rows as int, ki, i as int, p as int);
            }
            let ghost before = projected@;
            projected[i * k + p] = E::prescale(a.at(i, p).get(), base);
            proof {
                assert forall|x: int, q: int|
                    #![trigger projected@[x * ki + q]]
                    0 <= x <= i && 0 <= q < ki && (x < i || q < p + 1) implies projected@[x * ki
                    + q] == a.cell(x, q).element().graded(base) by {
                    lemma_cell(rows as int, ki, x, q);
                    if x * ki + q == i * ki + p {
                        crate::sequence::lemma_cell_apart(ki, x, q, i as int, p as int);
                    } else {
                        assert(projected@[x * ki + q] == before[x * ki + q]);
                    }
                }
            }
            p = p + 1;
        }
        i = i + 1;
    }
}

/// Rows of activations that are graded once for every block of columns: those
/// that the panel holds past the book and a tile.
pub open spec fn cached_rows(
    m: int,
    k: int,
    n: int,
    plan_cols: int,
    cells: int,
    space: int,
    block: int,
) -> int {
    if n > plan_cols {
        least((cells - panel_cells(space, block)) / k, m)
    } else {
        0
    }
}

/// Activations that grading looks at: each cached row once, and each other row
/// once for each block of columns.
pub open spec fn projection_tally(m: int, k: int, n: int, plan_cols: int, cached: int) -> Tally {
    Tally::decoding(
        (cached * k + (m - cached) * k * ceil_div(n, plan_cols)) as nat,
    )
}

/// The work of a tabulated product whose panel has `cells` cells: what grading
/// the activations looks at, where the data decides the scale, and the tiles.
pub open spec fn tabulated_work<'t, E: Tabulated, Bd: Bound, C: Enumerable<E, Bd>>(
    modular: bool,
    backend: Backend,
    host: Host,
    local: bool,
    projection_decodes: bool,
    a: MatView<'t, Alphabet<E, Bd>>,
    w: CodedMatrix<'t, E, Bd, C>,
    scale: LaneScale,
    map: Option<(Seq<usize>, Seq<usize>)>,
    plan: Plan,
    room: Option<int>,
    cells: int,
) -> Tally {
    let (m, k, n) = (a.rows as int, a.cols as int, w.rows as int);
    let cached = cached_rows(
        m,
        k,
        n,
        plan.cols as int,
        cells,
        C::space() as int,
        C::block() as int,
    );
    (if projection_decodes {
        projection_tally(m, k, n, plan.cols as int, cached)
    } else {
        Tally::none()
    }).plus(tiles_work(modular, backend, host, local, a, w, scale, map, plan, room, 0))
}

/// Enters what grading the activations looks at.
fn enter_projection<Lg: Ledger>(
    m: usize,
    k: usize,
    n: usize,
    plan_cols: usize,
    cached: usize,
    ledger: &mut Lg,
)
    requires
        cached <= m,
        plan_cols > 0,
    ensures
        *final(ledger) == old(ledger).charged(
            projection_tally(m as int, k as int, n as int, plan_cols as int, cached as int),
        ),
{
    let column_blocks: usize = crate::arith::div_ceil(n, plan_cols);
    let once: u64 = count_product2(cached, k);
    let again: u64 = count_product3(m - cached, k, column_blocks);
    let all: u64 = count_sum2(once, again);
    proof {
        let t = projection_tally(m as int, k as int, n as int, plan_cols as int, cached as int);
        assert(0 <= cached * k) by (nonlinear_arith);
        assert(0 <= (m - cached) * k) by (nonlinear_arith)
            requires
                cached <= m,
        ;
        assert(0 <= (m - cached) * k * column_blocks) by (nonlinear_arith)
            requires
                0 <= (m - cached) * k,
        ;
        ledger.charges_saturate(t);
    }
    ledger.decoded(all);
}

/// Finishes every cell of the product, tile after tile. The padding of a stack
/// is blanked once for each height of tile.
pub fn tabulate<
    'a,
    'w,
    'c,
    E: Tabulated,
    Bd: Bound,
    C: Enumerable<E, Bd>,
    O: Output,
    Ep: Epilogue<E, O>,
    L: TableLane<E>,
    R: Route<E, L>,
    Lg: Ledger,
>(
    triple: &mut TabulatedTriple<'a, 'w, 'c, E, Bd, C, O>,
    epilogue: &Ep,
    options: GemmOptions,
    exact: &mut [E::Acc],
    lanes: &mut [L],
    panel: &mut [E],
    collapse: Option<ColumnMap<'_>>,
    entries: &mut Option<EntrySet<'_>>,
    plan: Plan,
    scale: LaneScale,
    projection_decodes: bool,
    local_envelopes: bool,
    ledger: &mut Lg,
)
    requires
        old(triple).wf(),
        old(triple).a.cols > 0,
        C::space() > 0,
        slab_of(C::space() as int) > 0,
        is_rung(plan.rows as int),
        plan.cols > 0,
        plan.depth > 0,
        slab_of(C::space() as int) * plan.rows <= u32::MAX,
        plan.rows * plan.cols <= old(exact)@.len(),
        plan.rows * plan.cols + slab_of(C::space() as int) * plan.rows * plan.depth <= old(lanes)@.len(),
        panel_cells(C::space() as int, C::block() as int) <= old(panel)@.len(),
        book_ready(old(panel)@, old(triple).w, scale.base_b),
        scale_suits(old(triple).a, old(triple).w, scale),
        map_sound(map_of(collapse), old(triple).w, plan.cols as int),
        set_ready(*old(entries)),
        faithful::<E, O>(L::precision(), options.encode),
        !local_envelopes ==> (E::run_of(L::cap(), Bd::bound() as int, scale) matches Some(run)
            ==> C::block() <= run && plan.depth * C::block() <= run),
        local_envelopes ==> E::scales() && !E::declared_scale(),
    ensures
        final(triple).wf(),
        final(triple).is_product_of(*old(triple), *epilogue, options.encode),
        final(final(triple).c.data)@ == final(old(triple).c.data)@,
        *final(ledger) == old(ledger).charged(
            tabulated_work(
                R::modular(),
                options.backend,
                options.host,
                local_envelopes,
                projection_decodes,
                old(triple).a,
                old(triple).w,
                scale,
                map_of(collapse),
                plan,
                set_room(*old(entries)),
                old(panel)@.len() as int,
            ),
        ),
{
    let (m, k, n): (usize, usize, usize) = (triple.a.rows, triple.a.cols, triple.w.rows);
    let space: usize = C::code_space();
    let block: usize = C::max_block();
    let ghost before = *triple;
    let ghost begun = *ledger;
    let ghost codes = slab_of(space as int);
    let ghost map = map_of(collapse);
    let ghost room = set_room(*entries);
    let ghost (backend, host) = (options.backend, options.host);
    let ghost whole = tiles_work(
        R::modular(),
        backend,
        host,
        local_envelopes,
        before.a,
        before.w,
        scale,
        map,
        plan,
        room,
        0,
    );
    let ghost book0 = panel@;
    proof {
        begun.charges_nothing();
        assert(lanes.len() == lanes@.len());
        assert(panel.len() == panel@.len());
        assert(0 <= plan.rows * plan.cols) by (nonlinear_arith);
        assert((space + TALLEST_TILE) * block == space * block + TALLEST_TILE * block)
            by (nonlinear_arith);
        assert(0 <= space * block) by (nonlinear_arith);
        assert(0 <= TALLEST_TILE * block) by (nonlinear_arith);
        assert(0 <= codes * plan.rows) by (nonlinear_arith)
            requires
                0 <= codes,
        ;
        assert(0 <= codes * plan.rows * plan.depth) by (nonlinear_arith)
            requires
                0 <= codes * plan.rows,
        ;
        crate::arith::lemma_ceil_pow2(space as nat);
    }
    let (columns, stack) = lanes.split_at_mut(plan.rows * plan.cols);
    let (book_panel, rest) = panel.split_at_mut(space * block);
    let (acts, cache_offer) = rest.split_at_mut(TALLEST_TILE * block);
    let cache_rows: usize = if n > plan.cols {
        min(cache_offer.len() / k, m)
    } else {
        0
    };
    proof {
        let cells = cache_offer@.len() as int;
        vstd::arithmetic::div_mod::lemma_fundamental_div_mod(cells, k as int);
        assert(cache_rows * k <= cells) by (nonlinear_arith)
            requires
                0 <= cache_rows <= cells / k as int,
                k as int * (cells / k as int) <= cells,
        ;
    }
    project_rows(&triple.a, scale.base_a, cache_offer, cache_rows);
    let ghost graded = if projection_decodes {
        projection_tally(m as int, k as int, n as int, plan.cols as int, cache_rows as int)
    } else {
        Tally::none()
    };
    if projection_decodes {
        enter_projection(m, k, n, plan.cols, cache_rows, ledger);
    }
    proof {
        assert(graded.plus(Tally::none()) == graded);
    }
    let book: &[E] = &*book_panel;
    let projected: &[E] = &*cache_offer;
    proof {
        lemma_book_head(book0, book@, before.w, scale.base_b);
        before.w.lemma_block(0);
    }
    let mut row0: usize = 0;
    let mut zeroed_rows: usize = 0;
    let ghost mut done: Tally = Tally::none();
    while row0 < m
        invariant
            m == before.a.rows,
            k == before.a.cols,
            n == before.w.rows,
            k > 0,
            space == C::space(),
            block == C::block(),
            block > 0,
            before == *old(triple),
            begun == *old(ledger),
            same_operands(*triple, before),
            final(triple.c.data)@ == final(old(triple).c.data)@,
            codes == slab_of(space as int),
            codes > 0,
            codes >= space,
            space > 0,
            map == map_of(collapse),
            room == set_room(*old(entries)),
            room == set_room(*entries),
            backend == options.backend,
            host == options.host,
            is_rung(plan.rows as int),
            plan.cols > 0,
            plan.depth > 0,
            codes * plan.rows <= u32::MAX,
            plan.rows * plan.cols <= exact@.len(),
            columns@.len() == plan.rows * plan.cols,
            codes * plan.rows * plan.depth <= stack@.len(),
            acts@.len() == TALLEST_TILE * block,
            book_ready(book@, before.w, scale.base_b),
            rows_projected(projected@, before.a, cache_rows as int, scale.base_a),
            scale_suits(before.a, before.w, scale),
            before.w.per_row() > 0,
            map_sound(map, before.w, plan.cols as int),
            set_ready(*entries),
            set_restored(*entries, *old(entries)),
            faithful::<E, O>(L::precision(), options.encode),
            !local_envelopes ==> (E::run_of(L::cap(), Bd::bound() as int, scale) matches Some(run)
                ==> C::block() <= run && plan.depth * C::block() <= run),
            local_envelopes ==> E::scales() && !E::declared_scale(),
            row0 <= m,
            zeroed_rows > 0 ==> padded(
                stack@,
                space * zeroed_rows,
                codes * zeroed_rows,
                plan.depth as int,
            ),
            forall|i: int, j: int|
                0 <= i < m && 0 <= j < n ==> if i < row0 {
                    cell_done(*triple, before, *epilogue, options.encode, i, j)
                } else {
                    (#[trigger] triple.c.cell(i, j)) == before.c.cell(i, j)
                },
            whole == tiles_work(
                R::modular(),
                backend,
                host,
                local_envelopes,
                before.a,
                before.w,
                scale,
                map,
                plan,
                room,
                0,
            ),
            *ledger == begun.charged(graded.plus(done)),
            done.plus(
                tiles_work(
                    R::modular(),
                    backend,
                    host,
                    local_envelopes,
                    before.a,
                    before.w,
                    scale,
                    map,
                    plan,
                    room,
                    row0 as int,
                ),
            ) == whole,
        decreases m - row0,
    {
        let rows: usize = tallest_tile(plan.rows, m - row0);
        let group: usize = column_group(rows);
        let spec: TableSpec = R::table_spec(
            options.backend,
            options.host,
            Bd::value(),
            C::sign_bit_book(),
            rows,
            group,
        );
        let scalar_spec: TableSpec = R::table_spec(
            options.backend,
            options.host,
            Bd::value(),
            false,
            rows,
            group,
        );
        proof {
            R::route_laws(backend, host, Bd::bound(), C::sign_book(), rows as nat, group as nat);
            E::sequence_laws(
                R::modular(),
                backend,
                host,
                Bd::bound(),
                C::sign_book(),
                rows as nat,
                group as nat,
            );
            E::sequence_laws(
                R::modular(),
                backend,
                host,
                Bd::bound(),
                false,
                rows as nat,
                group as nat,
            );
            lemma_stack_fits(codes, rows as int, plan.rows as int, plan.depth as int);
            assert(plan.cols * rows <= plan.rows * plan.cols) by (nonlinear_arith)
                requires
                    rows <= plan.rows,
            ;
            assert(block * rows <= TALLEST_TILE * block) by (nonlinear_arith)
                requires
                    rows <= 16,
                    TALLEST_TILE == 16,
            ;
        }
        let tile: Tile<'_, E, Bd, C> = Tile {
            a: triple.a,
            w: triple.w,
            scale,
            row0,
            rows,
            book,
            projected,
            projected_rows: cache_rows,
        };
        assert(tile.wf());
        let ghost stack0 = stack@;
        let ghost middle = *triple;
        let ghost slab = codes * rows;
        let found: Option<Table<'_, L>> = if zeroed_rows == rows {
            Table::reuse_zeroed(stack, space, rows, plan.depth)
        } else {
            Table::new(stack, space, rows, plan.depth)
        };
        match found {
            None => {
                assert(false);
                return;
            },
            Some(mut table) => {
                proof {
                    if zeroed_rows == rows {
                        lemma_padding_head(
                            stack0,
                            table.words@,
                            space * rows,
                            slab,
                            plan.depth as int,
                        );
                    }
                    assert(table.blank_padding());
                }
                row_tile(
                    triple,
                    epilogue,
                    options.encode,
                    exact,
                    columns,
                    &mut table,
                    &tile,
                    &spec,
                    &scalar_spec,
                    acts,
                    collapse,
                    entries,
                    plan,
                    local_envelopes,
                    group,
                    ledger,
                );
                proof {
                    lemma_padding_tail(
                        table.words@,
                        stack0.subrange(table.words@.len() as int, stack0.len() as int),
                        space * rows,
                        slab,
                        plan.depth as int,
                    );
                }
            },
        }
        zeroed_rows = rows;
        proof {
            let t = row_work(
                local_envelopes,
                before.a,
                before.w,
                scale,
                row0 as int,
                rows as int,
                spec,
                scalar_spec,
                map,
                plan.cols as int,
                room,
                ceil_div(n as int, plan.cols as int),
            );
            begun.charges_compose(graded.plus(done), t);
            assert(graded.plus(done).plus(t) == graded.plus(done.plus(t)));
            let after = tiles_work(
                R::modular(),
                backend,
                host,
                local_envelopes,
                before.a,
                before.w,
                scale,
                map,
                plan,
                room,
                row0 + rows,
            );
            assert(done.plus(t).plus(after) == done.plus(t.plus(after)));
            done = done.plus(t);
            assert forall|i: int, j: int| 0 <= i < m && 0 <= j < n implies if i < row0 + rows {
                cell_done(*triple, before, *epilogue, options.encode, i, j)
            } else {
                (#[trigger] triple.c.cell(i, j)) == before.c.cell(i, j)
            } by {
                let _ = middle.c.cell(i, j);
                assert(middle.cell_total(i, j) == before.cell_total(i, j));
            }
        }
        row0 = row0 + rows;
    }
    proof {
        assert(done.plus(Tally::none()) == done);
    }
}

/// The head of a panel that holds a book holds it.
proof fn lemma_book_head<E: Graded, Bd: Bound, C: Enumerable<E, Bd>>(
    panel: Seq<E>,
    book: Seq<E>,
    w: CodedMatrix<'_, E, Bd, C>,
    base: i32,
)
    requires
        w.wf(),
        C::space() > 0,
        book_ready(panel, w, base),
        C::space() * C::block() <= panel.len(),
        book == panel.subrange(0, (C::space() * C::block()) as int),
    ensures
        book_ready(book, w, base),
{
    let b = C::block() as int;
    assert forall|x: int, t: int|
        #![trigger w.codec.decoded(w.codes@[x], t)]
        0 <= x < w.codes@.len() && 0 <= t < C::block() implies {
        &&& w.codec.decoded(w.codes@[x], t).element().gradable(base)
        &&& book[C::index(w.codes@[x]) * C::block() + t] == w.codec.decoded(
            w.codes@[x],
            t,
        ).element().graded(base)
    } by {
        w.codec.names(w.codes@[x], t);
        let c = C::index(w.codes@[x]) as int;
        lemma_cell(C::space() as int, b, c, t);
        assert(book[c * b + t] == panel[c * b + t]);
    }
}

/// A shorter tile's stack fits where a taller one's does.
proof fn lemma_stack_fits(codes: int, rows: int, plan_rows: int, depth: int)
    requires
        0 < codes,
        0 < rows <= plan_rows,
        0 < depth,
    ensures
        codes * rows <= codes * plan_rows,
        codes * rows * depth <= codes * plan_rows * depth,
{
    assert(codes * rows <= codes * plan_rows) by (nonlinear_arith)
        requires
            0 < codes,
            rows <= plan_rows,
    ;
    assert(codes * rows * depth <= codes * plan_rows * depth) by (nonlinear_arith)
        requires
            codes * rows <= codes * plan_rows,
            0 < depth,
    ;
}

/// Blank padding of a stack is blank in its head.
proof fn lemma_padding_head<L: LaneWord>(
    stack: Seq<L>,
    words: Seq<L>,
    live: int,
    slab: int,
    depth: int,
)
    requires
        0 <= live,
        words.len() == slab * depth,
        words.len() <= stack.len(),
        words == stack.subrange(0, words.len() as int),
        padded(stack, live, slab, depth),
    ensures
        padded(words, live, slab, depth),
{
    assert forall|slot: int, x: int|
        #![trigger words[slot * slab + x]]
        0 <= slot < depth && live <= x < slab implies words[slot * slab + x] == L::blank() by {
        crate::table::lemma_slot(slab, depth, slot, x);
        assert(words[slot * slab + x] == stack[slot * slab + x]);
    }
}

/// Blank padding of a stack stays blank where words follow it.
proof fn lemma_padding_tail<L: LaneWord>(
    words: Seq<L>,
    tail: Seq<L>,
    live: int,
    slab: int,
    depth: int,
)
    requires
        0 <= live,
        words.len() == slab * depth,
        padded(words, live, slab, depth),
    ensures
        padded(words + tail, live, slab, depth),
{
    let all = words + tail;
    assert forall|slot: int, x: int|
        #![trigger all[slot * slab + x]]
        0 <= slot < depth && live <= x < slab implies all[slot * slab + x] == L::blank() by {
        crate::table::lemma_slot(slab, depth, slot, x);
        assert(all[slot * slab + x] == words[slot * slab + x]);
    }
}

} // verus!
