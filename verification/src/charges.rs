//! What the work of a product is charged for: kinds of rows, kinds of columns,
//! and what was declared of the call.
use crate::accumulate::builds_tally;
use crate::arith::{ceil_div, lemma_ceil_pow2};
use crate::book::{decoded_count, panel_cells};
use crate::census::Tally;
use crate::codec::{CodedMatrix, Enumerable};
use crate::collapse::{kinds_equal, kinds_known, next_kind, same_rows};
use crate::columns::dictionary_words;
use crate::drive::{
    decided_run, lane_spends, pass_scale, pass_spends, pass_tally, planned, table_admitted,
};
use crate::element::{Alphabet, Bound, Element};
use crate::epilogue::{EncodeMode, Epilogue, Output};
use crate::family::Tabulated;
use crate::gemm::{product_spends, rows_spend, rows_walked};
use crate::laws::{law_columns_never_multiply, law_one_result, law_reads_per_block};
use crate::mapping::{columns_mapped, first_in_block, list_room, named_entries, repeats};
use crate::offers::law_selection_is_declared;
use crate::plan::Plan;
use crate::routes::decline_tally;
use crate::rows::{block_width, collapsed_at, same_columns};
use crate::scale::LaneScale;
use crate::schedule::{region_at, row_work};
use crate::sequence::{Backend, Host, TableLane, TableSpec};
use crate::sizing::{group_of, Shape};
use crate::sources::{addressed_places, built_entries};
use crate::sweep::present_count;
use crate::tabulate::{
    cached_rows, projection_tally, tabulated_work, tile_rows, tiles_work, Direct, Quotient, Route,
};
use crate::triple::{GemmOptions, TabulatedTriple, Traversal};
use crate::view::MatView;
use crate::workspace::{block_is_identity, block_start, lemma_block_start};
use vstd::prelude::*;

verus! {

/// Kinds of rows among the first `n`: those that no earlier row is equal to.
pub open spec fn row_kinds<E: Element, Bd: Bound>(
    a: MatView<'_, Alphabet<E, Bd>>,
    n: int,
) -> nat
    decreases n,
{
    if n <= 0 {
        0
    } else {
        row_kinds(a, n - 1) + (if new_row(a, n - 1) {
            1nat
        } else {
            0
        })
    }
}

/// No earlier row is equal to row `i`.
pub open spec fn new_row<E: Element, Bd: Bound>(a: MatView<'_, Alphabet<E, Bd>>, i: int) -> bool {
    forall|x: int| 0 <= x < i ==> !#[trigger] same_rows(a, x, i)
}

/// Kinds of columns among the first `n`, those of each block of `cols` columns
/// on their own.
pub open spec fn column_kinds<E: Element, Bd: Bound, C: Enumerable<E, Bd>>(
    w: CodedMatrix<'_, E, Bd, C>,
    cols: int,
    n: int,
) -> nat
    decreases n,
{
    if n <= 0 {
        0
    } else {
        column_kinds(w, cols, n - 1) + (if new_column(w, cols, n - 1) {
            1nat
        } else {
            0
        })
    }
}

/// No earlier column of its block is the same as column `j`.
pub open spec fn new_column<E: Element, Bd: Bound, C: Enumerable<E, Bd>>(
    w: CodedMatrix<'_, E, Bd, C>,
    cols: int,
    j: int,
) -> bool {
    forall|x: int| block_start(j, cols) <= x < j ==> !#[trigger] same_columns(w, x, j)
}

/// Rows that a product walks: one of each kind where equal rows are looked for
/// and the offers hold what that takes, and else all.
pub open spec fn rows_taken<E: Tabulated, Bd: Bound>(
    a: MatView<'_, Alphabet<E, Bd>>,
    reads: bool,
    collapse_index: int,
    collapse_rows: int,
) -> int {
    let kinds = row_kinds(a, a.rows as int) as int;
    if !reads && E::collapses_rows() && a.cols > 0 && dictionary_words(a.rows as int)
        <= collapse_index && kinds * a.cols <= collapse_rows {
        kinds
    } else {
        a.rows as int
    }
}

/// Columns among the first `n` that a product walks: one of each kind in its
/// block where the index holds a dictionary of the columns, and else all.
pub open spec fn columns_taken<E: Element, Bd: Bound, C: Enumerable<E, Bd>>(
    w: CodedMatrix<'_, E, Bd, C>,
    cols: int,
    index_len: int,
    n: int,
) -> int {
    if dictionary_words(w.rows as int) <= index_len {
        column_kinds(w, cols, n) as int
    } else {
        n
    }
}

/// The pass that a product of `m` rows gets.
pub open spec fn product_planned<E: Tabulated, Bd: Bound, C: Enumerable<E, Bd>, O: Output>(
    plan: Option<Plan>,
    m: int,
    k: usize,
    n: usize,
    options: GemmOptions,
    room: int,
    words: int,
) -> bool {
    let shape = Shape { m: m as usize, k, n };
    let (space, block, bound) = (C::space() as int, C::block() as int, Bd::bound() as int);
    if options.encode == EncodeMode::Wrapping && E::modular(O::width_bits()) {
        planned::<E, E::ModLane>(plan, space, shape, block, bound, room, words)
    } else {
        planned::<E, E::Lane>(plan, space, shape, block, bound, room, words)
    }
}

/// A lane is planned and admitted, and the panel holds its book.
pub open spec fn lane_runs<
    E: Tabulated,
    Bd: Bound,
    C: Enumerable<E, Bd>,
    L: TableLane<E>,
    R: Route<E, L>,
>(shape: Shape, options: GemmOptions, cells: int, room: int, words: int) -> bool {
    &&& E::scales()
    &&& panel_cells(C::space() as int, C::block() as int) <= cells
    &&& exists|plan: Plan| #[trigger]
        planned::<E, L>(
            Some(plan),
            C::space() as int,
            shape,
            C::block() as int,
            Bd::bound() as int,
            room,
            words,
        ) && table_admitted::<E, Bd, C, L, R>(plan, options)
}

/// A product of `m` rows runs tables, as far as declarations, extents and offers
/// tell.
pub open spec fn tables_run<E: Tabulated, Bd: Bound, C: Enumerable<E, Bd>, O: Output>(
    m: int,
    k: usize,
    n: usize,
    options: GemmOptions,
    cells: int,
    room: int,
    words: int,
) -> bool {
    let shape = Shape { m: m as usize, k, n };
    &&& 0 < m
    &&& 0 < k
    &&& 0 < n
    &&& C::addressable()
    &&& C::space() > 0
    &&& options.traversal != Traversal::OutputMajor
    &&& if options.encode == EncodeMode::Wrapping && E::modular(O::width_bits()) {
        lane_runs::<E, Bd, C, E::ModLane, Quotient>(shape, options, cells, room, words)
    } else {
        lane_runs::<E, Bd, C, E::Lane, Direct>(shape, options, cells, room, words)
    }
}

/// Dense kernels that a product of `m` rows calls where it runs no table.
pub open spec fn dense_calls<E: Tabulated, Bd: Bound>(
    m: int,
    k: int,
    n: int,
    options: GemmOptions,
    cells: int,
) -> nat {
    if m == 0 || k == 0 || n == 0 {
        0
    } else {
        decline_tally::<E, Bd>(options.traversal, cells, m, k, n).calls
    }
}

/// No sequence of the family multiplies to build a table.
pub open spec fn builds_add<E: Tabulated, Bd: Bound>(options: GemmOptions) -> bool {
    forall|modular: bool, sign_book: bool, rows: nat, group: nat|
        !(#[trigger] E::sequence_for(
            modular,
            options.backend,
            options.host,
            Bd::bound(),
            sign_book,
            rows,
            group,
        )).build_multiplies
}

/// The work of tables over `rows` rows in blocks of `cols` columns: each row
/// taken and each column taken is read once for each block of the reduction, or
/// once for each of its steps where the data has it taken apart; each row taken
/// has a table built for each block of columns; the book is decoded once, entry by
/// named entry where blocks are of one and those can be listed; and nothing is
/// multiplied where builds add.
pub open spec fn charged_for<E: Tabulated, Bd: Bound, C: Enumerable<E, Bd>>(
    t: Tally,
    rows: int,
    w: CodedMatrix<'_, E, Bd, C>,
    options: GemmOptions,
    cols: int,
    index_len: int,
) -> bool {
    let taken = columns_taken(w, cols, index_len, w.rows as int);
    let each = taken * w.per_row() * rows;
    let products = ceil_div(w.rows as int, cols) * (C::space() * w.cols * rows);
    &&& each <= t.reads <= each * C::block()
    &&& E::declared_scale() ==> {
        &&& t.decodes == decoded_count(w, named_entries(w, list_room(w, cols, index_len)))
        &&& C::block() != 1 || C::sign_book() ==> t.decodes == C::space() * C::block()
        &&& t.reads == each
        &&& t.reads <= t.adds + t.multiplies <= t.reads + products
        &&& C::block() != 1 || C::sign_book() ==> t.adds + t.multiplies == t.reads + products
    }
    &&& builds_add::<E, Bd>(options) ==> t.multiplies == 0
}

/// Numbers below the kinds met so far are borne by rows met so far.
proof fn lemma_numbers(index: Seq<usize>, n: int, number: int)
    requires
        0 <= n,
        forall|i: int| 0 <= i < n ==> #[trigger] index[i] <= next_kind(index, i),
    ensures
        next_kind(index, n) >= 0,
        forall|i: int| 0 <= i < n ==> #[trigger] index[i] < next_kind(index, n),
        0 <= number < next_kind(index, n) ==> exists|i: int|
            0 <= i < n && #[trigger] index[i] == number,
    decreases n,
{
    if n > 0 {
        lemma_numbers(index, n - 1, number);
        assert(index[n - 1] <= next_kind(index, n - 1));
        if 0 <= number < next_kind(index, n) && number >= next_kind(index, n - 1) {
            assert(index[n - 1] == number);
        }
    }
}

/// Numbered kinds are as many as there are kinds.
proof fn lemma_kinds<E: Element, Bd: Bound>(
    a: MatView<'_, Alphabet<E, Bd>>,
    index: Seq<usize>,
    kinds: int,
    n: int,
)
    requires
        kinds_known(a, index, kinds),
        0 <= n <= a.rows,
    ensures
        row_kinds(a, n) == next_kind(index, n),
        row_kinds(a, n) <= n,
    decreases n,
{
    if n > 0 {
        lemma_kinds(a, index, kinds, n - 1);
        reveal(kinds_equal);
        lemma_numbers(index, n - 1, index[n - 1] as int);
        if index[n - 1] == next_kind(index, n - 1) {
            assert forall|x: int| 0 <= x < n - 1 implies !#[trigger] same_rows(a, x, n - 1) by {
                assert(index[x] < next_kind(index, n - 1));
                assert(index[x] != index[n - 1]);
            }
        } else {
            assert(index[n - 1] <= next_kind(index, n - 1));
            let x = choose|x: int| 0 <= x < n - 1 && #[trigger] index[x] == index[n - 1];
            assert(same_rows(a, x, n - 1));
        }
    }
}

/// As many rows are walked as are taken.
proof fn lemma_walked<'t, E: Tabulated, Bd: Bound>(
    kept: MatView<'t, Alphabet<E, Bd>>,
    a: MatView<'t, Alphabet<E, Bd>>,
    reads: bool,
    collapse_index: int,
    collapse_rows: int,
)
    requires
        rows_walked(kept, a, reads, collapse_index, collapse_rows),
    ensures
        kept.rows == rows_taken::<E, Bd>(a, reads, collapse_index, collapse_rows),
{
    if !reads && E::collapses_rows() && a.cols > 0 && dictionary_words(a.rows as int)
        <= collapse_index {
        let (index, kinds) = choose|index: Seq<usize>, kinds: int|
            {
                &&& #[trigger] kinds_known(a, index, kinds)
                &&& if kinds < a.rows && kinds * a.cols <= collapse_rows {
                    &&& kept.rows == kinds
                    &&& kept.cols == a.cols
                    &&& crate::gemm::one_of_each(kept, a, index)
                } else {
                    kept == a
                }
            };
        lemma_kinds(a, index, kinds, a.rows as int);
    }
}

/// The columns of a block that are walked are those that are taken.
proof fn lemma_present_kinds<E: Element, Bd: Bound, C: Enumerable<E, Bd>>(
    map: Option<(Seq<usize>, Seq<usize>)>,
    w: CodedMatrix<'_, E, Bd, C>,
    cols: int,
    index_len: int,
    b: int,
    n: int,
)
    requires
        0 < cols,
        0 <= b < ceil_div(w.rows as int, cols),
        b * cols < w.rows,
        columns_mapped(map, w, cols, index_len),
        0 <= n <= block_width(w.rows as int, cols, b),
    ensures
        present_count(
            collapsed_at(map, cols, b * cols, block_width(w.rows as int, cols, b)),
            n,
        ) == columns_taken(w, cols, index_len, b * cols + n) - columns_taken(
            w,
            cols,
            index_len,
            b * cols,
        ),
    decreases n,
{
    let width = block_width(w.rows as int, cols, b);
    let col0 = b * cols;
    let index = collapsed_at(map, cols, col0, width);
    assert(0 <= col0) by (nonlinear_arith)
        requires
            col0 == b * cols,
            0 <= b,
            0 < cols,
    ;
    if n > 0 {
        lemma_present_kinds(map, w, cols, index_len, b, n - 1);
        let j = col0 + n - 1;
        assert((b + 1) * cols == col0 + cols) by (nonlinear_arith)
            requires
                col0 == b * cols,
        ;
        lemma_block_start(j, cols, b);
        vstd::arithmetic::div_mod::lemma_div_by_multiple(b, cols);
        if dictionary_words(w.rows as int) <= index_len {
            if let Some(m) = map {
                assert(first_in_block(w, cols, m.0[j] as int, j));
                assert(new_column(w, cols, j) <==> m.0[j] == n - 1) by {
                    if m.0[j] < n - 1 {
                        assert(same_columns(w, col0 + m.0[j] as int, j));
                    }
                }
                if m.1[b] != 0 {
                    assert(block_is_identity(m.0, cols, w.rows as int, b));
                    assert(m.0[j] == j - col0);
                } else {
                    assert(m.0.subrange(col0, col0 + width)[n - 1] == m.0[j]);
                }
            } else {
                assert(!repeats(w));
                assert(new_column(w, cols, j));
            }
        }
    }
}

/// What building the first `p` blocks costs.
proof fn lemma_builds<E: Element, Bd: Bound, C: Enumerable<E, Bd>>(
    spec: TableSpec,
    codes: Seq<C::Code>,
    codes_per_row: int,
    rows: int,
    index: Option<Seq<usize>>,
    col0: int,
    cols: int,
    room: Option<int>,
    p: int,
)
    requires
        0 <= p,
        0 <= rows,
    ensures
        ({
            let t = builds_tally::<E, Bd, C>(
                spec,
                codes,
                codes_per_row,
                rows,
                index,
                col0,
                cols,
                room,
                p,
            );
            let products = p * (C::space() * C::block() * rows);
            &&& t.decodes == 0
            &&& t.adds + t.multiplies <= products
            &&& C::block() != 1 || C::sign_book() ==> t.adds + t.multiplies == products
        }),
    decreases p,
{
    let book = C::space() * C::block() * rows;
    if p > 0 {
        lemma_builds::<E, Bd, C>(
            spec,
            codes,
            codes_per_row,
            rows,
            index,
            col0,
            cols,
            room,
            p - 1,
        );
        let places = addressed_places::<E, Bd, C>(codes, codes_per_row, col0, p - 1, index, cols);
        let entries = built_entries::<E, Bd, C>(places, room);
        let block = C::block() as int;
        assert(p * book == (p - 1) * book + book) by (nonlinear_arith);
        assert(0 <= entries * block * rows <= C::space() * block * rows) by (nonlinear_arith)
            requires
                0 <= entries <= C::space(),
                0 <= block,
                0 <= rows,
        ;
    } else {
        assert(0 * book == 0);
    }
}

/// What the first `b` blocks of columns of a tile of rows cost.
proof fn lemma_row_charges<'t, E: Tabulated, Bd: Bound, C: Enumerable<E, Bd>>(
    local: bool,
    a: MatView<'t, Alphabet<E, Bd>>,
    w: CodedMatrix<'t, E, Bd, C>,
    scale: LaneScale,
    row0: int,
    rows: int,
    spec: TableSpec,
    scalar_spec: TableSpec,
    map: Option<(Seq<usize>, Seq<usize>)>,
    cols: int,
    room: Option<int>,
    index_len: int,
    b: int,
)
    requires
        w.wf(),
        0 <= rows,
        0 < cols,
        columns_mapped(map, w, cols, index_len),
        0 <= b <= ceil_div(w.rows as int, cols),
    ensures
        ({
            let n = w.rows as int;
            let t = row_work(
                local,
                a,
                w,
                scale,
                row0,
                rows,
                spec,
                scalar_spec,
                map,
                cols,
                room,
                b,
            );
            let reached = if b * cols < n {
                b * cols
            } else {
                n
            };
            let each = columns_taken(w, cols, index_len, reached) * w.per_row() * rows;
            let products = b * (C::space() * w.cols * rows);
            &&& each <= t.reads <= each * C::block()
            &&& !local ==> {
                &&& t.decodes == 0
                &&& t.reads == each
                &&& t.reads <= t.adds + t.multiplies <= t.reads + products
                &&& C::block() != 1 || C::sign_book() ==> t.adds + t.multiplies == t.reads
                    + products
            }
        }),
    decreases b,
{
    let n = w.rows as int;
    let per_row = w.per_row();
    let block = C::block() as int;
    let space = C::space() as int;
    let k = w.cols as int;
    assert(per_row >= 0 && k == per_row * block) by (nonlinear_arith)
        requires
            per_row == k / block,
            k % block == 0,
            k >= 0,
            block > 0,
    ;
    if b > 0 {
        lemma_row_charges(
            local,
            a,
            w,
            scale,
            row0,
            rows,
            spec,
            scalar_spec,
            map,
            cols,
            room,
            index_len,
            b - 1,
        );
        let region = region_at(a, w, scale, row0, rows, spec.lane_cap as int, map, cols, b - 1);
        let (col0, width) = (region.col0, region.cols);
        assert(col0 < n) by (nonlinear_arith)
            requires
                col0 == (b - 1) * cols,
                b <= (n + cols - 1) / cols,
                cols > 0,
        ;
        assert(b * cols == col0 + cols) by (nonlinear_arith)
            requires
                col0 == (b - 1) * cols,
        ;
        lemma_present_kinds(map, w, cols, index_len, b - 1, width);
        law_columns_never_multiply::<E, Bd, C>(
            spec,
            w.codes@,
            per_row,
            rows,
            region.index,
            col0,
            width,
            room,
            per_row,
        );
        lemma_builds::<E, Bd, C>(
            spec,
            w.codes@,
            per_row,
            rows,
            region.index,
            col0,
            width,
            room,
            per_row,
        );
        region.lemma_work(spec, scalar_spec, room, per_row);
        let seen = present_count(region.index, width) as int;
        let before = columns_taken(w, cols, index_len, col0);
        let (x, y) = (before * per_row * rows, seen * per_row * rows);
        assert((before + seen) * per_row * rows == x + y && (x + y) * block == x * block + y * block
            && seen * rows >= 0 && per_row * (seen * rows) == y && y * block >= y)
            by (nonlinear_arith)
            requires
                x == before * per_row * rows,
                y == seen * per_row * rows,
                seen >= 0,
                rows >= 0,
                per_row >= 0,
                block >= 1,
        ;
        let book = space * k * rows;
        assert(b * book == (b - 1) * book + book) by (nonlinear_arith);
        assert(per_row * (space * block * rows) == book) by (nonlinear_arith)
            requires
                book == space * k * rows,
                k == per_row * block,
        ;
    } else {
        assert(0 * cols == 0);
        assert(0 * per_row * rows == 0 && 0 * block == 0 && 0 * (space * k * rows) == 0)
            by (nonlinear_arith);
    }
}

/// What the tiles of rows from `row0` on cost.
proof fn lemma_tile_charges<'t, E: Tabulated, Bd: Bound, C: Enumerable<E, Bd>>(
    modular: bool,
    backend: Backend,
    host: Host,
    local: bool,
    a: MatView<'t, Alphabet<E, Bd>>,
    w: CodedMatrix<'t, E, Bd, C>,
    scale: LaneScale,
    map: Option<(Seq<usize>, Seq<usize>)>,
    plan: Plan,
    room: Option<int>,
    index_len: int,
    row0: int,
)
    requires
        w.wf(),
        0 < plan.cols,
        columns_mapped(map, w, plan.cols as int, index_len),
        0 <= row0 <= a.rows,
    ensures
        ({
            let n = w.rows as int;
            let cols = plan.cols as int;
            let rows = a.rows - row0;
            let t = tiles_work(
                modular,
                backend,
                host,
                local,
                a,
                w,
                scale,
                map,
                plan,
                room,
                row0,
            );
            let each = columns_taken(w, cols, index_len, n) * w.per_row() * rows;
            let products = ceil_div(n, cols) * (C::space() * w.cols * rows);
            &&& each <= t.reads <= each * C::block()
            &&& !local ==> {
                &&& t.decodes == 0
                &&& t.reads == each
                &&& t.reads <= t.adds + t.multiplies <= t.reads + products
                &&& C::block() != 1 || C::sign_book() ==> t.adds + t.multiplies == t.reads
                    + products
            }
        }),
    decreases a.rows - row0,
{
    let n = w.rows as int;
    let cols = plan.cols as int;
    let (space, k, block, per_row) = (
        C::space() as int,
        w.cols as int,
        C::block() as int,
        w.per_row(),
    );
    let taken = columns_taken(w, cols, index_len, n);
    let blocks = ceil_div(n, cols);
    let left = a.rows - row0;
    if left > 0 {
        let rows = tile_rows(plan.rows as int, left);
        let group = group_of(rows) as nat;
        let spec = E::sequence_for(
            modular,
            backend,
            host,
            Bd::bound(),
            C::sign_book(),
            rows as nat,
            group,
        );
        let scalar_spec = E::sequence_for(
            modular,
            backend,
            host,
            Bd::bound(),
            false,
            rows as nat,
            group,
        );
        assert(0 <= blocks && n <= blocks * cols) by (nonlinear_arith)
            requires
                blocks == (n + cols - 1) / cols,
                n >= 0,
                cols > 0,
        ;
        lemma_row_charges(
            local,
            a,
            w,
            scale,
            row0,
            rows,
            spec,
            scalar_spec,
            map,
            cols,
            room,
            index_len,
            blocks,
        );
        lemma_tile_charges(
            modular,
            backend,
            host,
            local,
            a,
            w,
            scale,
            map,
            plan,
            room,
            index_len,
            row0 + rows,
        );
        let rest = left - rows;
        let (x, y) = (taken * per_row * rows, taken * per_row * rest);
        assert(x + y == taken * per_row * left && (x + y) * block == x * block + y * block)
            by (nonlinear_arith)
            requires
                x == taken * per_row * rows,
                y == taken * per_row * rest,
                left == rows + rest,
        ;
        let (u, v) = (blocks * (space * k * rows), blocks * (space * k * rest));
        assert(u + v == blocks * (space * k * left)) by (nonlinear_arith)
            requires
                u == blocks * (space * k * rows),
                v == blocks * (space * k * rest),
                left == rows + rest,
        ;
    } else {
        assert(taken * per_row * 0 == 0 && 0 * block == 0 && blocks * (space * k * 0) == 0)
            by (nonlinear_arith);
    }
}

/// Some column is taken where there are columns.
proof fn lemma_some_taken<E: Element, Bd: Bound, C: Enumerable<E, Bd>>(
    w: CodedMatrix<'_, E, Bd, C>,
    cols: int,
    n: int,
)
    requires
        0 < cols,
        0 < n,
    ensures
        column_kinds(w, cols, n) >= 1,
    decreases n,
{
    if n > 1 {
        lemma_some_taken(w, cols, n - 1);
    } else {
        assert(column_kinds(w, cols, 0) == 0);
        assert(0 * cols == 0 && (0 + 1) * cols == cols) by (nonlinear_arith);
        assert(block_start(0, cols) == 0) by {
            lemma_block_start(0, cols, 0);
        }
        assert(new_column(w, cols, 0));
    }
}

/// What a product in one lane costs.
proof fn lemma_lane_charges<
    't,
    E: Tabulated,
    Bd: Bound,
    C: Enumerable<E, Bd>,
    L: TableLane<E>,
    R: Route<E, L>,
>(
    t: Tally,
    a: MatView<'t, Alphabet<E, Bd>>,
    w: CodedMatrix<'t, E, Bd, C>,
    options: GemmOptions,
    cells: int,
    room: int,
    words: int,
    index_len: int,
)
    requires
        w.wf(),
        0 < a.rows,
        0 < w.rows,
        0 < w.cols,
        lane_spends::<E, Bd, C, L, R>(t, a, w, options, cells, room, words, index_len),
    ensures
        ({
            let shape = Shape { m: a.rows, k: w.cols, n: w.rows };
            let runs = lane_runs::<E, Bd, C, L, R>(shape, options, cells, room, words);
            &&& t.reads > 0 <==> runs
            &&& t.calls == if runs {
                0
            } else {
                decline_tally::<E, Bd>(
                    options.traversal,
                    cells,
                    a.rows as int,
                    w.cols as int,
                    w.rows as int,
                ).calls
            }
            &&& runs ==> forall|plan: Plan| #[trigger]
                planned::<E, L>(
                    Some(plan),
                    C::space() as int,
                    shape,
                    C::block() as int,
                    Bd::bound() as int,
                    room,
                    words,
                ) ==> charged_for(t, a.rows as int, w, options, plan.cols as int, index_len)
        }),
{
    let shape = Shape { m: a.rows, k: w.cols, n: w.rows };
    let (space, block, bound) = (C::space() as int, C::block() as int, Bd::bound() as int);
    let dense = decline_tally::<E, Bd>(
        options.traversal,
        cells,
        a.rows as int,
        w.cols as int,
        w.rows as int,
    );
    R::offer_laws(0, 0);
    E::family_laws();
    let chosen = choose|plan: Option<Plan>|
        {
            &&& #[trigger] planned::<E, L>(plan, space, shape, block, bound, room, words)
            &&& match plan {
                None => t == dense,
                Some(plan) => if table_admitted::<E, Bd, C, L, R>(plan, options) {
                    pass_spends::<E, Bd, C, L, R>(t, plan, a, w, options, cells, index_len)
                } else {
                    t == dense
                },
            }
        };
    assert forall|plan: Plan| #[trigger]
        planned::<E, L>(Some(plan), space, shape, block, bound, room, words) implies chosen == Some(
        plan,
    ) by {
        law_selection_is_declared::<E, L>(
            chosen,
            Some(plan),
            space,
            shape,
            block,
            bound,
            room,
            words,
        );
    }
    if let Some(plan) = chosen {
        let cols = plan.cols as int;
        assert(cols > 0);
        if table_admitted::<E, Bd, C, L, R>(plan, options) {
            let map = choose|map: Option<(Seq<usize>, Seq<usize>)>| #[trigger]
                columns_mapped(map, w, cols, index_len) && t == pass_tally::<E, Bd, C, L, R>(
                    plan,
                    map,
                    a,
                    w,
                    options,
                    cells,
                    index_len,
                );
            let listed = list_room(w, cols, index_len);
            let scale = pass_scale(a, w, listed);
            let run = decided_run::<E, L>(bound, scale);
            let local = run is Some && run->0 < w.cols;
            if E::scales() && panel_cells(space, block) <= cells {
                law_reads_per_block(
                    R::modular(),
                    options.backend,
                    options.host,
                    local,
                    a,
                    w,
                    scale,
                    map,
                    plan,
                    listed,
                    0,
                );
                lemma_tile_charges(
                    R::modular(),
                    options.backend,
                    options.host,
                    local,
                    a,
                    w,
                    scale,
                    map,
                    plan,
                    listed,
                    index_len,
                    0,
                );
                lemma_some_taken(w, cols, w.rows as int);
                let taken = columns_taken(w, cols, index_len, w.rows as int);
                let per_row = w.per_row();
                assert(per_row > 0) by (nonlinear_arith)
                    requires
                        per_row == w.cols as int / block,
                        w.cols as int % block == 0,
                        w.cols > 0,
                        block > 0,
                ;
                assert(taken * per_row * a.rows > 0) by (nonlinear_arith)
                    requires
                        taken > 0,
                        per_row > 0,
                        a.rows > 0,
                ;
                assert(E::declared_scale() ==> run is None);
                assert(lane_runs::<E, Bd, C, L, R>(shape, options, cells, room, words));
            }
        }
    }
}

/// The work of a product tells no more of its operands than how many rows and
/// columns were taken. Tables are read exactly where declarations, extents,
/// offers and the number of rows taken say so, and dense kernels are called where
/// they say otherwise. Where tables are read, reads are charged for each row and
/// each column taken and builds for each row taken: per kind of row where equal
/// rows are looked for and found, and per kind of column where the index holds a
/// dictionary of them.
pub proof fn law_charged_per_kind<
    't,
    E: Tabulated,
    Bd: Bound,
    C: Enumerable<E, Bd>,
    O: Output,
>(
    t: Tally,
    a: MatView<'t, Alphabet<E, Bd>>,
    w: CodedMatrix<'t, E, Bd, C>,
    options: GemmOptions,
    reads: bool,
    cells: int,
    room: int,
    words: int,
    index_len: int,
    collapse_index: int,
    collapse_rows: int,
)
    requires
        w.wf(),
        product_spends::<E, Bd, C, O>(
            t,
            a,
            w,
            options,
            reads,
            cells,
            room,
            words,
            index_len,
            collapse_index,
            collapse_rows,
        ),
    ensures
        ({
            let rows = rows_taken::<E, Bd>(a, reads, collapse_index, collapse_rows);
            let runs = tables_run::<E, Bd, C, O>(
                rows,
                w.cols,
                w.rows,
                options,
                cells,
                room,
                words,
            );
            &&& t.reads > 0 <==> runs
            &&& t.calls == if runs {
                0
            } else {
                dense_calls::<E, Bd>(rows, w.cols as int, w.rows as int, options, cells)
            }
            &&& runs ==> forall|plan: Plan| #[trigger]
                product_planned::<E, Bd, C, O>(
                    Some(plan),
                    rows,
                    w.cols,
                    w.rows,
                    options,
                    room,
                    words,
                ) ==> charged_for(t, rows, w, options, plan.cols as int, index_len)
        }),
{
    let rows = rows_taken::<E, Bd>(a, reads, collapse_index, collapse_rows);
    lemma_rows_taken::<E, Bd>(a, a.rows as int);
    if a.rows != 0 && w.rows != 0 {
        let kept = choose|kept: MatView<'t, Alphabet<E, Bd>>|
            {
                &&& #[trigger] rows_walked(kept, a, reads, collapse_index, collapse_rows)
                &&& rows_spend::<E, Bd, C, O>(
                    t,
                    kept,
                    w,
                    options,
                    cells,
                    room,
                    words,
                    index_len,
                )
            };
        lemma_walked(kept, a, reads, collapse_index, collapse_rows);
        if w.cols != 0 && C::addressable() && C::space() != 0 && options.traversal
            != Traversal::OutputMajor {
            if options.encode == EncodeMode::Wrapping && E::modular(O::width_bits()) {
                lemma_lane_charges::<E, Bd, C, E::ModLane, Quotient>(
                    t,
                    kept,
                    w,
                    options,
                    cells,
                    room,
                    words,
                    index_len,
                );
            } else {
                lemma_lane_charges::<E, Bd, C, E::Lane, Direct>(
                    t,
                    kept,
                    w,
                    options,
                    cells,
                    room,
                    words,
                    index_len,
                );
            }
        }
    }
}

/// There are kinds of rows where there are rows, and no more kinds than rows.
proof fn lemma_rows_taken<E: Element, Bd: Bound>(a: MatView<'_, Alphabet<E, Bd>>, n: int)
    requires
        0 <= n,
    ensures
        row_kinds(a, n) <= n,
        n > 0 ==> row_kinds(a, n) >= 1,
    decreases n,
{
    if n > 0 {
        lemma_rows_taken(a, n - 1);
        if n == 1 {
            assert(new_row(a, 0));
        }
    }
}

/// Selection reads declarations and never an operand: two calls of the same
/// extents, types, options and offers, with nothing lent to collapse rows, agree
/// on whether tables are read and on whether dense kernels are called.
pub proof fn law_operands_select_nothing<
    't,
    'u,
    E: Tabulated,
    Bd: Bound,
    C: Enumerable<E, Bd>,
    O: Output,
>(
    one: Tally,
    other: Tally,
    a: MatView<'t, Alphabet<E, Bd>>,
    w: CodedMatrix<'t, E, Bd, C>,
    b: MatView<'u, Alphabet<E, Bd>>,
    v: CodedMatrix<'u, E, Bd, C>,
    options: GemmOptions,
    reads: bool,
    cells: int,
    room: int,
    words: int,
    index_len: int,
)
    requires
        w.wf(),
        v.wf(),
        a.rows == b.rows,
        a.cols == b.cols,
        w.rows == v.rows,
        w.cols == v.cols,
        product_spends::<E, Bd, C, O>(
            one,
            a,
            w,
            options,
            reads,
            cells,
            room,
            words,
            index_len,
            0,
            0,
        ),
        product_spends::<E, Bd, C, O>(
            other,
            b,
            v,
            options,
            reads,
            cells,
            room,
            words,
            index_len,
            0,
            0,
        ),
    ensures
        one.reads > 0 <==> other.reads > 0,
        one.calls == other.calls,
{
    lemma_ceil_pow2((2 * a.rows) as nat);
    law_charged_per_kind::<E, Bd, C, O>(
        one,
        a,
        w,
        options,
        reads,
        cells,
        room,
        words,
        index_len,
        0,
        0,
    );
    law_charged_per_kind::<E, Bd, C, O>(
        other,
        b,
        v,
        options,
        reads,
        cells,
        room,
        words,
        index_len,
        0,
        0,
    );
}

/// Cells lent for the rows of the activations have each row graded once for the
/// call and not once for each block of columns: they save that many decodes, and
/// change neither the result nor any other work.
pub proof fn law_lent_rows_are_graded_once<
    'a,
    'w,
    'c,
    E: Tabulated,
    Bd: Bound,
    C: Enumerable<E, Bd>,
    O: Output,
    Ep: Epilogue<E, O>,
>(
    before: TabulatedTriple<'a, 'w, 'c, E, Bd, C, O>,
    one: TabulatedTriple<'a, 'w, 'c, E, Bd, C, O>,
    other: TabulatedTriple<'a, 'w, 'c, E, Bd, C, O>,
    epilogue: Ep,
    options: GemmOptions,
    modular: bool,
    local: bool,
    scale: LaneScale,
    map: Option<(Seq<usize>, Seq<usize>)>,
    plan: Plan,
    room: Option<int>,
)
    requires
        before.wf(),
        before.a.rows > 0,
        before.a.cols > 0,
        before.w.rows > 0,
        plan.cols > 0,
        one.is_product_of(before, epilogue, options.encode),
        other.is_product_of(before, epilogue, options.encode),
    ensures
        one.c.held() == other.c.held(),
        ({
            let (m, k, n) = (before.a.rows as int, before.a.cols as int, before.w.rows as int);
            let cells = panel_cells(C::space() as int, C::block() as int);
            let bare = tabulated_work(
                modular,
                options.backend,
                options.host,
                local,
                true,
                before.a,
                before.w,
                scale,
                map,
                plan,
                room,
                cells,
            );
            let lent = tabulated_work(
                modular,
                options.backend,
                options.host,
                local,
                true,
                before.a,
                before.w,
                scale,
                map,
                plan,
                room,
                cells + m * k,
            );
            &&& bare.decodes == lent.decodes + m * k * (ceil_div(n, plan.cols as int) - 1)
            &&& bare.reads == lent.reads
            &&& bare.adds == lent.adds
            &&& bare.multiplies == lent.multiplies
            &&& bare.calls == lent.calls
        }),
{
    law_one_result(before, one, other, epilogue, options.encode);
    let (m, k, n) = (before.a.rows as int, before.a.cols as int, before.w.rows as int);
    let cols = plan.cols as int;
    let blocks = ceil_div(n, cols);
    let cells = panel_cells(C::space() as int, C::block() as int);
    let (space, block) = (C::space() as int, C::block() as int);
    assert(cached_rows(m, k, n, cols, cells, space, block) == 0) by {
        vstd::arithmetic::div_mod::lemma_basic_div(0, k);
    }
    assert(n > cols ==> cached_rows(m, k, n, cols, cells + m * k, space, block) == m) by {
        vstd::arithmetic::div_mod::lemma_div_by_multiple(m, k);
    }
    assert(blocks >= 1 && (n <= cols ==> blocks == 1)) by (nonlinear_arith)
        requires
            blocks == (n + cols - 1) / cols,
            n > 0,
            cols > 0,
    ;
    assert(0 * k == 0 && (m - 0) * k == m * k && (m - m) * k == 0 && 0 * blocks == 0 && m * k
        * blocks == m * k + m * k * (blocks - 1) && m * k >= 0 && m * k * blocks >= 0)
        by (nonlinear_arith)
        requires
            m > 0,
            k > 0,
            blocks >= 1,
    ;
    let once = cached_rows(m, k, n, cols, cells + m * k, space, block);
    assert(projection_tally(m, k, n, cols, 0).decodes == m * k * blocks);
    assert(n > cols ==> projection_tally(m, k, n, cols, once).decodes == m * k);
    assert(n <= cols ==> once == 0);
    assert(blocks == 1 ==> m * k * (blocks - 1) == 0) by (nonlinear_arith);
}

/// What a product without a table costs where its bound is declared and its family
/// takes a dense product into room for one reduction: where every weight and one
/// reduction more have room, and cell by cell is not asked for, every weight is
/// decoded once and one kernel called; and else every cell multiplies at every step,
/// every weight decoded once for its column where a column has room and once for
/// every cell where it has not.
pub proof fn law_dense_costs<E: Tabulated, Bd: Bound>(
    traversal: Traversal,
    cells: int,
    m: int,
    k: int,
    n: int,
)
    requires
        0 <= cells <= usize::MAX,
        0 <= m,
        0 < k,
        0 <= n,
        Bd::bound() < u128::MAX,
        forall|rest: nat, depth: nat| #[trigger] E::takes_dense(rest, depth) <==> depth <= rest,
    ensures
        decline_tally::<E, Bd>(traversal, cells, m, k, n) == (if traversal != Traversal::OutputMajor
            && n * k + k <= cells {
            Tally { multiplies: 0, adds: 0, reads: 0, decodes: (n * k) as nat, calls: 1 }
        } else {
            Tally {
                multiplies: (m * n * k) as nat,
                adds: 0,
                reads: 0,
                decodes: (if k <= cells {
                    n * k
                } else {
                    m * n * k
                }) as nat,
                calls: 0,
            }
        }),
{
    assert(n * k >= 0) by (nonlinear_arith)
        requires
            n >= 0,
            k > 0,
    ;
    assert(E::takes_dense((cells - n * k) as nat, k as nat) <==> k <= (cells - n * k) as nat);
}

} // verus!
