//! A tile of rows of the product, one block of columns after another.
use crate::accumulate::{accumulate_runs, agree, totals_hold};
use crate::arith::{ceil_div, cong, lemma_sum_ext};
use crate::census::Ledger;
use crate::codec::{CodedMatrix, Enumerable};
use crate::dense::{lemma_exact, lemma_product_reach};
use crate::element::{Accumulator, Alphabet, Bound, Element};
use crate::entries::EntrySet;
use crate::envelope::{accumulate_envelopes, region_of};
use crate::epilogue::{EncodeMode, Epilogue, Output};
use crate::family::Tabulated;
use crate::lane::Lane;
use crate::plan::{least, min, Plan};
use crate::scale::LaneScale;
use crate::schedule::{block_work, region_at, row_work};
use crate::sequence::{lemma_cell, Sequence, TableLane, TableSpec};
use crate::sizing::slab_of;
use crate::sources::{set_ready, set_restored, set_room};
use crate::sweep::{present, present_count, seq_of, Sweep};
use crate::table::Table;
use crate::tile::Tile;
use crate::triple::{prior_of, total, TabulatedTriple};
use crate::view::MatView;
use crate::workspace::{block_is_identity, block_start, ColumnMap};
use vstd::arithmetic::power2::pow2;
use vstd::prelude::*;

verus! {

/// Two columns name the same places at every block.
pub open spec fn same_columns<E: Element, Bd: Bound, C: Enumerable<E, Bd>>(
    w: CodedMatrix<'_, E, Bd, C>,
    x: int,
    y: int,
) -> bool {
    forall|p: int|
        0 <= p < w.per_row() ==> C::index(#[trigger] w.code(x, p)) == C::index(w.code(y, p))
}

/// A map of first columns, and of the blocks that repeat nothing, that may be
/// there.
pub open spec fn map_of(map: Option<ColumnMap<'_>>) -> Option<(Seq<usize>, Seq<usize>)> {
    match map {
        Some(m) => Some((m.first@, m.identity@)),
        None => None,
    }
}

/// The map leads column `j` to one in its block that is the same, and that is
/// led to itself.
pub open spec fn leads<E: Element, Bd: Bound, C: Enumerable<E, Bd>>(
    first: Seq<usize>,
    w: CodedMatrix<'_, E, Bd, C>,
    cols: int,
    j: int,
) -> bool {
    let start = block_start(j, cols);
    let at = first[j] as int;
    &&& 0 <= at <= j - start
    &&& first[start + at] == at
    &&& same_columns(w, start + at, j)
}

/// The map leads each column to an equal one of its block that leads to itself,
/// and says of a block that it repeats nothing only where that is so.
pub open spec fn map_sound<E: Element, Bd: Bound, C: Enumerable<E, Bd>>(
    map: Option<(Seq<usize>, Seq<usize>)>,
    w: CodedMatrix<'_, E, Bd, C>,
    cols: int,
) -> bool {
    map matches Some(m) ==> {
        &&& m.0.len() == w.rows
        &&& m.1.len() == ceil_div(w.rows as int, cols)
        &&& forall|j: int| 0 <= j < w.rows ==> #[trigger] leads(m.0, w, cols, j)
        &&& forall|b: int|
            0 <= b < m.1.len() && #[trigger] m.1[b] != 0 ==> block_is_identity(
                m.0,
                cols,
                w.rows as int,
                b,
            )
    }
}

/// The first columns of the block that starts at `col0`, where it repeats any.
pub open spec fn collapsed_at(
    map: Option<(Seq<usize>, Seq<usize>)>,
    plan_cols: int,
    col0: int,
    cols: int,
) -> Option<Seq<usize>> {
    match map {
        Some(m) if m.1[col0 / plan_cols] == 0 => Some(m.0.subrange(col0, col0 + cols)),
        _ => None,
    }
}

/// Columns of block `b` of blocks of `plan_cols`.
pub open spec fn block_width(n: int, plan_cols: int, b: int) -> int {
    least(plan_cols, n - b * plan_cols)
}

/// Equal columns have equal totals.
pub proof fn lemma_same_total<E: Element, Bd: Bound, C: Enumerable<E, Bd>>(
    a: MatView<'_, Alphabet<E, Bd>>,
    w: CodedMatrix<'_, E, Bd, C>,
    i: int,
    x: int,
    y: int,
)
    requires
        w.wf(),
        a.cols == w.cols,
        C::space() > 0,
        0 <= x < w.rows,
        0 <= y < w.rows,
        same_columns(w, x, y),
    ensures
        total(a, w, i, x) == total(a, w, i, y),
{
    let f = |p: int| a.cell(i, p).val() * w.entry(x, p).val();
    let g = |p: int| a.cell(i, p).val() * w.entry(y, p).val();
    assert forall|p: int| 0 <= p < a.cols implies #[trigger] f(p) == g(p) by {
        w.lemma_block(p);
        let (q, t) = (p / C::block() as int, p % C::block() as int);
        w.lemma_code(x, q);
        w.lemma_code(y, q);
        w.codec.names(w.code(x, q), t);
        w.codec.names(w.code(y, q), t);
        assert(C::index(w.code(x, q)) == C::index(w.code(y, q)));
    }
    lemma_sum_ext(f, g, 0, a.cols as int);
}

/// What a lane preserves of a total is all that an encoding looks at.
pub open spec fn faithful<E: Element, O: Output>(precision: int, mode: EncodeMode) -> bool {
    ||| precision == E::Acc::modulus()
    ||| precision > 0 && mode == EncodeMode::Wrapping && precision % (pow2(O::width_bits()) as int)
        == 0
}

/// A total known up to what a faithful lane preserves is finished as the exact
/// total is.
pub proof fn lemma_finished<E: Element, Bd: Bound, C: Enumerable<E, Bd>, O: Output, Ep: Epilogue<
    E,
    O,
>>(
    a: MatView<'_, Alphabet<E, Bd>>,
    w: CodedMatrix<'_, E, Bd, C>,
    i: int,
    j: int,
    acc: E::Acc,
    precision: int,
    epilogue: Ep,
    prior: Option<O>,
    mode: EncodeMode,
)
    requires
        faithful::<E, O>(precision, mode),
        cong(acc.value(), total(a, w, i, j), precision),
    ensures
        epilogue.finished(acc.value(), prior, mode) == epilogue.finished(
            total(a, w, i, j),
            prior,
            mode,
        ),
{
    let f = |p: int| a.cell(i, p).val() * w.entry(j, p).val();
    if precision == E::Acc::modulus() {
        assert forall|p: int| 0 <= p < a.cols implies -(E::reach() * E::reach()) <= #[trigger] f(p)
            <= E::reach() * E::reach() by {
            lemma_product_reach(a.cell(i, p).element(), w.entry(j, p).element());
        }
        lemma_exact::<E>(acc, f, a.cols as int);
    } else {
        let m = pow2(O::width_bits()) as int;
        vstd::arithmetic::power2::lemma_pow2_pos(O::width_bits());
        vstd::arithmetic::div_mod::lemma_fundamental_div_mod(precision, m);
        let c = precision / m;
        assert(c > 0) by (nonlinear_arith)
            requires
                precision == m * c,
                precision > 0,
                m > 0,
        ;
        crate::arith::lemma_cong_coarser(acc.value(), total(a, w, i, j), m, c);
        epilogue.wraps(acc.value(), total(a, w, i, j), prior);
    }
}

/// Copies to every column the totals of the first equal column.
fn spread<A: Copy>(acc: &mut [A], of: &[usize], cols: usize, rows: usize)
    requires
        rows > 0,
        cols <= of@.len(),
        cols * rows <= old(acc)@.len(),
        forall|j: int|
            0 <= j < cols ==> #[trigger] of@[j] <= j && of@[of@[j] as int] == of@[j],
    ensures
        final(acc)@.len() == old(acc)@.len(),
        forall|j: int, i: int|
            #![trigger final(acc)@[j * rows + i]]
            0 <= j < cols && 0 <= i < rows ==> final(acc)@[j * rows + i] == old(acc)@[of@[j] * rows
                + i],
{
    let ghost start = acc@;
    proof {
        assert(acc.len() == acc@.len());
    }
    let mut j: usize = 0;
    while j < cols
        invariant
            rows > 0,
            j <= cols <= of@.len(),
            cols * rows <= acc@.len() <= usize::MAX,
            acc@.len() == start.len(),
            start == old(acc)@,
            forall|x: int|
                0 <= x < cols ==> #[trigger] of@[x] <= x && of@[of@[x] as int] == of@[x],
            forall|x: int, i: int|
                #![trigger acc@[x * rows + i]]
                0 <= x < j && 0 <= i < rows ==> acc@[x * rows + i] == start[of@[x] * rows + i],
            forall|x: int| j * rows <= x < start.len() ==> #[trigger] acc@[x] == start[x],
        decreases cols - j,
    {
        let src: usize = of[j];
        let ghost before = acc@;
        if src != j {
            let mut i: usize = 0;
            while i < rows
                invariant
                    rows > 0,
                    i <= rows,
                    src < j < cols <= of@.len(),
                    src == of@[j as int],
                    of@[src as int] == src,
                    cols * rows <= acc@.len() <= usize::MAX,
                    acc@.len() == before.len() == start.len(),
                    forall|x: int, y: int|
                        #![trigger before[x * rows + y]]
                        0 <= x < j && 0 <= y < rows ==> before[x * rows + y] == start[of@[x] * rows
                            + y],
                    forall|x: int| 0 <= x < j * rows ==> #[trigger] acc@[x] == before[x],
                    forall|x: int|
                        j * rows + i <= x < start.len() ==> #[trigger] acc@[x] == before[x],
                    forall|y: int|
                        #![trigger acc@[j * rows + y]]
                        0 <= y < i ==> acc@[j * rows + y] == start[src * rows + y],
                decreases rows - i,
            {
                proof {
                    lemma_cell(cols as int, rows as int, j as int, i as int);
                    lemma_cell(j as int, rows as int, src as int, i as int);
                    assert(before[src * rows + i] == start[of@[src as int] * rows + i]);
                }
                let ghost last = acc@;
                acc[j * rows + i] = acc[src * rows + i];
                proof {
                    assert forall|y: int|
                        #![trigger acc@[j * rows + y]]
                        0 <= y < i + 1 implies acc@[j * rows + y] == start[src * rows + y] by {
                        if y < i {
                            assert(acc@[j * rows + y] == last[j * rows + y]);
                        }
                    }
                }
                i = i + 1;
            }
        }
        proof {
            assert((j + 1) * rows == j * rows + rows) by (nonlinear_arith);
            assert forall|x: int, i: int|
                #![trigger acc@[x * rows + i]]
                0 <= x < j + 1 && 0 <= i < rows implies acc@[x * rows + i] == start[of@[x] * rows
                + i] by {
                lemma_cell(cols as int, rows as int, x, i);
                if x < j {
                    lemma_cell(j as int, rows as int, x, i);
                    assert(acc@[x * rows + i] == before[x * rows + i]);
                }
            }
        }
        j = j + 1;
    }
}

/// The totals of every column of a block are the exact totals of its cells, as
/// far as a lane preserves them.
pub open spec fn totals_exact<E: Element, Bd: Bound, C: Enumerable<E, Bd>, L: Lane<E>>(
    a: MatView<'_, Alphabet<E, Bd>>,
    w: CodedMatrix<'_, E, Bd, C>,
    acc: Seq<E::Acc>,
    row0: int,
    rows: int,
    col0: int,
    cols: int,
) -> bool {
    forall|j: int, i: int|
        #![trigger acc[j * rows + i]]
        0 <= j < cols && 0 <= i < rows ==> cong(
            acc[j * rows + i].value(),
            total(a, w, row0 + i, col0 + j),
            L::precision(),
        )
}

/// Cell `(i, j)` is finished.
pub open spec fn cell_done<
    'a,
    'w,
    'c,
    E: Element,
    Bd: Bound,
    C: Enumerable<E, Bd>,
    O: Output,
    Ep: Epilogue<E, O>,
>(
    now: TabulatedTriple<'a, 'w, 'c, E, Bd, C, O>,
    before: TabulatedTriple<'a, 'w, 'c, E, Bd, C, O>,
    epilogue: Ep,
    mode: EncodeMode,
    i: int,
    j: int,
) -> bool {
    now.c.cell(i, j) == epilogue.finished(
        before.cell_total(i, j),
        prior_of(epilogue.reads(), before.c.cell(i, j)),
        mode,
    )
}

/// The operands and the window of the output are those of `before`.
pub open spec fn same_operands<'a, 'w, 'c, E: Element, Bd: Bound, C: Enumerable<E, Bd>, O>(
    now: TabulatedTriple<'a, 'w, 'c, E, Bd, C, O>,
    before: TabulatedTriple<'a, 'w, 'c, E, Bd, C, O>,
) -> bool {
    &&& now.wf()
    &&& now.a == before.a
    &&& now.w == before.w
    &&& now.c.same_window(before.c)
}

/// Finishes the cells of a tile and a block of columns from their totals.
fn finish_block<
    'a,
    'w,
    'c,
    E: Tabulated,
    Bd: Bound,
    C: Enumerable<E, Bd>,
    O: Output,
    Ep: Epilogue<E, O>,
    L: Lane<E>,
>(
    triple: &mut TabulatedTriple<'a, 'w, 'c, E, Bd, C, O>,
    epilogue: &Ep,
    mode: EncodeMode,
    acc: &[E::Acc],
    row0: usize,
    rows: usize,
    col0: usize,
    cols: usize,
)
    requires
        old(triple).wf(),
        row0 + rows <= old(triple).a.rows,
        col0 + cols <= old(triple).w.rows,
        rows > 0,
        cols * rows <= acc@.len(),
        faithful::<E, O>(L::precision(), mode),
        totals_exact::<E, Bd, C, L>(
            old(triple).a,
            old(triple).w,
            acc@,
            row0 as int,
            rows as int,
            col0 as int,
            cols as int,
        ),
    ensures
        same_operands(*final(triple), *old(triple)),
        final(final(triple).c.data)@ == final(old(triple).c.data)@,
        forall|i: int, j: int|
            0 <= i < old(triple).a.rows && 0 <= j < old(triple).w.rows ==> if row0 <= i < row0
                + rows && col0 <= j < col0 + cols {
                cell_done(*final(triple), *old(triple), *epilogue, mode, i, j)
            } else {
                (#[trigger] final(triple).c.cell(i, j)) == old(triple).c.cell(i, j)
            },
{
    let reads: bool = epilogue.reads_c();
    let ghost before = *triple;
    proof {
        assert(acc.len() == acc@.len());
    }
    let mut i: usize = 0;
    while i < rows
        invariant
            before == *old(triple),
            before.wf(),
            same_operands(*triple, before),
            final(triple.c.data)@ == final(old(triple).c.data)@,
            row0 + rows <= before.a.rows,
            col0 + cols <= before.w.rows,
            rows > 0,
            cols * rows <= acc@.len() <= usize::MAX,
            faithful::<E, O>(L::precision(), mode),
            totals_exact::<E, Bd, C, L>(
                before.a,
                before.w,
                acc@,
                row0 as int,
                rows as int,
                col0 as int,
                cols as int,
            ),
            reads == epilogue.reads(),
            i <= rows,
            forall|x: int, y: int|
                0 <= x < before.a.rows && 0 <= y < before.w.rows ==> if row0 <= x < row0 + i && col0
                    <= y < col0 + cols {
                    cell_done(*triple, before, *epilogue, mode, x, y)
                } else {
                    (#[trigger] triple.c.cell(x, y)) == before.c.cell(x, y)
                },
        decreases rows - i,
    {
        let mut j: usize = 0;
        while j < cols
            invariant
                before == *old(triple),
                before.wf(),
                same_operands(*triple, before),
                final(triple.c.data)@ == final(old(triple).c.data)@,
                row0 + rows <= before.a.rows,
                col0 + cols <= before.w.rows,
                rows > 0,
                cols * rows <= acc@.len() <= usize::MAX,
                faithful::<E, O>(L::precision(), mode),
                totals_exact::<E, Bd, C, L>(
                    before.a,
                    before.w,
                    acc@,
                    row0 as int,
                    rows as int,
                    col0 as int,
                    cols as int,
                ),
                reads == epilogue.reads(),
                i < rows,
                j <= cols,
                forall|x: int, y: int|
                    0 <= x < before.a.rows && 0 <= y < before.w.rows ==> if (row0 <= x < row0 + i
                        && col0 <= y < col0 + cols) || (x == row0 + i && col0 <= y < col0 + j) {
                        cell_done(*triple, before, *epilogue, mode, x, y)
                    } else {
                        (#[trigger] triple.c.cell(x, y)) == before.c.cell(x, y)
                    },
            decreases cols - j,
        {
            proof {
                lemma_cell(cols as int, rows as int, j as int, i as int);
            }
            let (r, c): (usize, usize) = (row0 + i, col0 + j);
            let prior: Option<O> = if reads {
                Some(*triple.c.at(r, c))
            } else {
                None
            };
            let word: E::Acc = acc[j * rows + i];
            let value: O = epilogue.finish(word, prior, mode);
            proof {
                lemma_finished::<E, Bd, C, O, Ep>(
                    before.a,
                    before.w,
                    r as int,
                    c as int,
                    word,
                    L::precision(),
                    *epilogue,
                    prior,
                    mode,
                );
            }
            triple.c.put(r, c, value);
            j = j + 1;
        }
        i = i + 1;
    }
}

/// Where the block of columns that starts at `col0` ends.
proof fn lemma_block_of(n: int, plan_cols: int, b: int)
    requires
        plan_cols > 0,
        0 <= b,
        b * plan_cols < n,
    ensures
        b < ceil_div(n, plan_cols),
        (b * plan_cols) / plan_cols == b,
        0 < block_width(n, plan_cols, b) <= plan_cols,
        b * plan_cols + block_width(n, plan_cols, b) == n ==> b + 1 == ceil_div(n, plan_cols),
        b * plan_cols + block_width(n, plan_cols, b) < n ==> b * plan_cols + block_width(
            n,
            plan_cols,
            b,
        ) == (b + 1) * plan_cols && b + 1 < ceil_div(n, plan_cols),
{
    let q = ceil_div(n, plan_cols);
    vstd::arithmetic::div_mod::lemma_fundamental_div_mod(n + plan_cols - 1, plan_cols);
    let r = (n + plan_cols - 1) % plan_cols;
    assert(plan_cols * q == q * plan_cols && (b + 1) * plan_cols == b * plan_cols + plan_cols)
        by (nonlinear_arith);
    assert(q * plan_cols >= n && (q - 1) * plan_cols < n) by (nonlinear_arith)
        requires
            n + plan_cols - 1 == q * plan_cols + r,
            0 <= r < plan_cols,
    ;
    assert(b < q) by (nonlinear_arith)
        requires
            q * plan_cols >= n,
            b * plan_cols < n,
            plan_cols > 0,
    ;
    if n <= (b + 1) * plan_cols {
        assert(q <= b + 1) by (nonlinear_arith)
            requires
                (q - 1) * plan_cols < n,
                n <= (b + 1) * plan_cols,
                plan_cols > 0,
        ;
    } else {
        assert(q > b + 1) by (nonlinear_arith)
            requires
                q * plan_cols >= n,
                n > (b + 1) * plan_cols,
                plan_cols > 0,
        ;
    }
    vstd::arithmetic::div_mod::lemma_div_by_multiple(b, plan_cols);
}

/// The first columns of a block lead each of its columns to an equal one that
/// leads to itself.
proof fn lemma_collapsed<E: Element, Bd: Bound, C: Enumerable<E, Bd>>(
    map: Option<(Seq<usize>, Seq<usize>)>,
    w: CodedMatrix<'_, E, Bd, C>,
    plan_cols: int,
    b: int,
)
    requires
        plan_cols > 0,
        0 <= b,
        b * plan_cols < w.rows,
        map_sound(map, w, plan_cols),
    ensures
        ({
            let col0 = b * plan_cols;
            let cols = block_width(w.rows as int, plan_cols, b);
            collapsed_at(map, plan_cols, col0, cols) matches Some(of) ==> of.len() == cols
                && forall|j: int|
                0 <= j < cols ==> {
                    &&& #[trigger] of[j] <= j
                    &&& of[of[j] as int] == of[j]
                    &&& same_columns(w, col0 + of[j], col0 + j)
                }
        }),
{
    let col0 = b * plan_cols;
    let cols = block_width(w.rows as int, plan_cols, b);
    lemma_block_of(w.rows as int, plan_cols, b);
    if collapsed_at(map, plan_cols, col0, cols) is Some {
        let m = map->0;
        let of = m.0.subrange(col0, col0 + cols);
        assert((b + 1) * plan_cols == col0 + plan_cols) by (nonlinear_arith)
            requires
                col0 == b * plan_cols,
        ;
        assert(0 <= col0) by (nonlinear_arith)
            requires
                col0 == b * plan_cols,
                0 <= b,
                plan_cols > 0,
        ;
        assert forall|j: int| 0 <= j < cols implies {
            &&& #[trigger] of[j] <= j
            &&& of[of[j] as int] == of[j]
            &&& same_columns(w, col0 + of[j], col0 + j)
        } by {
            crate::workspace::lemma_block_start(col0 + j, plan_cols, b);
            assert(leads(m.0, w, plan_cols, col0 + j));
            assert(of[j] == m.0[col0 + j]);
            assert(of[of[j] as int] == m.0[col0 + of[j]]);
        }
    }
}

/// The totals of the first columns, copied to their equals, are the exact
/// totals of every column.
proof fn lemma_totals_spread<E: Tabulated, Bd: Bound, C: Enumerable<E, Bd>, L: TableLane<E>>(
    tile: Tile<'_, E, Bd, C>,
    index: Option<Seq<usize>>,
    before: Seq<E::Acc>,
    after: Seq<E::Acc>,
    col0: int,
    cols: int,
)
    requires
        tile.wf(),
        0 <= col0,
        col0 + cols <= tile.w.rows,
        forall|j: int|
            0 <= j < cols && #[trigger] present(index, j) ==> totals_hold::<E, Bd, C, L>(
                tile,
                before,
                j,
                col0 + j,
                tile.blocks(),
            ),
        index is None ==> after == before,
        index matches Some(of) ==> {
            &&& forall|j: int|
                0 <= j < cols ==> {
                    &&& #[trigger] of[j] <= j
                    &&& of[of[j] as int] == of[j]
                    &&& same_columns(tile.w, col0 + of[j], col0 + j)
                }
            &&& forall|j: int, i: int|
                #![trigger after[j * tile.rows + i]]
                0 <= j < cols && 0 <= i < tile.rows ==> after[j * tile.rows + i] == before[of[j]
                    * tile.rows + i]
        },
    ensures
        totals_exact::<E, Bd, C, L>(
            tile.a,
            tile.w,
            after,
            tile.row0 as int,
            tile.rows as int,
            col0,
            cols,
        ),
{
    assert forall|j: int, i: int|
        #![trigger after[j * tile.rows + i]]
        0 <= j < cols && 0 <= i < tile.rows implies cong(
        after[j * tile.rows + i].value(),
        total(tile.a, tile.w, tile.row0 + i, col0 + j),
        L::precision(),
    ) by {
        let src = match index {
            Some(of) => of[j] as int,
            None => j,
        };
        assert(present(index, src));
        assert(totals_hold::<E, Bd, C, L>(tile, before, src, col0 + src, tile.blocks()));
        assert(after[j * tile.rows + i] == before[src * tile.rows + i]);
        tile.lemma_total(i, col0 + src);
        if src != j {
            lemma_same_total(tile.a, tile.w, tile.row0 + i, col0 + src, col0 + j);
        }
    }
}

/// The exact totals of every column of a block.
fn sum_block<E: Tabulated, Bd: Bound, C: Enumerable<E, Bd>, L: TableLane<E>, Lg: Ledger>(
    tile: &Tile<'_, E, Bd, C>,
    sweep: &Sweep<'_, E, Bd, C>,
    spec: &TableSpec,
    scalar_spec: &TableSpec,
    table: &mut Table<'_, L>,
    acts: &mut [E],
    lane: &mut [L],
    exact: &mut [E::Acc],
    entries: &mut Option<EntrySet<'_>>,
    col0: usize,
    cols: usize,
    group: usize,
    plan_depth: usize,
    run_blocks: usize,
    local_envelopes: bool,
    ledger: &mut Lg,
)
    requires
        agree(*tile, *sweep, *old(table)),
        spec.sequence == Sequence::SignMask ==> Bd::bound() <= 1 && E::declared_scale(),
        scalar_spec.sequence == Sequence::SignMask ==> Bd::bound() <= 1 && E::declared_scale(),
        col0 + cols <= tile.w.rows,
        tile.blocks() > 0,
        0 < plan_depth <= old(table).depth,
        tile.block() * tile.rows <= old(acts)@.len(),
        cols * tile.rows <= old(lane)@.len(),
        cols * tile.rows <= old(exact)@.len(),
        set_ready(*old(entries)),
        seq_of(sweep.index) matches Some(of) ==> of.len() >= cols && forall|j: int|
            0 <= j < cols ==> {
                &&& #[trigger] of[j] <= j
                &&& of[of[j] as int] == of[j]
                &&& same_columns(tile.w, col0 + of[j], col0 + j)
            },
        !local_envelopes ==> plan_depth <= run_blocks && (E::run_of(
            L::cap(),
            Bd::bound() as int,
            tile.scale,
        ) matches Some(run) ==> run_blocks * tile.block() <= run),
        local_envelopes ==> {
            &&& E::scales()
            &&& spec.lane_cap < u128::MAX
            &&& spec.lane_cap <= L::envelope()
            &&& forall|scale: LaneScale|
                scale.per_step <= spec.lane_cap ==> #[trigger] E::step_known(scale)
        },
    ensures
        final(table).wf(),
        final(table).same_geometry(*old(table)),
        final(final(table).words)@ == final(old(table).words)@,
        old(table).blank_padding() ==> final(table).blank_padding(),
        final(acts)@.len() == old(acts)@.len(),
        final(lane)@.len() == old(lane)@.len(),
        final(exact)@.len() == old(exact)@.len(),
        set_restored(*final(entries), *old(entries)),
        totals_exact::<E, Bd, C, L>(
            tile.a,
            tile.w,
            final(exact)@,
            tile.row0 as int,
            tile.rows as int,
            col0 as int,
            cols as int,
        ),
        *final(ledger) == old(ledger).charged(
            block_work(
                local_envelopes,
                region_of(*tile, sweep.index, col0, cols, spec.lane_cap),
                *spec,
                *scalar_spec,
                set_room(*old(entries)),
            ),
        ),
{
    let addressed: usize = count_present(sweep.index, cols);
    if local_envelopes {
        accumulate_envelopes(
            tile,
            sweep,
            spec,
            scalar_spec,
            table,
            acts,
            lane,
            exact,
            entries,
            col0,
            cols,
            group,
            addressed,
            ledger,
        );
    } else {
        accumulate_runs(
            tile,
            sweep,
            spec,
            table,
            acts,
            lane,
            exact,
            entries,
            col0,
            cols,
            group,
            plan_depth,
            run_blocks,
            addressed,
            ledger,
        );
    }
    let ghost sums = exact@;
    if let Some(of) = sweep.index {
        spread(exact, of, cols, tile.rows);
    }
    proof {
        lemma_totals_spread::<E, Bd, C, L>(
            *tile,
            seq_of(sweep.index),
            sums,
            exact@,
            col0 as int,
            cols as int,
        );
    }
}

/// Finishes every cell of a tile of rows. The accumulators are left with the
/// totals of the last block of columns.
pub fn row_tile<
    'a,
    'w,
    'c,
    E: Tabulated,
    Bd: Bound,
    C: Enumerable<E, Bd>,
    O: Output,
    Ep: Epilogue<E, O>,
    L: TableLane<E>,
    Lg: Ledger,
>(
    triple: &mut TabulatedTriple<'a, 'w, 'c, E, Bd, C, O>,
    epilogue: &Ep,
    mode: EncodeMode,
    exact: &mut [E::Acc],
    lane: &mut [L],
    table: &mut Table<'_, L>,
    tile: &Tile<'_, E, Bd, C>,
    spec: &TableSpec,
    scalar_spec: &TableSpec,
    acts: &mut [E],
    collapse: Option<ColumnMap<'_>>,
    entries: &mut Option<EntrySet<'_>>,
    plan: Plan,
    local_envelopes: bool,
    group: usize,
    ledger: &mut Lg,
)
    requires
        old(triple).wf(),
        tile.wf(),
        tile.a == old(triple).a,
        tile.w == old(triple).w,
        old(table).wf(),
        old(table).blank_padding(),
        old(table).code_space == C::space(),
        old(table).rows == tile.rows,
        old(table).slab_len() <= u32::MAX,
        slab_of(C::space() as int) > 0,
        0 < plan.depth <= old(table).depth,
        plan.cols > 0,
        spec.sequence == Sequence::SignMask ==> Bd::bound() <= 1 && E::declared_scale(),
        scalar_spec.sequence == Sequence::SignMask ==> Bd::bound() <= 1 && E::declared_scale(),
        faithful::<E, O>(L::precision(), mode),
        tile.blocks() > 0,
        tile.block() * tile.rows <= old(acts)@.len(),
        plan.cols * tile.rows <= old(lane)@.len(),
        plan.cols * tile.rows <= old(exact)@.len(),
        map_sound(map_of(collapse), old(triple).w, plan.cols as int),
        set_ready(*old(entries)),
        !local_envelopes ==> (E::run_of(L::cap(), Bd::bound() as int, tile.scale) matches Some(run)
            ==> tile.block() <= run && plan.depth * tile.block() <= run),
        local_envelopes ==> {
            &&& E::scales()
            &&& spec.lane_cap < u128::MAX
            &&& spec.lane_cap <= L::envelope()
            &&& forall|scale: LaneScale|
                scale.per_step <= spec.lane_cap ==> #[trigger] E::step_known(scale)
        },
    ensures
        same_operands(*final(triple), *old(triple)),
        final(final(triple).c.data)@ == final(old(triple).c.data)@,
        forall|i: int, j: int|
            0 <= i < old(triple).a.rows && 0 <= j < old(triple).w.rows ==> if tile.row0 <= i
                < tile.row0 + tile.rows {
                cell_done(*final(triple), *old(triple), *epilogue, mode, i, j)
            } else {
                (#[trigger] final(triple).c.cell(i, j)) == old(triple).c.cell(i, j)
            },
        final(table).wf(),
        final(table).same_geometry(*old(table)),
        final(final(table).words)@ == final(old(table).words)@,
        final(table).blank_padding(),
        final(acts)@.len() == old(acts)@.len(),
        final(lane)@.len() == old(lane)@.len(),
        final(exact)@.len() == old(exact)@.len(),
        old(triple).w.rows > 0 ==> ({
            let n = old(triple).w.rows as int;
            let last = ceil_div(n, plan.cols as int) - 1;
            totals_exact::<E, Bd, C, L>(
                tile.a,
                tile.w,
                final(exact)@,
                tile.row0 as int,
                tile.rows as int,
                last * plan.cols,
                block_width(n, plan.cols as int, last),
            )
        }),
        set_restored(*final(entries), *old(entries)),
        *final(ledger) == old(ledger).charged(
            row_work(
                local_envelopes,
                old(triple).a,
                old(triple).w,
                tile.scale,
                tile.row0 as int,
                tile.rows as int,
                *spec,
                *scalar_spec,
                map_of(collapse),
                plan.cols as int,
                set_room(*old(entries)),
                ceil_div(old(triple).w.rows as int, plan.cols as int),
            ),
        ),
{
    let n: usize = tile.w.rows;
    let block: usize = C::max_block();
    let codes_per_row: usize = tile.w.codes_per_row();
    let ghost before = *triple;
    let ghost start = *table;
    let ghost begun = *ledger;
    let ghost room = set_room(*entries);
    let ghost map = map_of(collapse);
    let ghost pc = plan.cols as int;
    let ghost mut b: int = 0;
    proof {
        assert forall|x: int| 0 <= x < tile.w.codes@.len() implies C::valid(
            #[trigger] tile.w.codes@[x],
        ) && C::index(tile.w.codes@[x]) < C::space() by {
            tile.w.codec.names(tile.w.codes@[x], 0);
        }
        begun.charges_nothing();
        assert(exact.len() == exact@.len());
        assert(0 * pc == 0);
        if tile.w.rows == 0 {
            vstd::arithmetic::div_mod::lemma_basic_div(pc - 1, pc);
        }
    }
    let run_blocks: usize = match E::lane_run::<L>(Bd::value(), &tile.scale) {
        Some(run) => {
            let q: usize = run / block;
            if q < 1 {
                1
            } else {
                q
            }
        },
        None => usize::MAX,
    };
    proof {
        if let Some(run) = E::run_of(L::cap(), Bd::bound() as int, tile.scale) {
            if !local_envelopes {
                let bi = block as int;
                vstd::arithmetic::div_mod::lemma_fundamental_div_mod(run as int, bi);
                let q = run as int / bi;
                assert(q >= 1 && plan.depth <= q && q * bi <= run) by (nonlinear_arith)
                    requires
                        run as int == bi * q + run as int % bi,
                        0 <= run as int % bi < bi,
                        bi <= run,
                        plan.depth * bi <= run,
                ;
            }
        }
    }
    let stream = C::as_index_stream(tile.w.codes);
    let slab: usize = table.slab();
    let mut col0: usize = 0;
    while col0 < n
        invariant
            n == before.w.rows,
            block == tile.block(),
            codes_per_row == before.w.per_row(),
            before == *old(triple),
            before.wf(),
            start == *old(table),
            begun == *old(ledger),
            room == set_room(*old(entries)),
            room == set_room(*entries),
            map == map_of(collapse),
            pc == plan.cols,
            pc > 0,
            same_operands(*triple, before),
            final(triple.c.data)@ == final(old(triple).c.data)@,
            tile.wf(),
            tile.a == before.a,
            tile.w == before.w,
            table.wf(),
            table.same_geometry(start),
            final(table.words)@ == final(old(table).words)@,
            start.blank_padding() ==> table.blank_padding(),
            slab == start.slab_len(),
            start.code_space == C::space(),
            start.rows == tile.rows,
            start.codes == slab_of(C::space() as int),
            slab <= u32::MAX,
            slab_of(C::space() as int) > 0,
            0 < plan.depth <= start.depth,
            spec.sequence == Sequence::SignMask ==> Bd::bound() <= 1 && E::declared_scale(),
            scalar_spec.sequence == Sequence::SignMask ==> Bd::bound() <= 1 && E::declared_scale(),
            faithful::<E, O>(L::precision(), mode),
            tile.blocks() > 0,
            acts@.len() == old(acts)@.len(),
            lane@.len() == old(lane)@.len(),
            exact@.len() == old(exact)@.len(),
            tile.block() * tile.rows <= acts@.len(),
            pc * tile.rows <= lane@.len(),
            pc * tile.rows <= exact@.len() <= usize::MAX,
            map_sound(map, before.w, pc),
            set_ready(*entries),
            set_restored(*entries, *old(entries)),
            !local_envelopes ==> plan.depth <= run_blocks && (E::run_of(
                L::cap(),
                Bd::bound() as int,
                tile.scale,
            ) matches Some(run) ==> run_blocks * tile.block() <= run),
            local_envelopes ==> {
                &&& E::scales()
                &&& spec.lane_cap < u128::MAX
                &&& spec.lane_cap <= L::envelope()
                &&& forall|scale: LaneScale|
                    scale.per_step <= spec.lane_cap ==> #[trigger] E::step_known(scale)
            },
            forall|x: int|
                0 <= x < before.w.codes@.len() ==> C::valid(#[trigger] before.w.codes@[x])
                    && C::index(before.w.codes@[x]) < C::space(),
            stream is Some ==> {
                &&& stream->0.len() == before.w.codes@.len()
                &&& forall|x: int|
                    0 <= x < before.w.codes@.len() ==> #[trigger] stream->0.at(x) % slab_of(
                        C::space() as int,
                    ) == C::index(before.w.codes@[x])
            },
            col0 <= n,
            0 <= b,
            col0 < n ==> col0 == b * pc,
            col0 == n ==> b == ceil_div(n as int, pc),
            0 < col0 ==> totals_exact::<E, Bd, C, L>(
                tile.a,
                tile.w,
                exact@,
                tile.row0 as int,
                tile.rows as int,
                (b - 1) * pc,
                block_width(n as int, pc, b - 1),
            ),
            forall|i: int, j: int|
                0 <= i < before.a.rows && 0 <= j < before.w.rows ==> if tile.row0 <= i < tile.row0
                    + tile.rows && j < col0 {
                    cell_done(*triple, before, *epilogue, mode, i, j)
                } else {
                    (#[trigger] triple.c.cell(i, j)) == before.c.cell(i, j)
                },
            *ledger == begun.charged(
                row_work(
                    local_envelopes,
                    before.a,
                    before.w,
                    tile.scale,
                    tile.row0 as int,
                    tile.rows as int,
                    *spec,
                    *scalar_spec,
                    map,
                    pc,
                    room,
                    b,
                ),
            ),
        decreases n - col0,
    {
        let cols: usize = min(plan.cols, n - col0);
        proof {
            lemma_block_of(n as int, pc, b);
            lemma_collapsed(map, before.w, pc, b);
            assert(cols * tile.rows <= pc * tile.rows) by (nonlinear_arith)
                requires
                    cols <= pc,
            ;
        }
        let collapsed: Option<&[usize]> = match collapse {
            Some(m) => if m.identity[col0 / plan.cols] == 0 {
                Some(vstd::slice::slice_subrange(m.first, col0, col0 + cols))
            } else {
                None
            },
            None => None,
        };
        let ghost index = seq_of(collapsed);
        assert(index == collapsed_at(map, pc, col0 as int, cols as int));
        let sweep: Sweep<'_, E, Bd, C> = Sweep {
            codes: tile.w.codes,
            stream,
            codes_per_row,
            index: collapsed,
            rows: tile.rows,
            slab,
        };
        assert(sweep.wf());
        assert(agree(*tile, sweep, *table));
        sum_block(
            tile,
            &sweep,
            spec,
            scalar_spec,
            table,
            acts,
            lane,
            exact,
            entries,
            col0,
            cols,
            group,
            plan.depth,
            run_blocks,
            local_envelopes,
            ledger,
        );
        proof {
            let region = region_at(
                before.a,
                before.w,
                tile.scale,
                tile.row0 as int,
                tile.rows as int,
                spec.lane_cap as int,
                map,
                pc,
                b,
            );
            assert(region == region_of(*tile, collapsed, col0, cols, spec.lane_cap));
            begun.charges_compose(
                row_work(
                    local_envelopes,
                    before.a,
                    before.w,
                    tile.scale,
                    tile.row0 as int,
                    tile.rows as int,
                    *spec,
                    *scalar_spec,
                    map,
                    pc,
                    room,
                    b,
                ),
                block_work(local_envelopes, region, *spec, *scalar_spec, room),
            );
        }
        let ghost middle = *triple;
        finish_block::<E, Bd, C, O, Ep, L>(
            triple,
            epilogue,
            mode,
            exact,
            tile.row0,
            tile.rows,
            col0,
            cols,
        );
        proof {
            assert forall|i: int, j: int|
                0 <= i < before.a.rows && 0 <= j < before.w.rows implies if tile.row0 <= i
                < tile.row0 + tile.rows && j < col0 + cols {
                cell_done(*triple, before, *epilogue, mode, i, j)
            } else {
                (#[trigger] triple.c.cell(i, j)) == before.c.cell(i, j)
            } by {
                let _ = middle.c.cell(i, j);
                assert(middle.cell_total(i, j) == before.cell_total(i, j));
            }
            b = b + 1;
        }
        col0 = col0 + cols;
    }
}

/// How many columns are the first of their kind.
fn count_present(collapsed: Option<&[usize]>, cols: usize) -> (r: usize)
    requires
        collapsed is Some ==> collapsed->0@.len() >= cols,
    ensures
        r == present_count(seq_of(collapsed), cols as int),
{
    match collapsed {
        None => {
            proof {
                crate::sweep::lemma_present_all(None, 0, cols as int);
            }
            cols
        },
        Some(of) => {
            let mut count: usize = 0;
            let mut j: usize = 0;
            while j < cols
                invariant
                    j <= cols <= of@.len(),
                    count == present_count(Some(of@), j as int),
                    count <= j,
                decreases cols - j,
            {
                if of[j] == j {
                    count = count + 1;
                }
                j = j + 1;
            }
            count
        },
    }
}

} // verus!
