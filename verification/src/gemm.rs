//! The product, and how much to offer it.
use crate::arith::{ceil_div, div_ceil, sat, sat_mul};
use crate::census::{Census, Ledger, Tally};
use crate::codec::{CodedMatrix, Enumerable};
use crate::collapse::{
    compact, distinct_rows, expand, kinds_known, lemma_same_row_total, rows_kept,
};
use crate::columns::dictionary_words;
use crate::drive::{lane_spends, pass_words, probed, run_lane};
use crate::element::{Alphabet, Bound, Element};
use crate::epilogue::{EncodeMode, Epilogue, Output};
use crate::family::Tabulated;
use crate::lane::Lane;
use crate::plan::{exact_charge, is_selected, is_shared, Plan};
use crate::routes::{decline, decline_tally};
use crate::scratch::{Collapse, Scratch, Tabulation};
use crate::sizing::{slab_of, words_of, Shape};
use crate::stream::{stream, stream_tally};
use crate::tabulate::{Direct, Quotient};
use crate::triple::{total, GemmOptions, TabulatedTriple, Traversal};
use crate::view::{is_cell, lemma_row_major, offset, row_strides, MatView};
use vstd::prelude::*;

verus! {

/// `t` is the work of a product of the rows of `a` as they stand: none over an
/// empty reduction, the dense one where the codes cannot be tabulated or are not
/// to be, and else that of the lane which the output allows.
pub open spec fn rows_spend<E: Tabulated, Bd: Bound, C: Enumerable<E, Bd>, O: Output>(
    t: Tally,
    a: MatView<'_, Alphabet<E, Bd>>,
    w: CodedMatrix<'_, E, Bd, C>,
    options: GemmOptions,
    cells: int,
    room: int,
    words: int,
    index_len: int,
) -> bool {
    if w.cols == 0 {
        t == Tally::none()
    } else if !C::addressable() || C::space() == 0 || options.traversal
        == Traversal::OutputMajor {
        t == decline_tally::<E, Bd>(
            options.traversal,
            cells,
            a.rows as int,
            w.cols as int,
            w.rows as int,
        )
    } else if options.encode == EncodeMode::Wrapping && E::modular(O::width_bits()) {
        lane_spends::<E, Bd, C, E::ModLane, Quotient>(
            t,
            a,
            w,
            options,
            cells,
            room,
            words,
            index_len,
        )
    } else {
        lane_spends::<E, Bd, C, E::Lane, Direct>(t, a, w, options, cells, room, words, index_len)
    }
}

/// The product of `triple`, row by row as they stand.
fn run_rows<
    'a,
    'w,
    'c,
    E: Tabulated,
    Bd: Bound,
    C: Enumerable<E, Bd>,
    O: Output,
    Ep: Epilogue<E, O>,
    Lg: Ledger,
>(
    triple: &mut TabulatedTriple<'a, 'w, 'c, E, Bd, C, O>,
    epilogue: &Ep,
    options: GemmOptions,
    scratch: &mut Scratch<'_, E>,
    words: &mut [i64],
    index: &mut [usize],
    ledger: &mut Lg,
)
    requires
        old(triple).wf(),
        old(triple).a.rows > 0,
        old(triple).w.rows > 0,
    ensures
        final(triple).wf(),
        final(triple).is_product_of(*old(triple), *epilogue, options.encode),
        final(final(triple).c.data)@ == final(old(triple).c.data)@,
        exists|t: Tally|
            *final(ledger) == #[trigger] old(ledger).charged(t) && rows_spend::<E, Bd, C, O>(
                t,
                old(triple).a,
                old(triple).w,
                options,
                old(scratch).cells(),
                old(scratch).room(),
                old(words)@.len() as int,
                old(index)@.len() as int,
            ),
{
    let ghost begun = *ledger;
    let ghost w = triple.w;
    let ghost m = triple.a.rows as int;
    let ghost cells = scratch.cells();
    proof {
        E::family_laws();
    }
    if triple.a.cols == 0 {
        let panel: &mut [E] = scratch.take(0);
        stream(triple, epilogue, options.encode, panel, ledger);
        proof {
            let n = w.rows as int;
            let t = stream_tally(m, 0, n, true);
            assert(m * n * 0 == 0 && n * 0 == 0) by (nonlinear_arith);
            assert(t == Tally::none());
            assert(*ledger == begun.charged(t));
        }
        return;
    }
    let addressable: bool = C::is_addressable() && C::code_space() > 0;
    if !addressable || options.traversal == Traversal::OutputMajor {
        decline(triple, epilogue, options, scratch, ledger);
        proof {
            let t = decline_tally::<E, Bd>(
                options.traversal,
                cells,
                m,
                w.cols as int,
                w.rows as int,
            );
            assert(*ledger == begun.charged(t));
        }
        return;
    }
    if options.encode == EncodeMode::Wrapping && E::modular_table_admitted(O::bits()) {
        proof {
            <E::ModLane as crate::lane::Lane<E>>::laws();
        }
        run_lane::<E, Bd, C, O, Ep, E::ModLane, Quotient, Lg>(
            triple,
            epilogue,
            options,
            scratch,
            words,
            index,
            ledger,
        );
    } else {
        run_lane::<E, Bd, C, O, Ep, E::Lane, Direct, Lg>(
            triple,
            epilogue,
            options,
            scratch,
            words,
            index,
            ledger,
        );
    }
}

/// `kept` are the rows that are walked: one of each kind where equal rows are
/// looked for and found, and the offers hold what that takes; else all of them.
pub open spec fn rows_walked<'t, E: Tabulated, Bd: Bound>(
    kept: MatView<'t, Alphabet<E, Bd>>,
    a: MatView<'t, Alphabet<E, Bd>>,
    reads: bool,
    index_len: int,
    rows_len: int,
) -> bool {
    if !reads && E::collapses_rows() && a.cols > 0 && dictionary_words(a.rows as int)
        <= index_len {
        exists|index: Seq<usize>, kinds: int|
            {
                &&& #[trigger] kinds_known(a, index, kinds)
                &&& if kinds < a.rows && kinds * a.cols <= rows_len {
                    &&& kept.rows == kinds
                    &&& kept.cols == a.cols
                    &&& one_of_each(kept, a, index)
                } else {
                    kept == a
                }
            }
    } else {
        kept == a
    }
}

/// Every row of `a` is the row of `kept` that bears its number.
pub open spec fn one_of_each<'t, E: Tabulated, Bd: Bound>(
    kept: MatView<'t, Alphabet<E, Bd>>,
    a: MatView<'t, Alphabet<E, Bd>>,
    index: Seq<usize>,
) -> bool {
    forall|i: int, p: int|
        0 <= i < a.rows && 0 <= p < a.cols ==> kept.cell(index[i] as int, p).element()
            == (#[trigger] a.cell(i, p)).element()
}

/// `t` is the work of a product.
pub open spec fn product_spends<
    't,
    E: Tabulated,
    Bd: Bound,
    C: Enumerable<E, Bd>,
    O: Output,
>(
    t: Tally,
    a: MatView<'t, Alphabet<E, Bd>>,
    w: CodedMatrix<'t, E, Bd, C>,
    options: GemmOptions,
    reads: bool,
    cells: int,
    room: int,
    words: int,
    index_len: int,
    collapse_index: int,
    collapse_rows: int,
) -> bool {
    if a.rows == 0 || w.rows == 0 {
        t == Tally::none()
    } else {
        exists|kept: MatView<'t, Alphabet<E, Bd>>|
            {
                &&& #[trigger] rows_walked(kept, a, reads, collapse_index, collapse_rows)
                &&& rows_spend::<E, Bd, C, O>(
                    t,
                    kept,
                    w,
                    options,
                    cells,
                    room,
                    words,
                    index_len,
                )
            }
    }
}

/// The rows of a product that is taken of one row of each kind, given back to
/// every row of its kind.
proof fn lemma_expanded<E: Element, Bd: Bound, C: Enumerable<E, Bd>>(
    a: MatView<'_, Alphabet<E, Bd>>,
    kept: MatView<'_, Alphabet<E, Bd>>,
    w: CodedMatrix<'_, E, Bd, C>,
    index: Seq<usize>,
    rows: Seq<Alphabet<E, Bd>>,
    i: int,
    j: int,
)
    requires
        0 <= i < a.rows,
        kept.cols == a.cols,
        kept.origin == 0,
        kept.strides == row_strides(a.cols),
        forall|x: int| 0 <= x < kept.data@.len() ==> #[trigger] kept.data@[x] == rows[x],
        rows_kept(a, index, rows),
        index[i] < kept.rows,
        kept.rows * kept.cols <= kept.data@.len(),
    ensures
        total(a, w, i, j) == total(kept, w, index[i] as int, j),
{
    let x = index[i] as int;
    assert forall|p: int| 0 <= p < a.cols implies (#[trigger] a.cell(i, p)).element() == kept.cell(
        x,
        p,
    ).element() by {
        assert(0 <= x * a.cols + p < kept.rows * a.cols) by (nonlinear_arith)
            requires
                0 <= x < kept.rows,
                0 <= p < a.cols,
        ;
        assert(kept.data.len() == kept.data@.len());
        lemma_row_major(kept.data@.len() as int, kept.rows, kept.cols);
        assert(offset(kept.strides, x, p) == x * a.cols + p);
        assert(kept.data@[x * a.cols + p] == rows[x * a.cols + p]);
    }
    lemma_same_row_total(a, kept, w, i, x, j);
}

/// The product of `triple`.
fn run<
    'a,
    'w,
    'c,
    E: Tabulated,
    Bd: Bound,
    C: Enumerable<E, Bd>,
    O: Output,
    Ep: Epilogue<E, O>,
    Lg: Ledger,
>(
    triple: &mut TabulatedTriple<'a, 'w, 'c, E, Bd, C, O>,
    epilogue: &Ep,
    options: GemmOptions,
    scratch: &mut Scratch<'_, E>,
    lanes: &mut Tabulation<'_>,
    collapse: &mut Collapse<'_, E, Bd>,
    ledger: &mut Lg,
)
    requires
        old(triple).wf(),
    ensures
        final(triple).wf(),
        final(triple).is_product_of(*old(triple), *epilogue, options.encode),
        final(final(triple).c.data)@ == final(old(triple).c.data)@,
        exists|t: Tally|
            *final(ledger) == #[trigger] old(ledger).charged(t) && product_spends::<E, Bd, C, O>(
                t,
                old(triple).a,
                old(triple).w,
                options,
                epilogue.reads(),
                old(scratch).cells(),
                old(scratch).room(),
                old(lanes).lanes@.len() as int,
                old(lanes).index@.len() as int,
                old(collapse).index@.len() as int,
                old(collapse).rows@.len() as int,
            ),
{
    let m: usize = triple.a.rows;
    let k: usize = triple.a.cols;
    let ghost begun = *ledger;
    let ghost a = triple.a;
    let ghost w = triple.w;
    if m == 0 || triple.w.rows == 0 {
        proof {
                begun.charges_nothing();
        }
        return;
    }
    if k > 0 && !epilogue.reads_c() && E::looks_for_equal_rows() {
        if let Some(kinds) = distinct_rows(&triple.a, collapse.index) {
            let ghost numbers = collapse.index@;
            if kinds < m && compact(&triple.a, collapse.index, collapse.rows, kinds) {
                run_kinds(
                    triple,
                    epilogue,
                    options,
                    scratch,
                    lanes.lanes,
                    lanes.index,
                    collapse.index,
                    collapse.rows,
                    kinds,
                    ledger,
                );
                proof {
                    let t = choose|t: Tally|
                        *ledger == #[trigger] begun.charged(t) && kinds_spend::<E, Bd, C, O>(
                            t,
                            a,
                            w,
                            options,
                            numbers,
                            kinds as int,
                            old(scratch).cells(),
                            old(scratch).room(),
                            old(lanes).lanes@.len() as int,
                            old(lanes).index@.len() as int,
                        );
                    let kept = choose|kept: MatView<'_, Alphabet<E, Bd>>|
                        {
                            &&& kept.rows == kinds
                            &&& kept.cols == a.cols
                            &&& #[trigger] one_of_each(kept, a, numbers)
                            &&& rows_spend::<E, Bd, C, O>(
                                t,
                                kept,
                                w,
                                options,
                                old(scratch).cells(),
                                old(scratch).room(),
                                old(lanes).lanes@.len() as int,
                                old(lanes).index@.len() as int,
                            )
                        };
                    assert(kinds_known(a, numbers, kinds as int));
                    assert(rows_walked(
                        kept,
                        a,
                        epilogue.reads(),
                        old(collapse).index@.len() as int,
                        old(collapse).rows@.len() as int,
                    ));
                }
                return;
            }
            proof {
                assert(kinds_known(a, numbers, kinds as int));
            }
        }
    }
    proof {
        assert(rows_walked(
            a,
            a,
            epilogue.reads(),
            old(collapse).index@.len() as int,
            old(collapse).rows@.len() as int,
        ));
    }
    run_rows(triple, epilogue, options, scratch, lanes.lanes, lanes.index, ledger);
}

/// `t` is the work of a product of one row of each kind.
pub open spec fn kinds_spend<'t, E: Tabulated, Bd: Bound, C: Enumerable<E, Bd>, O: Output>(
    t: Tally,
    a: MatView<'t, Alphabet<E, Bd>>,
    w: CodedMatrix<'t, E, Bd, C>,
    options: GemmOptions,
    index: Seq<usize>,
    kinds: int,
    cells: int,
    room: int,
    words: int,
    index_len: int,
) -> bool {
    exists|kept: MatView<'t, Alphabet<E, Bd>>|
        {
            &&& kept.rows == kinds
            &&& kept.cols == a.cols
            &&& #[trigger] one_of_each(kept, a, index)
            &&& rows_spend::<E, Bd, C, O>(t, kept, w, options, cells, room, words, index_len)
        }
}

/// The product of `triple`, taken of one row of each kind.
fn run_kinds<
    'a,
    'w,
    'c,
    E: Tabulated,
    Bd: Bound,
    C: Enumerable<E, Bd>,
    O: Output,
    Ep: Epilogue<E, O>,
    Lg: Ledger,
>(
    triple: &mut TabulatedTriple<'a, 'w, 'c, E, Bd, C, O>,
    epilogue: &Ep,
    options: GemmOptions,
    scratch: &mut Scratch<'_, E>,
    words: &mut [i64],
    index: &mut [usize],
    numbers: &[usize],
    kept: &[Alphabet<E, Bd>],
    kinds: usize,
    ledger: &mut Lg,
)
    requires
        old(triple).wf(),
        old(triple).a.rows > 0,
        old(triple).a.cols > 0,
        old(triple).w.rows > 0,
        !epilogue.reads(),
        kinds < old(triple).a.rows,
        old(triple).a.rows <= numbers@.len(),
        kinds_known(old(triple).a, numbers@, kinds as int),
        kinds * old(triple).a.cols <= kept@.len(),
        rows_kept(old(triple).a, numbers@, kept@),
        forall|x: int| 0 <= x < kinds * old(triple).a.cols ==> (#[trigger] kept@[x]).inv(),
    ensures
        final(triple).wf(),
        final(triple).is_product_of(*old(triple), *epilogue, options.encode),
        final(final(triple).c.data)@ == final(old(triple).c.data)@,
        exists|t: Tally|
            *final(ledger) == #[trigger] old(ledger).charged(t) && kinds_spend::<E, Bd, C, O>(
                t,
                old(triple).a,
                old(triple).w,
                options,
                numbers@,
                kinds as int,
                old(scratch).cells(),
                old(scratch).room(),
                old(words)@.len() as int,
                old(index)@.len() as int,
            ),
{
    let k: usize = triple.a.cols;
    let ghost a = triple.a;
    let ghost w = triple.w;
    let ghost before = triple.c.data@;
    let ghost (rows, cols, strides) = (triple.c.rows as int, triple.c.cols as int, triple.c.strides);
    let ghost origin = triple.c.origin as int;
    proof {
        assert(kept.len() == kept@.len());
        assert(numbers@[0] < kinds);
    }
    let a_kept: MatView<'_, Alphabet<E, Bd>> = match MatView::row_major(kept, kinds, k) {
        Some(view) => view,
        None => {
            proof {
                assert(false);
            }
            return;
        },
    };
    let ghost ga = a_kept;
    let ghost mut mid = before;
    proof {
        assert forall|i: int, p: int| 0 <= i < a.rows && 0 <= p < a.cols implies ga.cell(
            numbers@[i] as int,
            p,
        ).element() == (#[trigger] a.cell(i, p)).element() by {
            let x = numbers@[i] as int;
            assert(x < kinds);
            assert(ga.cell(x, p) == kept@[x * k + p]);
        }
        assert(one_of_each(ga, a, numbers@));
        assert forall|i: int, p: int| 0 <= i < kinds && 0 <= p < k implies (#[trigger] ga.cell(
            i,
            p,
        )).inv() by {
            assert(0 <= i * k + p < kinds * k) by (nonlinear_arith)
                requires
                    0 <= i < kinds,
                    0 <= p < k,
            ;
            assert(ga.cell(i, p) == kept@[i * k + p]);
        }
    }
    {
        let c = match triple.c.top_rows(kinds) {
            Some(view) => view,
            None => {
                proof {
                    assert(false);
                }
                return;
            },
        };
        let mut compacted = match TabulatedTriple::new(a_kept, triple.w, c) {
            Ok(compacted) => compacted,
            Err(_) => {
                proof {
                    assert(false);
                }
                return;
            },
        };
        run_rows(&mut compacted, epilogue, options, scratch, words, index, ledger);
        proof {
            mid = compacted.c.data@;
            assert forall|i: int, j: int| 0 <= i < kinds && 0 <= j < cols implies mid[origin
                + #[trigger] offset(strides, i, j)] == epilogue.finished(total(ga, w, i, j), None, options.encode) by {
                let _ = compacted.c.cell(i, j);
            }
            assert forall|at: int| 0 <= at < mid.len() && !is_cell(
                rows,
                cols,
                origin,
                strides,
                at,
            ) implies #[trigger] mid[at] == before[at] by {
                if is_cell(kinds as int, cols, origin, strides, at) {
                    let (i, j) = choose|i: int, j: int|
                        0 <= i < kinds && 0 <= j < cols && origin + #[trigger] offset(
                            strides,
                            i,
                            j,
                        ) == at;
                    assert(0 <= i < rows && 0 <= j < cols && origin + offset(strides, i, j) == at);
                }
            }
        }
    }
    assert(triple.c.data@ == mid);
    expand(&mut triple.c, numbers);
    proof {
        let after = triple.c;
        assert forall|i: int, j: int| 0 <= i < rows && 0 <= j < cols implies #[trigger] after.cell(
            i,
            j,
        ) == epilogue.finished(total(a, w, i, j), None, options.encode) by {
            lemma_expanded(a, ga, w, numbers@, kept@, i, j);
            let _ = offset(strides, numbers@[i] as int, j);
        }
    }
}

/// Finishes every cell of the output from the exact product of activations and
/// coded weights. What is on offer decides the route and never the result.
pub fn gemm_tabulated<
    'a,
    'w,
    'c,
    E: Tabulated,
    Bd: Bound,
    C: Enumerable<E, Bd>,
    O: Output,
    Ep: Epilogue<E, O>,
>(
    triple: &mut TabulatedTriple<'a, 'w, 'c, E, Bd, C, O>,
    epilogue: &Ep,
    options: GemmOptions,
    scratch: &mut Scratch<'_, E>,
    lanes: &mut Tabulation<'_>,
    collapse: &mut Collapse<'_, E, Bd>,
)
    requires
        old(triple).wf(),
    ensures
        final(triple).wf(),
        final(triple).is_product_of(*old(triple), *epilogue, options.encode),
        final(final(triple).c.data)@ == final(old(triple).c.data)@,
{
    let mut ledger: () = ();
    run(triple, epilogue, options, scratch, lanes, collapse, &mut ledger);
}

/// The same product, with its work entered in a census.
pub fn gemm_tabulated_counted<
    'a,
    'w,
    'c,
    E: Tabulated,
    Bd: Bound,
    C: Enumerable<E, Bd>,
    O: Output,
    Ep: Epilogue<E, O>,
>(
    triple: &mut TabulatedTriple<'a, 'w, 'c, E, Bd, C, O>,
    epilogue: &Ep,
    options: GemmOptions,
    scratch: &mut Scratch<'_, E>,
    lanes: &mut Tabulation<'_>,
    collapse: &mut Collapse<'_, E, Bd>,
    census: &mut Census,
)
    requires
        old(triple).wf(),
    ensures
        final(triple).wf(),
        final(triple).is_product_of(*old(triple), *epilogue, options.encode),
        final(final(triple).c.data)@ == final(old(triple).c.data)@,
        exists|t: Tally|
            *final(census) == #[trigger] old(census).charged(t) && product_spends::<E, Bd, C, O>(
                t,
                old(triple).a,
                old(triple).w,
                options,
                epilogue.reads(),
                old(scratch).cells(),
                old(scratch).room(),
                old(lanes).lanes@.len() as int,
                old(lanes).index@.len() as int,
                old(collapse).index@.len() as int,
                old(collapse).rows@.len() as int,
            ),
{
    run(triple, epilogue, options, scratch, lanes, collapse, census);
}

/// The pass that unlimited offers get.
pub open spec fn intended<E: Tabulated, Bd: Bound>(
    plan: Option<Plan>,
    space: int,
    shape: Shape,
    block: int,
) -> bool {
    let width = <E::Lane as Lane<E>>::width() as int;
    let probe = probed::<E, E::Lane>(Bd::bound() as int);
    if E::lane_exact() {
        is_shared(
            plan,
            space,
            shape,
            width,
            usize::MAX as int,
            E::acc_width() as int / width,
            block,
            probe,
        )
    } else {
        is_selected(
            plan,
            space,
            shape,
            width,
            usize::MAX as int,
            usize::MAX as int,
            block,
            probe,
        )
    }
}

/// Narrow words that the lanes of a pass take.
pub open spec fn lane_words_of<E: Tabulated>(plan: Plan, space: int) -> int {
    ceil_div(
        sat(pass_words(plan, space) * <E::Lane as Lane<E>>::width()) as int,
        8,
    )
}

/// Accumulators that a pass takes.
pub open spec fn totals_of<E: Tabulated>(plan: Plan, space: int) -> int {
    if E::lane_exact() {
        exact_charge(
            space,
            plan.rows as int,
            plan.cols as int,
            plan.depth as int,
            E::acc_width() as int / <E::Lane as Lane<E>>::width() as int,
        )
    } else {
        plan.rows * plan.cols
    }
}

/// Narrow words to offer for the deepest pass that the caches take; none where
/// lanes are read out of the accumulators.
pub fn suggested_tabulation_lanes<E: Tabulated, Bd: Bound>(
    shape: Shape,
    code_space: usize,
    block: usize,
) -> (r: usize)
    ensures
        E::lane_exact() ==> r == 0,
        !E::lane_exact() ==> exists|plan: Option<Plan>|
            {
                &&& #[trigger] intended::<E, Bd>(plan, code_space as int, shape, block as int)
                &&& r == (match plan {
                    None => 0,
                    Some(plan) => lane_words_of::<E>(plan, code_space as int),
                })
            },
{
    if E::lane_is_exact() {
        return 0;
    }
    let lane_bytes: usize = <E::Lane as Lane<E>>::bytes();
    let plan: Option<Plan> = Plan::select(
        code_space,
        shape,
        lane_bytes,
        usize::MAX,
        usize::MAX,
        block,
        E::probe_capacity::<E::Lane>(Bd::value()),
    );
    assert(intended::<E, Bd>(plan, code_space as int, shape, block as int));
    match plan {
        None => 0,
        Some(plan) => {
            let words: usize = plan.lane_words(code_space);
            proof {
                lemma_words(plan, code_space as int);
            }
            div_ceil(sat_mul(words, lane_bytes), 8)
        },
    }
}

/// Accumulators to offer for the whole width of the output.
pub fn suggested_tabulation<E: Tabulated, Bd: Bound>(
    shape: Shape,
    code_space: usize,
    block: usize,
) -> (r: usize)
    ensures
        exists|plan: Option<Plan>|
            {
                &&& #[trigger] intended::<E, Bd>(plan, code_space as int, shape, block as int)
                &&& r == (match plan {
                    None => 0,
                    Some(plan) => totals_of::<E>(plan, code_space as int),
                })
            },
{
    let lane_bytes: usize = <E::Lane as Lane<E>>::bytes();
    let lane_capacity: Option<usize> = E::probe_capacity::<E::Lane>(Bd::value());
    proof {
        E::offer_laws(false, 0, 0);
    }
    if E::lane_is_exact() {
        let per_word: usize = E::acc_bytes() / lane_bytes;
        let plan: Option<Plan> = Plan::choose_shared_exact(
            code_space,
            shape,
            lane_bytes,
            usize::MAX,
            per_word,
            block,
            lane_capacity,
        );
        assert(intended::<E, Bd>(plan, code_space as int, shape, block as int));
        match plan {
            None => 0,
            Some(plan) => match plan.shared_exact_charge(code_space, per_word) {
                Some(charge) => charge,
                None => usize::MAX,
            },
        }
    } else {
        let plan: Option<Plan> = Plan::select(
            code_space,
            shape,
            lane_bytes,
            usize::MAX,
            usize::MAX,
            block,
            lane_capacity,
        );
        assert(intended::<E, Bd>(plan, code_space as int, shape, block as int));
        match plan {
            None => 0,
            Some(plan) => plan.rows * plan.cols,
        }
    }
}

proof fn lemma_words(plan: Plan, space: int)
    requires
        slab_of(space) > 0,
        pass_words(plan, space) <= usize::MAX,
    ensures
        sat(plan.rows * plan.cols + words_of(space, plan.rows as int, plan.depth as int))
            == pass_words(plan, space),
{
    let (slab, rows, cols, depth) = (
        slab_of(space),
        plan.rows as int,
        plan.cols as int,
        plan.depth as int,
    );
    assert(0 <= rows * cols && 0 <= slab * rows * depth) by (nonlinear_arith)
        requires
            slab > 0,
            rows >= 0,
            cols >= 0,
            depth >= 0,
    ;
}

} // verus!
