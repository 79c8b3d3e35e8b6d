//! The routes of a product that is not tabulated: packed, paged and streamed.
use crate::arith::lemma_sum_ext;
use crate::census::{enter_decoded, Ledger, Tally};
use crate::codec::{CodedMatrix, Enumerable};
use crate::dense::{dense_terms, dense_total};
use crate::element::{Bound, Element};
use crate::epilogue::{EncodeMode, Epilogue, Output};
use crate::family::Tabulated;
use crate::paged::{atlas_stream_route, page_of, paged_tally};
use crate::plan::least;
use crate::rows::same_operands;
use crate::scratch::Scratch;
use crate::sequence::lemma_cell;
use crate::stream::{stream, stream_tally};
use crate::triple::{prior_of, GemmOptions, TabulatedTriple, Traversal};
use crate::view::{offset, MatView, Strides};
use vstd::prelude::*;

verus! {

/// A panel of whole columns holds the weights.
pub open spec fn columns_held<E: Element, Bd: Bound, C: Enumerable<E, Bd>>(
    panel: Seq<E>,
    w: CodedMatrix<'_, E, Bd, C>,
    n: int,
) -> bool {
    forall|j: int, p: int|
        #![trigger panel[j * w.cols + p]]
        0 <= j < n && 0 <= p < w.cols ==> panel[j * w.cols + p] == w.entry(j, p).element()
}

/// The room for one reduction that a packed product asks for is there.
pub open spec fn packs(cells: int, k: int, n: int) -> bool {
    n * k <= usize::MAX && n * k <= cells && cells - n * k >= k
}

/// The work of a packed product: every weight decoded once, one kernel call.
pub open spec fn packed_tally(cells: int, k: int, n: int) -> Tally {
    if packs(cells, k, n) {
        Tally::decoding((n * k) as nat).plus(Tally::calling(1))
    } else {
        Tally::none()
    }
}

/// The product of whole decoded columns, where there is room for them and for
/// one reduction beside; otherwise nothing is touched.
pub fn packed_route<
    'a,
    'w,
    'c,
    E: Tabulated,
    Bd: Bound,
    C: Enumerable<E, Bd>,
    O: Output,
    Ep: Epilogue<E, O>,
    Lg: Ledger,
>(
    triple: &mut TabulatedTriple<'a, 'w, 'c, E, Bd, C, O>,
    epilogue: &Ep,
    options: GemmOptions,
    scratch: &mut Scratch<'_, E>,
    ledger: &mut Lg,
) -> (r: bool)
    requires
        old(triple).wf(),
    ensures
        final(triple).wf(),
        ({
            let (k, n) = (old(triple).a.cols as int, old(triple).w.rows as int);
            r == (packs(old(scratch).cells(), k, n) && E::takes_dense(
                (old(scratch).cells() - n * k) as nat,
                k as nat,
            ))
        }),
        r ==> final(triple).is_product_of(*old(triple), *epilogue, options.encode),
        !r ==> same_operands(*final(triple), *old(triple)) && final(triple).c.data@
            == old(triple).c.data@,
        final(final(triple).c.data)@ == final(old(triple).c.data)@,
        final(scratch).cells() == old(scratch).cells(),
        final(scratch).room() == old(scratch).room(),
        *final(ledger) == old(ledger).charged(
            packed_tally(
                old(scratch).cells(),
                old(triple).a.cols as int,
                old(triple).w.rows as int,
            ),
        ),
{
    let (k, n): (usize, usize) = (triple.a.cols, triple.w.rows);
    let ghost before = *triple;
    let ghost begun = *ledger;
    let ghost cells = scratch.cells();
    proof {
        begun.charges_nothing();
        assert(scratch.panel.len() == scratch.panel@.len());
        assert(n * k >= 0) by (nonlinear_arith);
    }
    let want: usize = match n.checked_mul(k) {
        None => {
            return false;
        },
        Some(want) => want,
    };
    let (panel, rest) = scratch.split_panel(want);
    if panel.len() < want || rest.len() < k {
        return false;
    }
    let mut j: usize = 0;
    while j < n
        invariant
            before.wf(),
            *triple == before,
            k == before.w.cols,
            n == before.w.rows,
            want == n * k,
            panel@.len() == want,
            j <= n,
            columns_held(panel@, before.w, j as int),
        decreases n - j,
    {
        proof {
            assert(0 <= j * k && j * k + k <= n * k) by (nonlinear_arith)
                requires
                    j + 1 <= n,
                    0 <= k,
            ;
        }
        let ghost last = panel@;
        {
            let (_, tail) = panel.split_at_mut(j * k);
            triple.w.decode_row_into(j, tail);
        }
        proof {
            let ki = k as int;
            assert forall|x: int, p: int|
                #![trigger panel@[x * ki + p]]
                0 <= x < j + 1 && 0 <= p < ki implies panel@[x * ki + p] == before.w.entry(
                x,
                p,
            ).element() by {
                lemma_cell(n as int, ki, x, p);
                if x < j {
                    lemma_cell(j as int, ki, x, p);
                    assert(panel@[x * ki + p] == last[x * ki + p]);
                } else {
                    assert(panel@.subrange(j * ki, panel@.len() as int)[p] == panel@[j * ki + p]);
                }
            }
        }
        j = j + 1;
    }
    enter_decoded(ledger, n, k);
    let b: MatView<'_, E> = MatView {
        data: &*panel,
        rows: k,
        cols: n,
        origin: 0,
        strides: Strides::row_major(k).transposed(),
    };
    proof {
        if k > 0 && n > 0 {
            assert((k - 1) * 1 + (n - 1) * k == n * k - 1) by (nonlinear_arith);
        }
        assert(b.wf());
        begun.charges_compose(Tally::decoding((n * k) as nat), Tally::calling(1));
    }
    ledger.kernelled();
    let ran: bool = E::dense_gemm(&triple.a, &b, &mut triple.c, epilogue, options, rest);
    proof {
        if ran {
            assert forall|i: int, y: int| 0 <= i < before.a.rows && 0 <= y < n implies dense_total(
                before.a,
                b,
                i,
                y,
            ) == #[trigger] before.cell_total(i, y) by {
                let f = dense_terms(before.a, b, i, y);
                let g = |p: int| before.a.cell(i, p).val() * before.w.entry(y, p).val();
                assert forall|p: int| 0 <= p < k implies #[trigger] f(p) == g(p) by {
                    assert(offset(b.strides, p, y) == y * k + p);
                    assert(panel@[y * k + p] == before.w.entry(y, p).element());
                }
                lemma_sum_ext(f, g, 0, k as int);
            }
            assert forall|i: int, y: int|
                0 <= i < before.a.rows && 0 <= y < before.w.rows implies #[trigger] triple.c.cell(
                i,
                y,
            ) == epilogue.finished(
                before.cell_total(i, y),
                prior_of(epilogue.reads(), before.c.cell(i, y)),
                options.encode,
            ) by {
                assert(dense_total(before.a, b, i, y) == before.cell_total(i, y));
            }
        }
    }
    ran
}

/// The work of a product that is not tabulated, `m` by `k` by `n`, with `cells`
/// cells lent.
pub open spec fn decline_tally<E: Tabulated, Bd: Bound>(
    traversal: Traversal,
    cells: int,
    m: int,
    k: int,
    n: int,
) -> Tally {
    let packing = traversal != Traversal::OutputMajor;
    let packed = if packing {
        packed_tally(cells, k, n)
    } else {
        Tally::none()
    };
    let panel = least(k, cells);
    let open = Bd::bound() == u128::MAX && k > 0;
    let paged = if open {
        paged_tally(m, k, n, page_of(panel), E::takes_dense(0, 1))
    } else {
        Tally::none()
    };
    if packing && packs(cells, k, n) && E::takes_dense((cells - n * k) as nat, k as nat) {
        packed
    } else if open && E::takes_dense(0, 1) {
        packed.plus(paged)
    } else {
        packed.plus(paged).plus(stream_tally(m, k, n, panel >= k))
    }
}

/// A product of an unchanged output is a product of the output as it was.
proof fn lemma_product_after<
    'a,
    'w,
    'c,
    E: Tabulated,
    Bd: Bound,
    C: Enumerable<E, Bd>,
    O: Output,
    Ep: Epilogue<E, O>,
>(
    now: TabulatedTriple<'a, 'w, 'c, E, Bd, C, O>,
    middle: TabulatedTriple<'a, 'w, 'c, E, Bd, C, O>,
    before: TabulatedTriple<'a, 'w, 'c, E, Bd, C, O>,
    epilogue: Ep,
    mode: EncodeMode,
)
    requires
        same_operands(middle, before),
        middle.c.data@ == before.c.data@,
        now.is_product_of(middle, epilogue, mode),
    ensures
        now.is_product_of(before, epilogue, mode),
{
    assert forall|i: int, j: int|
        0 <= i < before.a.rows && 0 <= j < before.w.rows implies #[trigger] now.c.cell(i, j)
        == epilogue.finished(
        before.cell_total(i, j),
        prior_of(epilogue.reads(), before.c.cell(i, j)),
        mode,
    ) by {
        assert(middle.cell_total(i, j) == before.cell_total(i, j));
        assert(middle.c.cell(i, j) == before.c.cell(i, j));
    }
    assert forall|at: int|
        0 <= at < now.c.data@.len() && !before.c.owns(at) implies #[trigger] now.c.data@[at]
        == before.c.data@[at] by {
        assert(!middle.c.owns(at));
    }
}

/// Finishes the product without a table: packed where there is room and the
/// family takes it, then through the family's dense stream where no bound is
/// declared, and otherwise cell by cell.
pub fn decline<
    'a,
    'w,
    'c,
    E: Tabulated,
    Bd: Bound,
    C: Enumerable<E, Bd>,
    O: Output,
    Ep: Epilogue<E, O>,
    Lg: Ledger,
>(
    triple: &mut TabulatedTriple<'a, 'w, 'c, E, Bd, C, O>,
    epilogue: &Ep,
    options: GemmOptions,
    scratch: &mut Scratch<'_, E>,
    ledger: &mut Lg,
)
    requires
        old(triple).wf(),
        old(triple).a.rows > 0,
        old(triple).w.rows > 0,
    ensures
        final(triple).wf(),
        final(triple).is_product_of(*old(triple), *epilogue, options.encode),
        final(final(triple).c.data)@ == final(old(triple).c.data)@,
        *final(ledger) == old(ledger).charged(
            decline_tally::<E, Bd>(
                options.traversal,
                old(scratch).cells(),
                old(triple).a.rows as int,
                old(triple).a.cols as int,
                old(triple).w.rows as int,
            ),
        ),
{
    let ghost before = *triple;
    let ghost begun = *ledger;
    let ghost cells = scratch.cells();
    let ghost (m, k, n) = (triple.a.rows as int, triple.a.cols as int, triple.w.rows as int);
    let ghost packed = if options.traversal != Traversal::OutputMajor {
        packed_tally(cells, k, n)
    } else {
        Tally::none()
    };
    proof {
        begun.charges_nothing();
    }
    if options.traversal != Traversal::OutputMajor {
        let ran: bool = packed_route(triple, epilogue, options, scratch, ledger);
        if ran {
            return;
        }
    }
    let depth: usize = triple.a.cols;
    let ghost middle = *triple;
    let panel = scratch.take(depth);
    let ghost paged = if Bd::bound() == u128::MAX && k > 0 {
        paged_tally(m, k, n, page_of(least(k, cells)), E::takes_dense(0, 1))
    } else {
        Tally::none()
    };
    let ghost streamed = stream_tally(m, k, n, least(k, cells) >= k);
    let ran: bool = atlas_stream_route(triple, epilogue, options, panel, ledger);
    proof {
        begun.charges_compose(packed, paged);
        begun.charges_compose(packed.plus(paged), streamed);
    }
    if ran {
        proof {
            lemma_product_after(*triple, middle, before, *epilogue, options.encode);
        }
        return;
    }
    let ghost third = *triple;
    stream(triple, epilogue, options.encode, panel, ledger);
    proof {
        lemma_product_after(*triple, third, before, *epilogue, options.encode);
    }
}

} // verus!
