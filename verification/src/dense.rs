//! Dense products of exact accumulators.
use crate::arith::{
    cong, lemma_cong_add, lemma_cong_close, lemma_cong_refl, lemma_cong_trans, lemma_sum_bound, sum,
};
use crate::element::{Accumulator, Alphabet, Bound, Element};
use crate::epilogue::{EncodeMode, Epilogue, Output};
use crate::triple::prior_of;
use crate::view::{MatView, MatViewMut};
use vstd::prelude::*;

verus! {

/// The products of row `i` of `a` with column `j` of `b`.
pub open spec fn dense_terms<E: Element, Bd: Bound>(
    a: MatView<'_, Alphabet<E, Bd>>,
    b: MatView<'_, E>,
    i: int,
    j: int,
) -> spec_fn(int) -> int {
    |p: int| a.cell(i, p).val() * b.cell(p, j).val()
}

/// The exact total of row `i` of `a` with column `j` of `b`.
pub open spec fn dense_total<E: Element, Bd: Bound>(
    a: MatView<'_, Alphabet<E, Bd>>,
    b: MatView<'_, E>,
    i: int,
    j: int,
) -> int {
    sum(dense_terms(a, b, i, j), 0, a.cols as int)
}

/// A product of elements is within the square of the reach.
pub proof fn lemma_product_reach<E: Element>(x: E, y: E)
    ensures
        -(E::reach() * E::reach()) <= x.val() * y.val() <= E::reach() * E::reach(),
{
    x.bounded();
    y.bounded();
    let (u, v, r) = (x.val(), y.val(), E::reach() as int);
    assert(-(r * r) <= u * v <= r * r) by (nonlinear_arith)
        requires
            -r <= u <= r,
            -r <= v <= r,
    ;
}

/// A total congruent to a reduction of at most `usize::MAX` products is that
/// reduction.
pub proof fn lemma_exact<E: Element>(acc: E::Acc, f: spec_fn(int) -> int, k: int)
    requires
        0 <= k <= usize::MAX,
        forall|p: int|
            0 <= p < k ==> -(E::reach() * E::reach()) <= #[trigger] f(p) <= E::reach() * E::reach(),
        cong(acc.value(), sum(f, 0, k), E::Acc::modulus()),
    ensures
        acc.value() == sum(f, 0, k),
{
    let square = (E::reach() * E::reach()) as int;
    lemma_sum_bound(f, 0, k, square);
    E::roomy();
    acc.ranged();
    assert(0 <= square) by (nonlinear_arith)
        requires
            square == E::reach() * E::reach(),
    ;
    assert(k * square <= usize::MAX * square) by (nonlinear_arith)
        requires
            k <= usize::MAX,
            0 <= square,
    ;
    lemma_cong_close(acc.value(), sum(f, 0, k), E::Acc::modulus());
}

/// Adds one product to a total that a partial sum is known of.
pub fn mac_step<E: Element>(
    acc: &mut E::Acc,
    a: E,
    b: E,
    Ghost(f): Ghost<spec_fn(int) -> int>,
    Ghost(p): Ghost<int>,
)
    requires
        0 <= p,
        cong(old(acc).value(), sum(f, 0, p), E::Acc::modulus()),
        f(p) == a.val() * b.val(),
    ensures
        cong(final(acc).value(), sum(f, 0, p + 1), E::Acc::modulus()),
{
    let ghost before = *acc;
    E::mac(acc, a, b);
    proof {
        before.ranged();
        let m = E::Acc::modulus();
        lemma_cong_refl(f(p), m);
        lemma_cong_add(before.value(), sum(f, 0, p), f(p), f(p), m);
        lemma_cong_trans(acc.value(), before.value() + f(p), sum(f, 0, p) + f(p), m);
        assert(sum(f, 0, p + 1) == sum(f, 0, p) + f(p));
    }
}

/// The exact total of one cell.
pub fn dense_dot<E: Element, Bd: Bound>(
    a: &MatView<'_, Alphabet<E, Bd>>,
    b: &MatView<'_, E>,
    i: usize,
    j: usize,
) -> (acc: E::Acc)
    requires
        a.wf(),
        b.wf(),
        a.cols == b.rows,
        i < a.rows,
        j < b.cols,
    ensures
        acc.value() == dense_total(*a, *b, i as int, j as int),
{
    let mut acc: E::Acc = <E::Acc as Accumulator>::zero();
    let ghost f = dense_terms(*a, *b, i as int, j as int);
    let mut p: usize = 0;
    proof {
        acc.ranged();
        lemma_cong_refl(0, E::Acc::modulus());
    }
    while p < a.cols
        invariant
            a.wf(),
            b.wf(),
            a.cols == b.rows,
            i < a.rows,
            j < b.cols,
            p <= a.cols,
            f == dense_terms(*a, *b, i as int, j as int),
            cong(acc.value(), sum(f, 0, p as int), E::Acc::modulus()),
        decreases a.cols - p,
    {
        let x: E = a.at(i, p).get();
        let y: E = *b.at(p, j);
        mac_step::<E>(&mut acc, x, y, Ghost(f), Ghost(p as int));
        p = p + 1;
    }
    proof {
        assert forall|q: int| 0 <= q < a.cols implies -(E::reach() * E::reach()) <= #[trigger] f(q)
            <= E::reach() * E::reach() by {
            lemma_product_reach(a.cell(i as int, q).element(), b.cell(q, j as int));
        }
        lemma_exact::<E>(acc, f, a.cols as int);
    }
    acc
}

/// Finishes every cell of `c` from the exact product of `a` and `b`.
pub fn gemm_packed<E: Element, Bd: Bound, O: Output, Ep: Epilogue<E, O>>(
    a: &MatView<'_, Alphabet<E, Bd>>,
    b: &MatView<'_, E>,
    c: &mut MatViewMut<'_, O>,
    epilogue: &Ep,
    mode: EncodeMode,
)
    requires
        a.wf(),
        b.wf(),
        old(c).wf(),
        old(c).apart(),
        a.cols == b.rows,
        old(c).rows == a.rows,
        old(c).cols == b.cols,
    ensures
        final(c).wf(),
        final(c).same_window(*old(c)),
        final(final(c).data)@ == final(old(c).data)@,
        forall|i: int, j: int|
            0 <= i < a.rows && 0 <= j < b.cols ==> #[trigger] final(c).cell(i, j)
                == epilogue.finished(
                dense_total(*a, *b, i, j),
                prior_of(epilogue.reads(), old(c).cell(i, j)),
                mode,
            ),
{
    let reads: bool = epilogue.reads_c();
    let ghost before = *c;
    let mut i: usize = 0;
    while i < a.rows
        invariant
            a.wf(),
            b.wf(),
            before == *old(c),
            c.wf(),
            c.apart(),
            c.same_window(before),
            final(c.data)@ == final(old(c).data)@,
            a.cols == b.rows,
            c.rows == a.rows,
            c.cols == b.cols,
            reads == epilogue.reads(),
            i <= a.rows,
            forall|x: int, y: int|
                0 <= x < i && 0 <= y < b.cols ==> #[trigger] c.cell(x, y) == epilogue.finished(
                    dense_total(*a, *b, x, y),
                    prior_of(epilogue.reads(), before.cell(x, y)),
                    mode,
                ),
            forall|x: int, y: int|
                i <= x < a.rows && 0 <= y < b.cols ==> #[trigger] c.cell(x, y) == before.cell(x, y),
        decreases a.rows - i,
    {
        let mut j: usize = 0;
        while j < b.cols
            invariant
                a.wf(),
                b.wf(),
                before == *old(c),
                c.wf(),
                c.apart(),
                c.same_window(before),
                final(c.data)@ == final(old(c).data)@,
                a.cols == b.rows,
                c.rows == a.rows,
                c.cols == b.cols,
                reads == epilogue.reads(),
                i < a.rows,
                j <= b.cols,
                forall|x: int, y: int|
                    0 <= x <= i && 0 <= y < b.cols && (x < i || y < j) ==> #[trigger] c.cell(x, y)
                        == epilogue.finished(
                        dense_total(*a, *b, x, y),
                        prior_of(epilogue.reads(), before.cell(x, y)),
                        mode,
                    ),
                forall|x: int, y: int|
                    i <= x < a.rows && 0 <= y < b.cols && (x > i || y >= j) ==> #[trigger] c.cell(
                        x,
                        y,
                    ) == before.cell(x, y),
            decreases b.cols - j,
        {
            let acc: E::Acc = dense_dot(a, b, i, j);
            let prior: Option<O> = if reads {
                Some(*c.at(i, j))
            } else {
                None
            };
            c.put(i, j, epilogue.finish(acc, prior, mode));
            j = j + 1;
        }
        i = i + 1;
    }
}

} // verus!
