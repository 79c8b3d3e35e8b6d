//! Element families: the lanes each is tabulated in, how it is graded, and
//! what it declares to selection.
use crate::census::{Ledger, Tally};
use crate::codec::{CodedMatrix, Enumerable};
use crate::dense::dense_total;
use crate::element::{Accumulator, Alphabet, Bound, Element};
use crate::epilogue::{Epilogue, Output};
use crate::lane::{capacity_of, Lane};
use crate::scale::LaneScale;
use crate::sequence::{Backend, Host, Sequence, TableLane, TableSpec};
use crate::sizing::Steps;
use crate::triple::{prior_of, GemmOptions};
use crate::view::{MatView, MatViewMut};
use vstd::arithmetic::power2::pow2;
use vstd::prelude::*;

verus! {

/// An element that can be counted in units of a common grade.
pub trait Graded: Element {
    /// The element regraded at a base.
    spec fn graded(self, base: i32) -> Self;

    /// The element can be regraded at a base.
    spec fn gradable(self, base: i32) -> bool;

    /// A product is that of the regraded elements at the weight of the grade.
    proof fn grading(x: Self, y: Self, scale: LaneScale)
        requires
            x.gradable(scale.base_a),
            y.gradable(scale.base_b),
        ensures
            x.val() * y.val() == x.graded(scale.base_a).val() * y.graded(scale.base_b).val()
                * Self::weight(scale.grade()),
    ;

    /// A lower base counts in units half as large for each grade.
    proof fn regrading(x: Self, low: i32, high: i32)
        requires
            x.gradable(low),
            x.gradable(high),
            low <= high,
        ensures
            x.graded(low).val() == x.graded(high).val() * pow2((high - low) as nat),
    ;

    /// The element regraded at a base.
    fn prescale(x: Self, base: i32) -> (r: Self)
        requires
            x.gradable(base),
        ensures
            r == x.graded(base),
    ;
}

/// Only the stored codes of the book are met: blocks of one, fewer codes than
/// entries, and no sign patterns.
pub open spec fn sparse_book<E: Element, Bd: Bound, C: Enumerable<E, Bd>>(
    w: CodedMatrix<'_, E, Bd, C>,
) -> bool {
    C::block() == 1 && !C::sign_book() && w.codes@.len() < C::space()
}

/// Book elements that finding a scale looks at.
pub open spec fn book_met<E: Element, Bd: Bound, C: Enumerable<E, Bd>>(
    w: CodedMatrix<'_, E, Bd, C>,
) -> nat {
    if sparse_book(w) {
        w.codes@.len()
    } else {
        (C::space() * C::block()) as nat
    }
}

/// The elements of a panel, row after row.
pub open spec fn panel_elements<E: Element, Bd: Bound>(
    a: MatView<'_, Alphabet<E, Bd>>,
) -> Seq<E> {
    Seq::new(
        (a.rows * a.cols) as nat,
        |x: int| a.cell(x / a.cols as int, x % a.cols as int).element(),
    )
}

/// The book elements that finding a scale looks at, in their order.
pub open spec fn met_elements<E: Element, Bd: Bound, C: Enumerable<E, Bd>>(
    w: CodedMatrix<'_, E, Bd, C>,
) -> Seq<E> {
    let block = C::block() as int;
    if sparse_book(w) {
        Seq::new(
            w.codes@.len(),
            |x: int| w.codec.decoded(C::at_index(C::index(w.codes@[x]) as int), 0).element(),
        )
    } else {
        Seq::new(
            (C::space() * C::block()) as nat,
            |x: int| w.codec.decoded(C::at_index(x / block), x % block).element(),
        )
    }
}

/// Every book element that a product with `w` meets can be graded at `base`.
pub open spec fn book_gradable<E: Graded, Bd: Bound, C: Enumerable<E, Bd>>(
    w: CodedMatrix<'_, E, Bd, C>,
    base: i32,
) -> bool {
    &&& forall|x: int, t: int|
        #![trigger w.codec.decoded(w.codes@[x], t)]
        0 <= x < w.codes@.len() && 0 <= t < C::block() ==> w.codec.decoded(
            w.codes@[x],
            t,
        ).element().gradable(base)
    &&& !sparse_book(w) ==> forall|c: int, t: int|
        #![trigger w.codec.decoded(C::at_index(c), t)]
        0 <= c < C::space() && 0 <= t < C::block() ==> w.codec.decoded(
            C::at_index(c),
            t,
        ).element().gradable(base)
}

/// Every activation can be graded at `base`.
pub open spec fn rows_gradable<E: Graded, Bd: Bound>(
    a: MatView<'_, Alphabet<E, Bd>>,
    base: i32,
) -> bool {
    forall|i: int, p: int|
        0 <= i < a.rows && 0 <= p < a.cols ==> (#[trigger] a.cell(i, p)).element().gradable(base)
}

/// A product graded at `scale` is within the step that the scale declares.
pub open spec fn step_within<E: Graded>(scale: LaneScale, x: E, y: E) -> bool {
    -scale.per_step <= x.graded(scale.base_a).val() * y.graded(scale.base_b).val()
        <= scale.per_step
}

/// The largest magnitude of a product graded at a scale that bounds it.
pub open spec fn step_limit<E: Element>(scale: LaneScale) -> int {
    if scale.per_step < E::reach() * E::reach() {
        scale.per_step as int
    } else {
        (E::reach() * E::reach()) as int
    }
}

/// An element family that products are tabulated over.
pub trait Tabulated: Graded {
    /// The lane of exact sums.
    type Lane: TableLane<Self>;

    /// The lane of sums modulo its extent.
    type ModLane: TableLane<Self>;

    /// The lane of the streamed dot product.
    type StreamLane: Lane<Self>;

    /// A common grade is found for any panels.
    spec fn scales() -> bool;

    /// The scale is a declaration; otherwise it is read from the data.
    spec fn declared_scale() -> bool;

    /// A scale that a panel within the declared bound may have.
    spec fn admissible(declared: nat, scale: LaneScale) -> bool;

    /// The scale bounds the step; otherwise only single products are carried.
    spec fn step_known(scale: LaneScale) -> bool;

    /// Lanes are read out of the accumulators on offer.
    spec fn lane_exact() -> bool;

    /// The modular lane determines a wrapped output of this many bits.
    spec fn modular(out_bits: nat) -> bool;

    /// The table sequence of a tile.
    spec fn sequence_for(
        modular: bool,
        backend: Backend,
        host: Host,
        bound: nat,
        sign_book: bool,
        rows: nat,
        group: nat,
    ) -> TableSpec;

    /// The steps of the two factorizations.
    spec fn steps_for(backend: Backend, host: Host, bound: nat, rows: nat, table: nat) -> Steps;

    /// The dense product is taken with this much room for a reduction.
    spec fn takes_dense(rest: nat, depth: nat) -> bool;

    /// Lanes that narrow words or accumulators on offer hold.
    spec fn lanes_in(modular: bool, narrow: nat, exact: nat) -> nat;

    /// The scale of a panel of activations and the book elements that a product
    /// meets, where `single` tells that the product is of single elements.
    spec fn found_scale(acts: Seq<Self>, met: Seq<Self>, single: bool, bound: nat) -> LaneScale;

    /// The work of finding that scale.
    spec fn scale_tally(acts: Seq<Self>, met: Seq<Self>, single: bool) -> Tally;

    /// What the declarations promise each other.
    proof fn family_laws()
        ensures
            <Self::Lane as Lane<Self>>::precision() == Self::Acc::modulus(),
            <Self::StreamLane as Lane<Self>>::precision() == Self::Acc::modulus(),
            forall|bits: nat|
                #[trigger] Self::modular(bits) ==> <Self::ModLane as Lane<Self>>::precision()
                    % (pow2(bits) as int) == 0,
            forall|d: nat, e: nat|
                d > 0 && e > 0 ==> #[trigger] Self::takes_dense(0, d)
                    == #[trigger] Self::takes_dense(0, e),
            Self::declared_scale() ==> forall|x: Self, base: i32|
                #[trigger] x.graded(base) == x,
            Self::declared_scale() ==> forall|cap: Option<nat>, declared: int, scale: LaneScale|
                #[trigger] Self::run_of(cap, declared, scale) == capacity_of(cap, declared),
            Self::declared_scale() ==> forall|acts: Seq<Self>, met: Seq<Self>, single: bool|
                #[trigger] Self::scale_tally(acts, met, single) == Tally::none(),
            forall|acts: Seq<Self>, met: Seq<Self>, single: bool|
                {
                    let t = #[trigger] Self::scale_tally(acts, met, single);
                    t.multiplies == 0 && t.reads == 0 && t.calls == 0
                },
    ;

    /// Lanes are read out of whole words on offer.
    proof fn offer_laws(modular: bool, narrow: nat, exact: nat)
        ensures
            ({
                let width = if modular {
                    <Self::ModLane as Lane<Self>>::width()
                } else {
                    <Self::Lane as Lane<Self>>::width()
                };
                &&& width > 0
                &&& !Self::lane_exact() ==> Self::lanes_in(modular, narrow, exact) == (narrow
                    * 8) as int / width as int
                &&& Self::lane_exact() ==> Self::lanes_in(modular, narrow, exact) == exact * (
                Self::acc_width() as int / width as int)
            }),
    ;

    /// A sequence fits its lane and the book it is chosen for.
    proof fn sequence_laws(
        modular: bool,
        backend: Backend,
        host: Host,
        bound: nat,
        sign_book: bool,
        rows: nat,
        group: nat,
    )
        ensures
            ({
                let spec = Self::sequence_for(
                    modular,
                    backend,
                    host,
                    bound,
                    sign_book,
                    rows,
                    group,
                );
                &&& spec.k_group == 1
                &&& forall|scale: LaneScale|
                    scale.per_step <= spec.lane_cap ==> #[trigger] Self::step_known(scale)
                &&& spec.sequence == Sequence::SignMask ==> bound <= 1 && Self::declared_scale()
                &&& !modular ==> spec.lane_cap <= <Self::Lane as TableLane<Self>>::envelope()
                &&& modular ==> spec.lane_cap <= <Self::ModLane as TableLane<Self>>::envelope()
                &&& Self::declared_scale() || spec.lane_cap < u128::MAX
            }),
    ;

    /// Whether lanes are read out of the accumulators on offer.
    fn lane_is_exact() -> (r: bool)
        ensures
            r == Self::lane_exact(),
    ;

    /// Bytes of an accumulator.
    fn acc_bytes() -> (r: usize)
        ensures
            r == Self::acc_width(),
    ;

    /// Bytes of an accumulator.
    spec fn acc_width() -> nat;

    /// Whether the modular lane determines a wrapped output of this many bits.
    fn modular_table_admitted(out_bits: u32) -> (r: bool)
        ensures
            r == Self::modular(out_bits as nat),
    ;

    /// The table sequence of a tile of the exact lane.
    fn table_spec(
        backend: Backend,
        host: Host,
        bound: u128,
        sign_book: bool,
        rows: usize,
        group: usize,
    ) -> (r: TableSpec)
        ensures
            r == Self::sequence_for(
                false,
                backend,
                host,
                bound as nat,
                sign_book,
                rows as nat,
                group as nat,
            ),
    ;

    /// The table sequence of a tile of the modular lane.
    fn table_spec_modular(
        backend: Backend,
        host: Host,
        bound: u128,
        rows: usize,
        group: usize,
    ) -> (r: TableSpec)
        ensures
            forall|sign_book: bool|
                r == #[trigger] Self::sequence_for(
                    true,
                    backend,
                    host,
                    bound as nat,
                    sign_book,
                    rows as nat,
                    group as nat,
                ),
    ;

    /// The first `want` lanes of what is on offer.
    fn lanes<'s>(narrow: &'s mut [i64], exact: &'s mut [Self::Acc], want: usize) -> (r: Option<
        &'s mut [Self::Lane],
    >)
        ensures
            r is Some <==> want <= Self::lanes_in(
                false,
                old(narrow)@.len() as nat,
                old(exact)@.len() as nat,
            ),
            r is Some ==> r->0@.len() == want,
            r is None ==> final(exact)@.len() == old(exact)@.len(),
    ;

    /// The first `want` modular lanes of what is on offer.
    fn lanes_modular<'s>(
        narrow: &'s mut [i64],
        exact: &'s mut [Self::Acc],
        want: usize,
    ) -> (r: Option<&'s mut [Self::ModLane]>)
        ensures
            r is Some <==> want <= Self::lanes_in(
                true,
                old(narrow)@.len() as nat,
                old(exact)@.len() as nat,
            ),
            r is Some ==> r->0@.len() == want,
            r is None ==> final(exact)@.len() == old(exact)@.len(),
    ;

    /// The steps of the two factorizations.
    fn dense_steps(backend: Backend, host: Host, bound: u128, rows: usize, table: usize) -> (r:
        Steps)
        ensures
            r == Self::steps_for(backend, host, bound as nat, rows as nat, table as nat),
    ;

    /// Finishes every cell of `c` from the exact product of `a` and `b`, where
    /// the room `rest` suits the family; otherwise touches nothing.
    fn dense_gemm<Bd: Bound, O: Output, Ep: Epilogue<Self, O>>(
        a: &MatView<'_, Alphabet<Self, Bd>>,
        b: &MatView<'_, Self>,
        c: &mut MatViewMut<'_, O>,
        epilogue: &Ep,
        options: GemmOptions,
        rest: &mut [Self],
    ) -> (r: bool)
        requires
            a.wf(),
            b.wf(),
            old(c).wf(),
            old(c).apart(),
            a.cols == b.rows,
            old(c).rows == a.rows,
            old(c).cols == b.cols,
        ensures
            r == Self::takes_dense(old(rest)@.len() as nat, b.rows as nat),
            final(rest)@.len() == old(rest)@.len(),
            final(c).wf(),
            final(c).same_window(*old(c)),
            final(final(c).data)@ == final(old(c).data)@,
            !r ==> final(c).data@ == old(c).data@,
            r ==> forall|i: int, j: int|
                0 <= i < a.rows && 0 <= j < b.cols ==> #[trigger] final(c).cell(i, j)
                    == epilogue.finished(
                    dense_total(*a, *b, i, j),
                    prior_of(epilogue.reads(), old(c).cell(i, j)),
                    options.encode,
                ),
    ;

    /// Products that one lane takes before the data has been looked at.
    fn probe_capacity<L: Lane<Self>>(declared: u128) -> (r: Option<usize>)
        ensures
            r == if Self::declared_scale() {
                capacity_of(L::cap(), declared as int)
            } else {
                None
            },
    ;

    /// The common grades of two panels, and the largest step between them.
    fn lane_scale<Bd: Bound, C: Enumerable<Self, Bd>, Lg: Ledger>(
        a: &MatView<'_, Alphabet<Self, Bd>>,
        w: &CodedMatrix<'_, Self, Bd, C>,
        ledger: &mut Lg,
    ) -> (r: Option<LaneScale>)
        requires
            a.wf(),
            w.wf(),
            forall|i: int, p: int|
                0 <= i < a.rows && 0 <= p < a.cols ==> (#[trigger] a.cell(i, p)).inv(),
        ensures
            r is Some <==> Self::scales(),
            r matches Some(scale) ==> {
                &&& rows_gradable(*a, scale.base_a)
                &&& book_gradable(*w, scale.base_b)
                &&& Self::admissible(Bd::bound(), scale)
                &&& Self::step_known(scale) ==> forall|
                    i: int,
                    p: int,
                    x: int,
                    t: int,
                |
                    #![trigger a.cell(i, p), w.codec.decoded(w.codes@[x], t)]
                    0 <= i < a.rows && 0 <= p < a.cols && 0 <= x < w.codes@.len() && 0 <= t
                        < C::block() ==> step_within(
                        scale,
                        a.cell(i, p).element(),
                        w.codec.decoded(w.codes@[x], t).element(),
                    )
            },
            r matches Some(scale) ==> scale == Self::found_scale(
                panel_elements(*a),
                met_elements(*w),
                a.cols == 1 && C::block() == 1,
                Bd::bound(),
            ),
            *final(ledger) == old(ledger).charged(
                Self::scale_tally(
                    panel_elements(*a),
                    met_elements(*w),
                    a.cols == 1 && C::block() == 1,
                ),
            ),
    ;

    /// Products that one lane takes at a scale.
    fn lane_run<L: Lane<Self>>(declared: u128, scale: &LaneScale) -> (r: Option<usize>)
        ensures
            r == Self::run_of(L::cap(), declared as int, *scale),
    ;

    /// Products that one lane takes at a scale.
    spec fn run_of(cap: Option<nat>, declared: int, scale: LaneScale) -> Option<usize>;

    /// Sums of as many products as a run are carried over; where the step is
    /// not bounded a run is of one product.
    proof fn run_laws<L: Lane<Self>>(declared: nat, scale: LaneScale, steps: nat, v: int)
        requires
            Self::admissible(declared, scale),
            steps <= usize::MAX,
            match Self::run_of(L::cap(), declared as int, scale) {
                Some(run) => steps <= run,
                None => true,
            },
            Self::step_known(scale) ==> -(steps * step_limit::<Self>(scale)) <= v <= steps
                * step_limit::<Self>(scale),
        ensures
            Self::step_known(scale) ==> L::holds(v),
            !Self::step_known(scale) ==> steps <= 1,
    ;

    /// Equal rows are looked for.
    spec fn collapses_rows() -> bool;

    /// Whether equal rows are looked for.
    fn looks_for_equal_rows() -> (r: bool)
        ensures
            r == Self::collapses_rows(),
    ;
}

} // verus!
