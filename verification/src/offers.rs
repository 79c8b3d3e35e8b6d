//! What holds of the passes that offers get.
use crate::arith::{ceil_div, sat};
use crate::blocking;
use crate::drive::{pass_words, planned, probed};
use crate::element::Bound;
use crate::family::Tabulated;
use crate::gemm::{intended, lane_words_of, totals_of};
use crate::lane::Lane;
use crate::plan::{
    charge_fits, exact_charge, is_selected, is_shared, least, left_for_stack, planned_depth,
    rung_fits, shared_rung_fits, Plan,
};
use crate::selection::pays_for;
use crate::sequence::TableSpec;
use crate::sizing::{
    depth_that_fits, effective_step, fits, pays, slab_of, words_of, Shape, Steps,
};
use vstd::prelude::*;

verus! {

/// More columns or slabs charge more.
proof fn lemma_charge_grows(
    space: int,
    rows: int,
    cols: int,
    more: int,
    depth: int,
    deeper: int,
    per: int,
    offer: int,
)
    requires
        0 <= rows,
        0 <= cols <= more,
        0 < depth <= deeper,
        per > 0,
        slab_of(space) > 0,
        charge_fits(space, rows, more, deeper, per, offer),
    ensures
        charge_fits(space, rows, cols, depth, per, offer),
{
    let slab = slab_of(space);
    assert(rows * cols <= rows * more && 0 <= slab * rows * depth <= slab * rows * deeper)
        by (nonlinear_arith)
        requires
            0 <= rows,
            0 <= cols <= more,
            0 < depth <= deeper,
            slab > 0,
    ;
    let (x, y) = (
        rows * cols + words_of(space, rows, depth),
        rows * more + words_of(space, rows, deeper),
    );
    assert(x <= y);
    vstd::arithmetic::div_mod::lemma_div_is_ordered(x + per - 1, y + per - 1, per);
}

/// Offers and declarations get one pass, whatever the operands hold.
proof fn lemma_selected_once(
    p: Option<Plan>,
    q: Option<Plan>,
    space: int,
    shape: Shape,
    lane_bytes: int,
    exact_offer: int,
    lane_offer: int,
    block: int,
    capacity: Option<usize>,
)
    requires
        is_selected(p, space, shape, lane_bytes, exact_offer, lane_offer, block, capacity),
        is_selected(q, space, shape, lane_bytes, exact_offer, lane_offer, block, capacity),
    ensures
        p == q,
{
    if p is Some && q is Some {
        let (a, b) = (p->0.rows as int, q->0.rows as int);
        assert(rung_fits(a, space, shape.m as int, lane_bytes, exact_offer, lane_offer));
        assert(rung_fits(b, space, shape.m as int, lane_bytes, exact_offer, lane_offer));
        assert(a == b);
    } else if p is Some || q is Some {
        let plan = if p is Some {
            p->0
        } else {
            q->0
        };
        let a = plan.rows as int;
        assert(rung_fits(a, space, shape.m as int, lane_bytes, exact_offer, lane_offer));
        let x = choose|x: int|
            {
                &&& #[trigger] rung_fits(
                    x,
                    space,
                    shape.m as int,
                    lane_bytes,
                    exact_offer,
                    lane_offer,
                )
                &&& forall|y: int|
                    x < y ==> !#[trigger] rung_fits(
                        y,
                        space,
                        shape.m as int,
                        lane_bytes,
                        exact_offer,
                        lane_offer,
                    )
                &&& slab_of(space) * x > left_for_stack(
                    lane_offer,
                    x,
                    least(shape.n as int, exact_offer / x),
                )
            };
        assert(x == a);
    }
}

/// Offers and declarations get one pass, whatever the operands hold.
proof fn lemma_shared_once(
    p: Option<Plan>,
    q: Option<Plan>,
    space: int,
    shape: Shape,
    lane_bytes: int,
    exact_offer: int,
    per: int,
    block: int,
    capacity: Option<usize>,
)
    requires
        is_shared(p, space, shape, lane_bytes, exact_offer, per, block, capacity),
        is_shared(q, space, shape, lane_bytes, exact_offer, per, block, capacity),
        per >= 0,
    ensures
        p == q,
{
    if p is Some && q is Some {
        let (a, b) = (p->0.rows as int, q->0.rows as int);
        assert(shared_rung_fits(a, space, shape.m as int, lane_bytes, exact_offer, per));
        assert(shared_rung_fits(b, space, shape.m as int, lane_bytes, exact_offer, per));
        assert(a == b);
        let (c, d) = (p->0.cols as int, q->0.cols as int);
        if c < d {
            lemma_charge_grows(space, a, c + 1, d, 1, 1, per, exact_offer);
        }
        if d < c {
            lemma_charge_grows(space, a, d + 1, c, 1, 1, per, exact_offer);
        }
    } else if p is Some || q is Some {
        let plan = if p is Some {
            p->0
        } else {
            q->0
        };
        assert(shared_rung_fits(
            plan.rows as int,
            space,
            shape.m as int,
            lane_bytes,
            exact_offer,
            per,
        ));
    }
}

/// Selection reads declarations, extents and offers, and never an operand: they
/// get exactly one pass.
pub proof fn law_selection_is_declared<E: Tabulated, L: Lane<E>>(
    p: Option<Plan>,
    q: Option<Plan>,
    space: int,
    shape: Shape,
    block: int,
    bound: int,
    exact_offer: int,
    words: int,
)
    requires
        planned::<E, L>(p, space, shape, block, bound, exact_offer, words),
        planned::<E, L>(q, space, shape, block, bound, exact_offer, words),
        L::width() > 0,
    ensures
        p == q,
{
    let width = L::width() as int;
    if E::lane_exact() {
        vstd::arithmetic::div_mod::lemma_div_pos_is_pos(E::acc_width() as int, width);
        lemma_shared_once(
            p,
            q,
            space,
            shape,
            width,
            exact_offer,
            E::acc_width() as int / width,
            block,
            probed::<E, L>(bound),
        );
    } else {
        lemma_selected_once(
            p,
            q,
            space,
            shape,
            width,
            exact_offer,
            sat(words * 8 / width) as int,
            block,
            probed::<E, L>(bound),
        );
    }
}

/// A depth that every term but the offer allows is kept by an offer that holds
/// it.
proof fn lemma_depth_kept(cache: int, big: int, less: int, blocks: int)
    requires
        planned_depth(cache, big, blocks) <= less <= big,
    ensures
        planned_depth(cache, less, blocks) == planned_depth(cache, big, blocks),
{
}

/// Lanes read out of as many whole words as hold them.
proof fn lemma_words_hold(lanes: int, width: int)
    requires
        lanes >= 0,
        width > 0,
    ensures
        ceil_div(lanes * width, 8) * 8 / width >= lanes,
{
    let words = ceil_div(lanes * width, 8);
    assert(words * 8 >= lanes * width) by (nonlinear_arith)
        requires
            words == (lanes * width + 7) / 8,
    ;
    vstd::arithmetic::div_mod::lemma_div_is_ordered(lanes * width, words * 8, width);
    vstd::arithmetic::div_mod::lemma_div_multiples_vanish(lanes, width);
    assert(lanes * width == width * lanes) by (nonlinear_arith);
}

proof fn lemma_selected_enough(
    plan: Plan,
    space: int,
    shape: Shape,
    width: int,
    block: int,
    capacity: Option<usize>,
    lane_offer: int,
)
    requires
        width > 0,
        is_selected(
            Some(plan),
            space,
            shape,
            width,
            usize::MAX as int,
            usize::MAX as int,
            block,
            capacity,
        ),
        pass_words(plan, space) <= lane_offer <= usize::MAX,
    ensures
        is_selected(
            Some(plan),
            space,
            shape,
            width,
            plan.rows * plan.cols,
            lane_offer,
            block,
            capacity,
        ),
{
    let slab = slab_of(space);
    let (rows, cols, depth) = (plan.rows as int, plan.cols as int, plan.depth as int);
    let most_words = usize::MAX as int;
    let tile = rows * cols;
    assert(tile / rows == cols && rows <= tile) by (nonlinear_arith)
        requires
            tile == rows * cols,
            rows > 0,
            cols >= 1,
    ;
    assert(slab * rows * depth >= slab * rows && slab * rows > 0) by (nonlinear_arith)
        requires
            slab > 0,
            rows > 0,
            depth >= 1,
    ;
    assert forall|x: int| rows < x implies !#[trigger] rung_fits(
        x,
        space,
        shape.m as int,
        width,
        tile,
        lane_offer,
    ) by {
        assert(!rung_fits(x, space, shape.m as int, width, most_words, most_words));
    }
    let big = left_for_stack(most_words, rows, cols) / (slab * rows);
    let less = left_for_stack(lane_offer, rows, cols) / (slab * rows);
    vstd::arithmetic::div_mod::lemma_div_is_ordered(
        left_for_stack(lane_offer, rows, cols),
        left_for_stack(most_words, rows, cols),
        slab * rows,
    );
    assert(depth <= less) by (nonlinear_arith)
        requires
            slab * rows * depth <= left_for_stack(lane_offer, rows, cols),
            less == left_for_stack(lane_offer, rows, cols) / (slab * rows),
            slab * rows > 0,
    ;
    lemma_depth_kept(
        depth_that_fits(space, rows, block, capacity, blocking::L2_BYTES as int, width),
        big,
        less,
        shape.k as int / block,
    );
}

proof fn lemma_shared_enough(
    plan: Plan,
    space: int,
    shape: Shape,
    width: int,
    per: int,
    block: int,
    capacity: Option<usize>,
)
    requires
        is_shared(
            Some(plan),
            space,
            shape,
            width,
            usize::MAX as int,
            per,
            block,
            capacity,
        ),
    ensures
        is_shared(
            Some(plan),
            space,
            shape,
            width,
            exact_charge(space, plan.rows as int, plan.cols as int, plan.depth as int, per),
            per,
            block,
            capacity,
        ),
{
    let slab = slab_of(space);
    let (rows, cols, depth) = (plan.rows as int, plan.cols as int, plan.depth as int);
    let offer = exact_charge(space, rows, cols, depth, per);
    let top = usize::MAX as int;
    lemma_charge_grows(space, rows, 1, cols, 1, depth, per, offer);
    lemma_charge_grows(space, rows, cols, cols, 1, depth, per, offer);
    assert forall|x: int| rows < x implies !#[trigger] shared_rung_fits(
        x,
        space,
        shape.m as int,
        width,
        offer,
        per,
    ) by {
        assert(!shared_rung_fits(x, space, shape.m as int, width, top, per));
    }
    let tile = rows * cols;
    assert(tile >= 1 && slab * rows > 0 && slab * rows * depth > 0) by (nonlinear_arith)
        requires
            tile == rows * cols,
            rows > 0,
            cols >= 1,
            slab > 0,
            depth >= 1,
    ;
    let words = words_of(space, rows, depth) as int;
    assert(words == slab * rows * depth);
    let taken = offer - tile;
    assert(taken * per >= tile + words && taken >= 0) by (nonlinear_arith)
        requires
            taken == (tile + words + per - 1) / per,
            per > 0,
            tile >= 0,
            words >= 0,
    ;
    let fewer = sat(taken * per) as int - tile;
    let many = sat((top - tile) * per) as int - tile;
    assert(taken * per <= (top - tile) * per) by (nonlinear_arith)
        requires
            taken <= top - tile,
            per > 0,
    ;
    let (less, big) = (fewer / (slab * rows), many / (slab * rows));
    vstd::arithmetic::div_mod::lemma_div_is_ordered(fewer, many, slab * rows);
    assert(depth <= less) by (nonlinear_arith)
        requires
            slab * rows * depth <= fewer,
            less == fewer / (slab * rows),
            slab * rows > 0,
    ;
    lemma_depth_kept(
        depth_that_fits(space, rows, block, capacity, blocking::L2_BYTES as int, width),
        big,
        less,
        shape.k as int / block,
    );
}

/// Offering what is suggested gets the pass that unlimited offers get: the whole
/// width of the output, at the depth that the caches take. Left out are passes
/// whose lanes are more bytes than a word counts.
pub proof fn law_suggested_offers_suffice<E: Tabulated, Bd: Bound>(
    plan: Plan,
    space: int,
    shape: Shape,
    block: int,
    words: int,
)
    requires
        intended::<E, Bd>(Some(plan), space, shape, block),
        !E::lane_exact() ==> pass_words(plan, space) * <E::Lane as Lane<E>>::width() <= usize::MAX
            && words == lane_words_of::<E>(plan, space),
    ensures
        planned::<E, E::Lane>(
            Some(plan),
            space,
            shape,
            block,
            Bd::bound() as int,
            totals_of::<E>(plan, space),
            words,
        ),
{
    let width = <E::Lane as Lane<E>>::width() as int;
    let capacity = probed::<E, E::Lane>(Bd::bound() as int);
    E::offer_laws(false, 0, 0);
    if E::lane_exact() {
        lemma_shared_enough(
            plan,
            space,
            shape,
            width,
            E::acc_width() as int / width,
            block,
            capacity,
        );
    } else {
        let lanes = pass_words(plan, space);
        assert(lanes >= 0) by (nonlinear_arith)
            requires
                lanes == plan.rows * plan.cols + slab_of(space) * plan.rows * plan.depth,
                slab_of(space) > 0,
        ;
        assert(lanes * width >= 0) by (nonlinear_arith)
            requires
                lanes >= 0,
                width > 0,
        ;
        lemma_words_hold(lanes, width);
        lemma_selected_enough(
            plan,
            space,
            shape,
            width,
            block,
            capacity,
            sat(words * 8 / width) as int,
        );
    }
}

/// The accumulators to offer do not grow with the depth of the reduction where
/// lanes have words of their own: only the slabs of the pass follow it.
pub proof fn law_totals_ignore_depth<E: Tabulated, Bd: Bound>(
    p: Option<Plan>,
    q: Option<Plan>,
    space: int,
    shallow: Shape,
    deep: Shape,
    block: int,
)
    requires
        !E::lane_exact(),
        shallow.m == deep.m,
        shallow.n == deep.n,
        intended::<E, Bd>(p, space, shallow, block),
        intended::<E, Bd>(q, space, deep, block),
    ensures
        p is Some <==> q is Some,
        p is Some ==> totals_of::<E>(p->0, space) == totals_of::<E>(q->0, space),
{
    lemma_extents_ignore_depth::<E, Bd>(p, q, space, shallow, deep, block);
}

proof fn lemma_extents_ignore_depth<E: Tabulated, Bd: Bound>(
    p: Option<Plan>,
    q: Option<Plan>,
    space: int,
    shallow: Shape,
    deep: Shape,
    block: int,
)
    requires
        !E::lane_exact(),
        shallow.m == deep.m,
        shallow.n == deep.n,
        intended::<E, Bd>(p, space, shallow, block),
        intended::<E, Bd>(q, space, deep, block),
    ensures
        p is Some <==> q is Some,
        p is Some ==> p->0.rows == q->0.rows && p->0.cols == q->0.cols,
{
    let width = <E::Lane as Lane<E>>::width() as int;
    let top = usize::MAX as int;
    if p is Some && q is Some {
        let (a, b) = (p->0.rows as int, q->0.rows as int);
        assert(rung_fits(a, space, shallow.m as int, width, top, top));
        assert(rung_fits(b, space, shallow.m as int, width, top, top));
        assert(a == b);
    } else if p is Some || q is Some {
        let plan = if p is Some {
            p->0
        } else {
            q->0
        };
        let a = plan.rows as int;
        assert(rung_fits(a, space, shallow.m as int, width, top, top));
        let x = choose|x: int|
            {
                &&& #[trigger] rung_fits(x, space, shallow.m as int, width, top, top)
                &&& forall|y: int|
                    x < y ==> !#[trigger] rung_fits(y, space, shallow.m as int, width, top, top)
                &&& slab_of(space) * x > left_for_stack(
                    top,
                    x,
                    least(shallow.n as int, top / x),
                )
            };
        assert(x == a);
    }
}

/// The lanes to offer grow with the depth of the reduction only until the pass
/// holds as many slabs as the caches take: two reductions that reach that depth
/// get the same pass.
pub proof fn law_lanes_settle<E: Tabulated, Bd: Bound>(
    p: Plan,
    q: Plan,
    space: int,
    shallow: Shape,
    deep: Shape,
    block: int,
)
    requires
        !E::lane_exact(),
        shallow.m == deep.m,
        shallow.n == deep.n,
        intended::<E, Bd>(Some(p), space, shallow, block),
        intended::<E, Bd>(Some(q), space, deep, block),
        ({
            let cache = depth_that_fits(
                space,
                p.rows as int,
                block,
                probed::<E, E::Lane>(Bd::bound() as int),
                blocking::L2_BYTES as int,
                <E::Lane as Lane<E>>::width() as int,
            );
            cache <= shallow.k as int / block && cache <= deep.k as int / block
        }),
    ensures
        p == q,
{
    lemma_extents_ignore_depth::<E, Bd>(Some(p), Some(q), space, shallow, deep, block);
}

/// Tabulation pays exactly where it issues fewer instructions: the build and the
/// gathers of a block of columns at the step of the table, against its products
/// at the effective step of the dense kernel, both cleared of denominators.
pub proof fn law_pays_when_cheaper(
    code_space: int,
    block: int,
    cols: int,
    rows: int,
    steps: Steps,
    l1_bytes: int,
    lane_bytes: int,
)
    requires
        block > 1,
        0 < effective_step(rows, steps) < steps.table,
        fits(code_space, rows, l1_bytes, lane_bytes),
    ensures
        pays(code_space, block, cols, rows, steps, l1_bytes, lane_bytes) <==> (code_space * block
            + cols) * effective_step(rows, steps) < cols * steps.table,
{
    let (e, t) = (effective_step(rows, steps), steps.table as int);
    assert((code_space * block + cols) * e == code_space * e * block + cols * e && cols * (t - e)
        == cols * t - cols * e) by (nonlinear_arith);
}

/// There is one break-even: where tabulation pays at some width, it pays at any
/// greater one.
pub proof fn law_break_even(
    code_space: int,
    block: int,
    cols: int,
    wider: int,
    rows: int,
    steps: Steps,
    l1_bytes: int,
    lane_bytes: int,
    table: TableSpec,
)
    requires
        cols <= wider,
    ensures
        pays(code_space, block, cols, rows, steps, l1_bytes, lane_bytes) ==> pays(
            code_space,
            block,
            wider,
            rows,
            steps,
            l1_bytes,
            lane_bytes,
        ),
        pays_for(code_space, block, cols, rows, steps, l1_bytes, lane_bytes, table) ==> pays_for(
            code_space,
            block,
            wider,
            rows,
            steps,
            l1_bytes,
            lane_bytes,
            table,
        ),
{
    let e = effective_step(rows, steps);
    let (t, u) = (steps.table as int, block * table.lanes_per_add);
    let q = table.build_products_per_step as int;
    if pays(code_space, block, cols, rows, steps, l1_bytes, lane_bytes) {
        assert(cols * (t - e) <= wider * (t - e)) by (nonlinear_arith)
            requires
                cols <= wider,
                e < t,
        ;
    }
    if pays_for(code_space, block, cols, rows, steps, l1_bytes, lane_bytes, table) {
        assert(cols * q * (u - e) <= wider * q * (u - e)) by (nonlinear_arith)
            requires
                cols <= wider,
                q > 0,
                e < u,
        ;
    }
}

} // verus!
