//! What sizes, costs, counts and grades measure.
use crate::arith::{ceil_div, ceil_pow2, cong, is_pow2, lemma_ceil_pow2, sat};
use crate::blocking;
use crate::book::{book_written, decoded_count, lists, stores};
use crate::census::{capped, Census, Ledger, Tally};
use crate::codec::{CodedMatrix, Enumerable};
use crate::columns::{dictionary_words, measured, radix_number, run_hash};
use crate::dictionary::own_count;
use crate::element::{clamped, Accumulator, Alphabet, Bound, Element};
use crate::entries::{dedup, lemma_dedup_contains, lemma_dedup_from, EntrySet};
use crate::epilogue::{half, wrapped};
use crate::family::{Graded, Tabulated};
use crate::gemm::{lane_words_of, totals_of};
use crate::lane::{capacity_of, Lane};
use crate::meaning::{added, law_total_adds_products};
use crate::paged::{page_of, paged_tally};
use crate::plan::{
    exact_charge, is_selected, is_shared, least, left_for_stack, most, planned_depth, rung_fits,
    shared_rung_fits, Plan,
};
use crate::routes::packed_tally;
use crate::rows::{block_width, totals_exact};
use crate::scale::{regraded, square_of, within, LaneScale};
use crate::schedule::Region;
use crate::selection::{admitted, pays_for};
use crate::sequence::{chosen, eligible, portable_of, Backend, Sequence, TableSpec};
use crate::sizing::{
    depth_that_fits, effective_step, fits, group_of, pays, rows_that_fit, slab_of, words_of,
    CostProduct, Shape, Steps,
};
use crate::sources::{built_cells, built_entries};
use crate::stream::stream_tally;
use crate::sweep::present;
use crate::table::{build_tally, stacks};
use crate::tabulate::{cached_rows, projection_tally, tile_rows};
use crate::triple::{total, Traversal};
use crate::view::MatView;
use vstd::arithmetic::power::pow;
use vstd::arithmetic::power2::pow2;
use vstd::prelude::*;

verus! {

/// Congruent numbers are a whole number of moduli apart, and no others are.
pub proof fn law_congruence(x: int, y: int, m: int)
    requires
        m > 0,
    ensures
        cong(x, y, m) <==> exists|q: int| x == y + #[trigger] (q * m),
{
    vstd::arithmetic::div_mod::lemma_fundamental_div_mod(x - y, m);
    if cong(x, y, m) {
        let q = (x - y) / m;
        assert(x == y + q * m) by (nonlinear_arith)
            requires
                x - y == m * q + 0,
        ;
    }
    if exists|q: int| x == y + #[trigger] (q * m) {
        let q = choose|q: int| x == y + #[trigger] (q * m);
        vstd::arithmetic::div_mod::lemma_mod_multiples_basic(q, m);
    }
}

/// A quotient rounded up is the least count of divisors that cover the dividend.
pub proof fn law_quotient_rounds_up(a: int, b: int)
    requires
        0 <= a,
        0 < b,
    ensures
        (ceil_div(a, b) - 1) * b < a <= ceil_div(a, b) * b,
{
    let q = ceil_div(a, b);
    vstd::arithmetic::div_mod::lemma_fundamental_div_mod(a + b - 1, b);
    let r = (a + b - 1) % b;
    assert((q - 1) * b < a <= q * b) by (nonlinear_arith)
        requires
            a + b - 1 == b * q + r,
            0 <= r < b,
    ;
}

/// The least power of two at or above a number is a power of two, and every power
/// of two at or above the number is at or above it.
pub proof fn law_power_rounds_up(n: nat, e: nat)
    ensures
        n <= ceil_pow2(n),
        is_pow2(ceil_pow2(n) as int),
        n <= pow2(e) ==> ceil_pow2(n) <= pow2(e),
{
    lemma_ceil_pow2(n);
    vstd::arithmetic::power2::lemma_pow2_pos(e);
    if n <= pow2(e) && ceil_pow2(n) > pow2(e) {
        let f = choose|f: nat| ceil_pow2(n) as int == #[trigger] pow2(f);
        if f <= e {
            if f < e {
                vstd::arithmetic::power2::lemma_pow2_strictly_increases(f, e);
            }
        } else {
            vstd::arithmetic::power2::lemma_pow2_unfold(f);
            if e < f - 1 {
                vstd::arithmetic::power2::lemma_pow2_strictly_increases(e, (f - 1) as nat);
            }
            assert(pow2((f - 1) as nat) < n);
        }
    }
}

/// Saturated sizes and counts are the size or count where a word holds it, and else
/// the largest word.
pub proof fn law_saturation(x: int)
    requires
        0 <= x,
    ensures
        sat(x) <= x,
        sat(x) < x ==> sat(x) == usize::MAX,
        capped(x) <= x,
        capped(x) < x ==> capped(x) == u64::MAX,
{
}

/// Clamping gives a number of the range, the number itself where it is one, and
/// never moves one number past another.
pub proof fn law_clamping(v: int, w: int, low: int, high: int)
    requires
        low <= high,
    ensures
        low <= clamped(v, low, high) <= high,
        low <= v <= high ==> clamped(v, low, high) == v,
        v <= w ==> clamped(v, low, high) <= clamped(w, low, high),
        v < low ==> clamped(v, low, high) == low,
        v > high ==> clamped(v, low, high) == high,
{
}

/// Wrapping gives the one number of a signed word that differs from the number by a
/// multiple of the extent of the word.
pub proof fn law_wrapping(v: int, bits: nat, other: int)
    requires
        1 <= bits,
    ensures
        2 * half(bits) == pow2(bits),
        -half(bits) <= wrapped(v, bits) < half(bits),
        (wrapped(v, bits) - v) % (pow2(bits) as int) == 0,
        -half(bits) <= other < half(bits) && (other - v) % (pow2(bits) as int) == 0 ==> other
            == wrapped(v, bits),
{
    let m = pow2(bits) as int;
    vstd::arithmetic::power2::lemma_pow2_pos((bits - 1) as nat);
    vstd::arithmetic::power2::lemma_pow2_unfold(bits);
    vstd::arithmetic::div_mod::lemma_fundamental_div_mod(v, m);
    vstd::arithmetic::div_mod::lemma_mod_bound(v, m);
    let (q, r) = (v / m, v % m);
    let w = wrapped(v, bits);
    if r >= half(bits) {
        assert(w - v == (-q - 1) * m) by (nonlinear_arith)
            requires
                w == r - m,
                v == m * q + r,
        ;
        vstd::arithmetic::div_mod::lemma_mod_multiples_basic(-q - 1, m);
    } else {
        assert(w - v == (-q) * m) by (nonlinear_arith)
            requires
                w == r,
                v == m * q + r,
        ;
        vstd::arithmetic::div_mod::lemma_mod_multiples_basic(-q, m);
    }
    if (other - v) % m == 0 {
        crate::arith::lemma_cong_sym(w, v, m);
        crate::arith::lemma_cong_trans(other, v, w, m);
        if -half(bits) <= other < half(bits) {
            crate::arith::lemma_cong_close(other, w, m);
        }
    }
}

/// There is a slab wherever there are codes and some power of two that a word holds
/// takes them all.
pub proof fn law_slab_where_one_fits(code_space: int, e: nat)
    ensures
        slab_of(code_space) > 0 ==> 0 < code_space <= slab_of(code_space) <= usize::MAX,
        0 < code_space <= pow2(e) <= usize::MAX ==> 0 < slab_of(code_space) <= pow2(e),
        slab_of(code_space) >= 0,
{
    if code_space > 0 {
        law_power_rounds_up(code_space as nat, e);
        lemma_ceil_pow2(code_space as nat);
    }
}

/// The words of a stack are those of its slabs, where there are such slabs and a
/// word counts them.
pub proof fn law_stack_words(code_space: int, rows: int, depth: int)
    requires
        slab_of(code_space) > 0,
        0 <= rows,
        0 <= depth,
    ensures
        words_of(code_space, rows, depth) <= slab_of(code_space) * rows * depth,
        words_of(code_space, rows, depth) < slab_of(code_space) * rows * depth ==> words_of(
            code_space,
            rows,
            depth,
        ) == usize::MAX,
{
    assert(slab_of(code_space) * rows >= 0) by (nonlinear_arith)
        requires
            slab_of(code_space) > 0,
            rows >= 0,
    ;
    assert(slab_of(code_space) * rows * depth >= 0) by (nonlinear_arith)
        requires
            slab_of(code_space) * rows >= 0,
            depth >= 0,
    ;
}

/// A tile fits the cache exactly where two of its slabs take no more bytes than the
/// cache has, and the tallest tile that is offered is the tallest that fits, up to
/// one cache block of rows.
pub proof fn law_tallest_tile_fits(code_space: int, rows: int, l1_bytes: int, lane_bytes: int)
    requires
        0 <= l1_bytes,
        0 < lane_bytes,
        0 < rows <= blocking::MC,
    ensures
        fits(code_space, rows, l1_bytes, lane_bytes) <==> slab_of(code_space) > 0 && 2 * (
        slab_of(code_space) * rows * lane_bytes) <= l1_bytes,
        fits(code_space, rows, l1_bytes, lane_bytes) <==> rows <= rows_that_fit(
            code_space,
            l1_bytes,
            lane_bytes,
        ),
        0 <= rows_that_fit(code_space, l1_bytes, lane_bytes) <= blocking::MC,
{
    let slab = slab_of(code_space);
    law_slab_where_one_fits(code_space, 0);
    if slab > 0 {
        let charge = slab * lane_bytes * 2;
        assert(charge > 0) by (nonlinear_arith)
            requires
                charge == slab * lane_bytes * 2,
                slab > 0,
                lane_bytes > 0,
        ;
        let room = l1_bytes / charge;
        vstd::arithmetic::div_mod::lemma_fundamental_div_mod(l1_bytes, charge);
        vstd::arithmetic::div_mod::lemma_div_pos_is_pos(l1_bytes, charge);
        assert(slab * rows * lane_bytes * 2 == rows * charge) by (nonlinear_arith)
            requires
                charge == slab * lane_bytes * 2,
        ;
        if rows <= room {
            assert(rows * charge <= l1_bytes) by (nonlinear_arith)
                requires
                    rows <= room,
                    charge * room <= l1_bytes,
                    charge > 0,
            ;
        } else {
            assert(rows * charge > l1_bytes) by (nonlinear_arith)
                requires
                    rows >= room + 1,
                    l1_bytes < charge * room + charge,
                    charge > 0,
            ;
        }
    }
}

/// The slabs of one stack: two of each fit the cache together unless the stack is of
/// one slab, one more would not unless the lanes run out first, and the blocks of a
/// stack are within one run of a lane.
pub proof fn law_stack_fits(
    code_space: int,
    rows: int,
    block: int,
    lane_capacity: Option<usize>,
    l2_bytes: int,
    lane_bytes: int,
)
    requires
        slab_of(code_space) > 0,
        0 < rows,
        0 < block,
        0 < lane_bytes,
        0 <= l2_bytes,
        slab_of(code_space) * rows * lane_bytes * 2 <= usize::MAX,
    ensures
        ({
            let depth = depth_that_fits(
                code_space,
                rows,
                block,
                lane_capacity,
                l2_bytes,
                lane_bytes,
            );
            let charge = slab_of(code_space) * rows * lane_bytes * 2;
            &&& 0 <= depth
            &&& depth > 1 ==> depth * charge <= l2_bytes
            &&& lane_capacity is None ==> depth >= 1 && (depth + 1) * charge > l2_bytes
            &&& lane_capacity matches Some(capacity) ==> {
                &&& depth * block <= capacity
                &&& (depth + 1) * charge > l2_bytes || (depth + 1) * block > capacity
                &&& block <= capacity ==> depth >= 1
            }
        }),
{
    let charge = slab_of(code_space) * rows * lane_bytes * 2;
    let slab = slab_of(code_space);
    assert(charge > 0) by (nonlinear_arith)
        requires
            charge == slab * rows * lane_bytes * 2,
            slab > 0,
            rows > 0,
            lane_bytes > 0,
    ;
    let q = l2_bytes / charge;
    vstd::arithmetic::div_mod::lemma_fundamental_div_mod(l2_bytes, charge);
    vstd::arithmetic::div_mod::lemma_div_pos_is_pos(l2_bytes, charge);
    let cached = if q == 0 {
        1
    } else {
        q
    };
    assert(q * charge <= l2_bytes && (cached + 1) * charge > l2_bytes) by (nonlinear_arith)
        requires
            l2_bytes == charge * q + l2_bytes % charge,
            0 <= l2_bytes % charge < charge,
            cached >= q,
            charge > 0,
    ;
    if let Some(capacity) = lane_capacity {
        let c = capacity as int / block;
        vstd::arithmetic::div_mod::lemma_fundamental_div_mod(capacity as int, block);
        vstd::arithmetic::div_mod::lemma_div_pos_is_pos(capacity as int, block);
        assert(c * block <= capacity && (c + 1) * block > capacity) by (nonlinear_arith)
            requires
                capacity as int == block * c + capacity as int % block,
                0 <= capacity as int % block < block,
        ;
        assert(cached <= c ==> cached * block <= capacity) by (nonlinear_arith)
            requires
                c * block <= capacity,
                block > 0,
        ;
        assert(c < cached ==> c * charge <= cached * charge) by (nonlinear_arith)
            requires
                charge > 0,
        ;
        assert(block <= capacity ==> c >= 1) by (nonlinear_arith)
            requires
                (c + 1) * block > capacity,
                block > 0,
        ;
        assert(0 * block == 0 && 1 * block == block);
    }
}

/// The dense step loses lanes in proportion to the rows that are missing, rounded
/// down, and none where no row is missing.
pub proof fn law_missing_rows_waste_lanes(rows: int, steps: Steps)
    requires
        0 <= rows,
        0 < steps.dense_rows,
    ensures
        rows >= steps.dense_rows ==> effective_step(rows, steps) == steps.dense,
        rows < steps.dense_rows ==> effective_step(rows, steps) * steps.dense_rows <= steps.dense
            * rows < (effective_step(rows, steps) + 1) * steps.dense_rows,
{
    let (d, w) = (steps.dense as int, steps.dense_rows as int);
    if rows >= w {
        vstd::arithmetic::div_mod::lemma_div_by_multiple(d, w);
    } else {
        let e = d * rows / w;
        vstd::arithmetic::div_mod::lemma_fundamental_div_mod(d * rows, w);
        assert(e * w <= d * rows < (e + 1) * w) by (nonlinear_arith)
            requires
                d * rows == w * e + d * rows % w,
                0 <= d * rows % w < w,
        ;
    }
}

/// A table is built for blocks only, where its step covers more than the dense one
/// and the cache takes it; and at its own declarations only where the steps of the
/// build and of the gathers together are fewer than the dense steps.
pub proof fn law_tables_pay(
    code_space: int,
    block: int,
    cols: int,
    rows: int,
    steps: Steps,
    l1_bytes: int,
    lane_bytes: int,
    table: TableSpec,
    plan: Plan,
    traversal: Traversal,
)
    ensures
        pays(code_space, block, cols, rows, steps, l1_bytes, lane_bytes) ==> {
            &&& block > 1
            &&& 0 < effective_step(rows, steps) < steps.table
            &&& fits(code_space, rows, l1_bytes, lane_bytes)
        },
        pays_for(code_space, block, cols, rows, steps, l1_bytes, lane_bytes, table) <==> ({
            let (step, dense) = (block * table.lanes_per_add, effective_step(rows, steps));
            let q = table.build_products_per_step as int;
            &&& block > 1
            &&& fits(code_space, rows, l1_bytes, lane_bytes)
            &&& step <= usize::MAX
            &&& steps.table == step
            &&& 0 < q
            &&& 0 < dense < step
            &&& (code_space * step + cols * q) * dense < cols * q * step
        }),
        admitted(traversal, code_space, block, plan, steps, lane_bytes, table) <==> match
        traversal {
            Traversal::OutputMajor => false,
            Traversal::Tabulated => fits(
                code_space,
                plan.rows as int,
                blocking::L1_BYTES as int,
                lane_bytes,
            ),
            Traversal::Blocked => pays_for(
                code_space,
                block,
                plan.cols as int,
                plan.rows as int,
                steps,
                blocking::L1_BYTES as int,
                lane_bytes,
                table,
            ),
        },
{
    let (t, e) = (block * table.lanes_per_add, effective_step(rows, steps));
    let q = table.build_products_per_step as int;
    assert((code_space * t + cols * q) * e == code_space * e * t + cols * q * e && cols * q * (t
        - e) == cols * q * t - cols * q * e) by (nonlinear_arith);
}

/// The columns of a group fill the lanes that are carried together and no more, and
/// a taller tile is carried by itself.
pub proof fn law_groups_fill_lanes(rows: int)
    requires
        0 < rows,
    ensures
        rows <= 16 ==> group_of(rows) * rows <= 16 < (group_of(rows) + 1) * rows,
        rows > 16 ==> group_of(rows) == 1,
{
    if rows < 16 {
        let g = 16int / rows;
        vstd::arithmetic::div_mod::lemma_fundamental_div_mod(16, rows);
        assert(g * rows <= 16 < (g + 1) * rows) by (nonlinear_arith)
            requires
                16 == rows * g + 16int % rows,
                0 <= 16int % rows < rows,
        ;
    }
}

/// The limbs of a product of extents spell it, least limb first.
pub proof fn law_cost_limbs(cost: CostProduct)
    ensures
        cost.value() == cost.0[0] + cost.0[1] * pow2(64) + cost.0[2] * pow2(128),
{
    vstd::arithmetic::power2::lemma2_to64();
    vstd::arithmetic::power2::lemma2_to64_rest();
    vstd::arithmetic::power2::lemma_pow2_adds(64, 64);
    let r = 0x1_0000_0000_0000_0000int;
    let x = cost.0[2] as int;
    assert(x * r * r == x * (r * r)) by (nonlinear_arith);
}

/// A bound is kept up to the cap and marked by one more than the cap past it.
pub proof fn law_bounds_are_marked(v: int, cap: int)
    ensures
        v <= cap ==> within(v, cap) == v,
        v > cap ==> within(v, cap) == cap + 1,
{
}

/// A step bound that is regraded from local bases to those of the call, which lie
/// no higher, counts in units as many times smaller as two to the distance; where
/// the cap does not hold that, or a base lies lower, the bound is marked.
pub proof fn law_regrading(local: LaneScale, call: LaneScale, cap: int)
    requires
        0 <= cap,
    ensures
        ({
            let (a, b) = (local.base_a - call.base_a, local.base_b - call.base_b);
            let r = regraded(local, call, cap);
            &&& 0 <= r <= cap + 1
            &&& r <= cap ==> 0 <= a && 0 <= b && r == local.per_step * pow2(a as nat) * pow2(
                b as nat,
            )
            &&& 0 <= a <= i32::MAX && 0 <= b <= i32::MAX && local.per_step * pow2(a as nat) * pow2(
                b as nat,
            ) <= cap ==> r <= cap
        }),
{
    let (a, b) = (local.base_a - call.base_a, local.base_b - call.base_b);
    if 0 <= a && 0 <= b {
        vstd::arithmetic::power2::lemma_pow2_adds(a as nat, b as nat);
        vstd::arithmetic::power2::lemma_pow2_pos(a as nat);
        vstd::arithmetic::power2::lemma_pow2_pos(b as nat);
        let (s, u, v) = (local.per_step as int, pow2(a as nat) as int, pow2(b as nat) as int);
        assert(s * u * v == s * (u * v) && s * (u * v) >= s) by (nonlinear_arith)
            requires
                s >= 0,
                u >= 1,
                v >= 1,
        ;
    }
}

/// The grade of a product is the sum of the bases, held to a word; and the step of
/// integers is the square of their bound, held to a word.
pub proof fn law_grade_of_products(scale: LaneScale, bound: int)
    requires
        0 <= bound,
    ensures
        i32::MIN <= scale.base_a + scale.base_b <= i32::MAX ==> scale.grade() == scale.base_a
            + scale.base_b,
        scale.base_a + scale.base_b > i32::MAX ==> scale.grade() == i32::MAX,
        scale.base_a + scale.base_b < i32::MIN ==> scale.grade() == i32::MIN,
        square_of(bound) <= bound * bound,
        square_of(bound) < bound * bound ==> square_of(bound) == u128::MAX,
{
    assert(bound * bound >= 0) by (nonlinear_arith);
}

/// A lane takes as many products at a bound as its magnitude holds, and no more.
pub proof fn law_lane_capacity(cap: nat, bound: int)
    requires
        0 < bound,
    ensures
        capacity_of(Some(cap), bound) is Some,
        ({
            let run = capacity_of(Some(cap), bound)->0;
            &&& run * (bound * bound) <= cap
            &&& run < usize::MAX ==> (run + 1) * (bound * bound) > cap
        }),
        capacity_of(Some(cap), 0) == Some(usize::MAX),
        capacity_of(None, bound) is None,
{
    let square = bound * bound;
    assert(square > 0) by (nonlinear_arith)
        requires
            square == bound * bound,
            bound > 0,
    ;
    let q = cap as int / square;
    vstd::arithmetic::div_mod::lemma_fundamental_div_mod(cap as int, square);
    vstd::arithmetic::div_mod::lemma_div_pos_is_pos(cap as int, square);
    assert(q * square <= cap < (q + 1) * square) by (nonlinear_arith)
        requires
            cap as int == square * q + cap as int % square,
            0 <= cap as int % square < square,
    ;
    let run = capacity_of(Some(cap), bound)->0;
    assert(run * square <= q * square) by (nonlinear_arith)
        requires
            run <= q,
            square > 0,
    ;
}

/// A census counts the work entered in it, each kind by itself, up to the largest
/// counter; work is added kind by kind.
pub proof fn law_census_counts(census: Census, s: Tally, t: Tally, n: nat)
    ensures
        ({
            let after = census.charged(t);
            &&& after.multiplies == u64::MAX || after.multiplies == census.multiplies + t.multiplies
            &&& after.adds == u64::MAX || after.adds == census.adds + t.adds
            &&& after.table_reads == u64::MAX || after.table_reads == census.table_reads + t.reads
            &&& after.decodes == u64::MAX || after.decodes == census.decodes + t.decodes
            &&& after.kernel_calls == u64::MAX || after.kernel_calls == census.kernel_calls
                + t.calls
            &&& census.multiplies + t.multiplies >= after.multiplies
            &&& census.adds + t.adds >= after.adds
            &&& census.table_reads + t.reads >= after.table_reads
            &&& census.decodes + t.decodes >= after.decodes
            &&& census.kernel_calls + t.calls >= after.kernel_calls
        }),
        s.plus(t).multiplies == s.multiplies + t.multiplies,
        s.plus(t).adds == s.adds + t.adds,
        s.plus(t).reads == s.reads + t.reads,
        s.plus(t).decodes == s.decodes + t.decodes,
        s.plus(t).calls == s.calls + t.calls,
        Tally::none() == (Tally { multiplies: 0, adds: 0, reads: 0, decodes: 0, calls: 0 }),
        Tally::multiplying(n) == (Tally { multiplies: n, adds: 0, reads: 0, decodes: 0, calls: 0 }),
        Tally::adding(n) == (Tally { multiplies: 0, adds: n, reads: 0, decodes: 0, calls: 0 }),
        Tally::reading(n) == (Tally { multiplies: 0, adds: 0, reads: n, decodes: 0, calls: 0 }),
        Tally::decoding(n) == (Tally { multiplies: 0, adds: 0, reads: 0, decodes: n, calls: 0 }),
        Tally::gathering(n) == (Tally { multiplies: 0, adds: n, reads: n, decodes: 0, calls: 0 }),
        Tally::calling(n) == (Tally { multiplies: 0, adds: 0, reads: 0, decodes: 0, calls: n }),
{
}

/// What products without a table cost: a streamed one multiplies once for each cell
/// and step and decodes each weight once for the column or once for each cell; a
/// packed one decodes each weight once and calls one kernel; a paged one multiplies
/// nothing and calls a kernel for each page of each cell, or where a page is as long
/// as the reduction for each tile of rows of each column.
pub proof fn law_costs_without_tables(m: int, k: int, n: int, cells: int, page: int)
    requires
        0 <= m,
        0 <= k,
        0 <= n,
        0 < page,
    ensures
        stream_tally(m, k, n, true) == (Tally {
            multiplies: (m * n * k) as nat,
            adds: 0,
            reads: 0,
            decodes: (n * k) as nat,
            calls: 0,
        }),
        stream_tally(m, k, n, false) == (Tally {
            multiplies: (m * n * k) as nat,
            adds: 0,
            reads: 0,
            decodes: (m * n * k) as nat,
            calls: 0,
        }),
        n * k + k <= cells <= usize::MAX ==> packed_tally(cells, k, n) == (Tally {
            multiplies: 0,
            adds: 0,
            reads: 0,
            decodes: (n * k) as nat,
            calls: 1,
        }),
        n * k + k > cells ==> packed_tally(cells, k, n) == Tally::none(),
        page >= k ==> paged_tally(m, k, n, page, true) == (Tally {
            multiplies: 0,
            adds: 0,
            reads: 0,
            decodes: (n * k) as nat,
            calls: (n * ceil_div(m, 16)) as nat,
        }),
        page < k ==> paged_tally(m, k, n, page, true) == (Tally {
            multiplies: 0,
            adds: (m * n * (ceil_div(k, page) - 1)) as nat,
            reads: 0,
            decodes: (m * n * k) as nat,
            calls: (m * n * ceil_div(k, page)) as nat,
        }),
        paged_tally(m, k, n, page, false) == (Tally {
            multiplies: 0,
            adds: 0,
            reads: 0,
            decodes: least(k, page) as nat,
            calls: 1,
        }),
        cells > 0 ==> page_of(cells) == cells,
        page_of(0) == blocking::KC,
{
    assert(n * k >= 0) by (nonlinear_arith)
        requires
            n >= 0,
            k >= 0,
    ;
}

/// A build charges one product for each entry, element and row, as multiplications
/// or as additions by what its sequence declares.
pub proof fn law_build_costs(spec: TableSpec, space: nat, block: nat, rows: nat)
    ensures
        ({
            let t = build_tally(spec, space as int, block as int, rows as int);
            &&& t.multiplies + t.adds == space * block * rows
            &&& spec.build_multiplies ==> t.adds == 0
            &&& !spec.build_multiplies ==> t.multiplies == 0
            &&& t.reads == 0 && t.decodes == 0 && t.calls == 0
        }),
{
    assert(space * block * rows >= 0);
}

/// The least and the most of two numbers, the depth that all limits allow, and the
/// accumulators that a pass is charged.
pub proof fn law_limits(a: int, b: int, c: int, code_space: int, rows: int, cols: int, per: int)
    requires
        0 < per,
        0 <= rows,
        0 <= cols,
    ensures
        least(a, b) <= a,
        least(a, b) <= b,
        least(a, b) == a || least(a, b) == b,
        most(a, b) >= a,
        most(a, b) >= b,
        most(a, b) == a || most(a, b) == b,
        planned_depth(a, b, c) >= 1,
        planned_depth(a, b, c) > 1 ==> planned_depth(a, b, c) <= a && planned_depth(a, b, c) <= b
            && planned_depth(a, b, c) <= c,
        1 <= a && 1 <= b && 1 <= c ==> planned_depth(a, b, c) == a || planned_depth(a, b, c) == b
            || planned_depth(a, b, c) == c,
        ({
            let lanes = rows * cols + words_of(code_space, rows, a);
            let extra = exact_charge(code_space, rows, cols, a, per) - rows * cols;
            lanes <= extra * per && (lanes > 0 ==> (extra - 1) * per < lanes)
        }),
{
    assert(rows * cols >= 0) by (nonlinear_arith)
        requires
            rows >= 0,
            cols >= 0,
    ;
    law_quotient_rounds_up(rows * cols + words_of(code_space, rows, a), per);
    assert(0 * per == 0);
}

/// The sequence that is run is the first on offer that the caller's backend admits
/// and that is exact at the bound, and the reference where none is.
pub proof fn law_first_sequence_runs(
    first: Option<TableSpec>,
    second: Option<TableSpec>,
    reference: TableSpec,
    backend: Backend,
    bound: nat,
)
    ensures
        ({
            let admits = |s: TableSpec|
                (backend == Backend::Auto || s.backend == backend) && bound <= s.max_bound;
            let r = chosen(first, second, reference, backend, bound);
            &&& eligible(first, backend, bound) <==> first is Some && admits(first->0)
            &&& first is Some && admits(first->0) ==> r == first->0
            &&& !(first is Some && admits(first->0)) && second is Some && admits(second->0) ==> r
                == second->0
            &&& !(first is Some && admits(first->0)) && !(second is Some && admits(second->0))
                ==> r == reference
        }),
{
}

/// The list of first occurrences names each place that occurs, and nothing else,
/// once each; and what it names earlier has occurred before any occurrence of what
/// it names later.
pub proof fn law_first_occurrences(places: Seq<nat>, n: int, at: int, x: int, y: int)
    requires
        0 <= n <= places.len(),
        forall|i: int| 0 <= i < n ==> #[trigger] places[i] <= usize::MAX,
    ensures
        0 <= at < n ==> exists|z: int|
            0 <= z < dedup(places, n).len() && #[trigger] dedup(places, n)[z] == places[at],
        0 <= x < dedup(places, n).len() ==> exists|i: int|
            0 <= i < n && #[trigger] places[i] == dedup(places, n)[x],
        0 <= x < y < dedup(places, n).len() ==> dedup(places, n)[x] != dedup(places, n)[y],
        0 <= x < y < dedup(places, n).len() && 0 <= at < n && places[at] == dedup(places, n)[y]
            ==> exists|i: int| 0 <= i < at && #[trigger] places[i] == dedup(places, n)[x],
    decreases n,
{
    let now = dedup(places, n);
    if 0 <= at < n {
        lemma_dedup_contains(places, n, at);
        let z = choose|z: int| 0 <= z < now.len() && now[z] == places[at] as usize;
        assert(now[z] == places[at]);
    }
    if 0 <= x < now.len() {
        lemma_dedup_from(places, n, x);
        let i = choose|i: int| 0 <= i < n && now[x] == #[trigger] places[i] as usize;
        assert(places[i] == now[x]);
    }
    if 0 <= x < y < now.len() {
        let before = dedup(places, n - 1);
        let next = places[n - 1] as usize;
        law_first_occurrences(places, n - 1, at, x, y);
        assert(now[x] == before[x]);
        lemma_dedup_from(places, n - 1, x);
        let i = choose|i: int| 0 <= i < n - 1 && before[x] == #[trigger] places[i] as usize;
        assert(places[i] == now[x]);
        if y < before.len() {
            assert(now[y] == before[y]);
        } else {
            assert(now[y] == next && !before.contains(next));
            assert(before.contains(before[x]));
            if 0 <= at < n - 1 && places[at] == now[y] {
                lemma_dedup_contains(places, n - 1, at);
            }
        }
    }
}

/// A dictionary of names asks for a word for each name and, twice over, for the
/// least power of two that is at least twice the names.
pub proof fn law_dictionary_words(n: nat, e: nat)
    ensures
        ({
            let slots = dictionary_words(n as int) - n;
            &&& slots % 2 == 0
            &&& 2 * n <= slots / 2
            &&& is_pow2(slots / 2)
            &&& 2 * n <= pow2(e) ==> slots / 2 <= pow2(e)
        }),
{
    law_power_rounds_up(2 * n, e);
}

/// The hash of a run reads at most sixteen of its places: it is the number whose
/// digits to the base three, of any size, are the length and those places, highest
/// first, modulo the slots.
pub proof fn law_hash_is_base_three(digits: Seq<nat>, modulus: int)
    requires
        0 < modulus,
    ensures
        ({
            let len = digits.len() as int;
            let t = if len < 16 {
                len
            } else {
                16
            };
            run_hash(digits, modulus) == (len * pow(3, t as nat) + added(
                Seq::new(t as nat, |i: int| digits[i] * pow(3, (t - 1 - i) as nat)),
            )) % modulus
        }),
{
    let len = digits.len() as int;
    lemma_base_three(len, digits, measured(len));
}

proof fn lemma_base_three(start: int, digits: Seq<nat>, t: int)
    requires
        0 <= t,
    ensures
        radix_number(start, digits, t) == start * pow(3, t as nat) + added(
            Seq::new(t as nat, |i: int| digits[i] * pow(3, (t - 1 - i) as nat)),
        ),
    decreases t,
{
    vstd::arithmetic::power::lemma_pow0(3);
    let terms = Seq::new(t as nat, |i: int| digits[i] * pow(3, (t - 1 - i) as nat));
    if t > 0 {
        let shorter = Seq::new(
            (t - 1) as nat,
            |i: int| digits[i] * pow(3, (t - 2 - i) as nat),
        );
        lemma_base_three(start, digits, t - 1);
        lemma_tripled(terms.drop_last(), shorter, digits, t);
        reveal(pow);
        assert(pow(3, t as nat) == 3 * pow(3, (t - 1) as nat));
        assert(terms.last() == digits[t - 1] * pow(3, 0));
        assert(added(terms) == added(terms.drop_last()) + terms.last());
        let p = pow(3, (t - 1) as nat);
        assert(start * (3 * p) == 3 * (start * p)) by (nonlinear_arith);
        assert(digits[t - 1] * 1 == digits[t - 1]);
    } else {
        assert(added(terms) == 0);
        assert(start * 1 == start);
    }
}

/// Terms that are three times others add up to three times their sum.
proof fn lemma_tripled(longer: Seq<int>, shorter: Seq<int>, digits: Seq<nat>, t: int)
    requires
        t > 0,
        longer.len() == shorter.len(),
        longer.len() <= t - 1,
        forall|i: int|
            0 <= i < longer.len() ==> #[trigger] longer[i] == digits[i] * pow(
                3,
                (t - 1 - i) as nat,
            ),
        forall|i: int|
            0 <= i < shorter.len() ==> #[trigger] shorter[i] == digits[i] * pow(
                3,
                (t - 2 - i) as nat,
            ),
    ensures
        added(longer) == 3 * added(shorter),
    decreases longer.len(),
{
    if longer.len() > 0 {
        let last = longer.len() - 1;
        lemma_tripled(longer.drop_last(), shorter.drop_last(), digits, t);
        reveal(pow);
        assert(pow(3, (t - 1 - last) as nat) == 3 * pow(3, (t - 2 - last) as nat));
        let (d, p) = (digits[last] as int, pow(3, (t - 2 - last) as nat));
        assert(longer[last] == digits[last] * pow(3, (t - 1 - last) as nat));
        assert(shorter[last] == digits[last] * pow(3, (t - 2 - last) as nat));
        assert(d * (3 * p) == 3 * (d * p)) by (nonlinear_arith);
    }
}

/// A pass whose lanes have an offer of their own: its tile is one of the heights and
/// no taller than the product, two of its slabs fit the cache, its sums fit the
/// accumulators and its sums and slabs the lanes; no taller tile that fits would do,
/// no wider block of columns fits the accumulators, and there is some depth.
pub proof fn law_selected_pass(
    plan: Plan,
    code_space: int,
    shape: Shape,
    lane_bytes: int,
    exact_offer: int,
    lane_offer: int,
    block: int,
    lane_capacity: Option<usize>,
    taller: int,
)
    requires
        is_selected(
            Some(plan),
            code_space,
            shape,
            lane_bytes,
            exact_offer,
            lane_offer,
            block,
            lane_capacity,
        ),
        0 < lane_bytes,
        0 <= block,
    ensures
        ({
            let (rows, cols, depth) = (plan.rows as int, plan.cols as int, plan.depth as int);
            let slab = slab_of(code_space);
            &&& rows == 1 || rows == 2 || rows == 4 || rows == 8 || rows == 16
            &&& rows <= shape.m
            &&& slab > 0
            &&& 2 * (slab * rows * lane_bytes) <= blocking::L1_BYTES
            &&& 1 <= cols <= shape.n
            &&& rows * cols <= exact_offer
            &&& cols < shape.n ==> rows * (cols + 1) > exact_offer
            &&& 1 <= depth
            &&& rows * cols + slab * rows * depth <= lane_offer
            &&& depth > 1 ==> depth * block <= shape.k
            &&& lane_capacity matches Some(capacity) ==> block <= capacity
            &&& taller == 2 || taller == 4 || taller == 8 || taller == 16 ==> {
                ||| taller <= rows
                ||| taller > shape.m
                ||| taller > exact_offer
                ||| slab * taller >= lane_offer
                ||| 2 * (slab * taller * lane_bytes) > blocking::L1_BYTES
            }
        }),
{
    let (rows, cols, depth) = (plan.rows as int, plan.cols as int, plan.depth as int);
    let slab = slab_of(code_space);
    law_tallest_tile_fits(code_space, rows, blocking::L1_BYTES as int, lane_bytes);
    if taller == 2 || taller == 4 || taller == 8 || taller == 16 {
        law_tallest_tile_fits(code_space, taller, blocking::L1_BYTES as int, lane_bytes);
        if taller > rows {
            assert(!rung_fits(
                taller,
                code_space,
                shape.m as int,
                lane_bytes,
                exact_offer,
                lane_offer,
            ));
        }
    }
    if cols < shape.n {
        vstd::arithmetic::div_mod::lemma_fundamental_div_mod(exact_offer, rows);
        assert(rows * (cols + 1) > exact_offer) by (nonlinear_arith)
            requires
                cols == exact_offer / rows,
                exact_offer == rows * (exact_offer / rows) + exact_offer % rows,
                exact_offer % rows < rows,
        ;
    }
    let blocks = shape.k as int / block;
    if depth > 1 {
        vstd::arithmetic::div_mod::lemma_fundamental_div_mod(shape.k as int, block);
        assert(depth <= blocks);
        assert(depth * block <= shape.k) by (nonlinear_arith)
            requires
                depth <= blocks,
                shape.k as int == block * blocks + shape.k as int % block,
                0 <= shape.k as int % block,
                block > 0,
        ;
    }
}

/// A pass whose lanes are read out of the accumulators: the same, with its charge
/// within the offer, no wider block of columns within it at one slab, and no taller
/// tile within it at one column and one slab.
pub proof fn law_shared_pass(
    plan: Plan,
    code_space: int,
    shape: Shape,
    lane_bytes: int,
    exact_offer: int,
    per: int,
    block: int,
    lane_capacity: Option<usize>,
    taller: int,
)
    requires
        is_shared(
            Some(plan),
            code_space,
            shape,
            lane_bytes,
            exact_offer,
            per,
            block,
            lane_capacity,
        ),
        0 < lane_bytes,
    ensures
        ({
            let (rows, cols, depth) = (plan.rows as int, plan.cols as int, plan.depth as int);
            let slab = slab_of(code_space);
            let charge = |r: int, c: int, d: int|
                r * c + ceil_div(r * c + words_of(code_space, r, d), per);
            &&& rows == 1 || rows == 2 || rows == 4 || rows == 8 || rows == 16
            &&& rows <= shape.m
            &&& slab > 0
            &&& 2 * (slab * rows * lane_bytes) <= blocking::L1_BYTES
            &&& 1 <= cols <= shape.n
            &&& 1 <= depth
            &&& charge(rows, cols, depth) <= exact_offer
            &&& cols < shape.n ==> charge(rows, cols + 1, 1) > exact_offer || rows * (cols + 1)
                + words_of(code_space, rows, 1) > usize::MAX
            &&& lane_capacity matches Some(capacity) ==> block <= capacity
            &&& taller == 2 || taller == 4 || taller == 8 || taller == 16 ==> {
                ||| taller <= rows
                ||| taller > shape.m
                ||| charge(taller, 1, 1) > exact_offer
                ||| taller + words_of(code_space, taller, 1) > usize::MAX
                ||| 2 * (slab * taller * lane_bytes) > blocking::L1_BYTES
            }
        }),
{
    let rows = plan.rows as int;
    law_tallest_tile_fits(code_space, rows, blocking::L1_BYTES as int, lane_bytes);
    if taller == 2 || taller == 4 || taller == 8 || taller == 16 {
        law_tallest_tile_fits(code_space, taller, blocking::L1_BYTES as int, lane_bytes);
        if taller > rows {
            assert(!shared_rung_fits(
                taller,
                code_space,
                shape.m as int,
                lane_bytes,
                exact_offer,
                per,
            ));
        }
    }
}

/// No pass is planned only where there is nothing to plan, where no tile of one row
/// fits, or where the tallest tile that fits leaves less than a slab.
pub proof fn law_no_pass(
    code_space: int,
    shape: Shape,
    lane_bytes: int,
    exact_offer: int,
    lane_offer: int,
    per: int,
    block: int,
    lane_capacity: Option<usize>,
)
    requires
        0 < lane_bytes,
        0 < per,
        0 < shape.m,
        0 < shape.n,
        0 < block,
        slab_of(code_space) > 0,
        lane_capacity matches Some(capacity) ==> block <= capacity,
        2 * (slab_of(code_space) * 1 * lane_bytes) <= blocking::L1_BYTES,
    ensures
        is_selected(
            None,
            code_space,
            shape,
            lane_bytes,
            exact_offer,
            lane_offer,
            block,
            lane_capacity,
        ) ==> exact_offer < 1 || slab_of(code_space) >= lane_offer || exists|rows: int|
            {
                &&& rows == 1 || rows == 2 || rows == 4 || rows == 8 || rows == 16
                &&& lane_offer - rows * least(shape.n as int, exact_offer / rows)
                    < #[trigger] (slab_of(code_space) * rows)
            },
        is_shared(
            None,
            code_space,
            shape,
            lane_bytes,
            exact_offer,
            per,
            block,
            lane_capacity,
        ) ==> exact_charge(code_space, 1, 1, 1, per) > exact_offer || 1 + words_of(
            code_space,
            1,
            1,
        ) > usize::MAX,
{
    law_tallest_tile_fits(code_space, 1, blocking::L1_BYTES as int, lane_bytes);
    let slab = slab_of(code_space);
    assert(slab * 1 == slab);
    if is_selected(
        None,
        code_space,
        shape,
        lane_bytes,
        exact_offer,
        lane_offer,
        block,
        lane_capacity,
    ) {
        if exact_offer >= 1 && slab < lane_offer {
            assert(rung_fits(1, code_space, shape.m as int, lane_bytes, exact_offer, lane_offer));
            let x = choose|x: int|
                {
                    &&& #[trigger] rung_fits(
                        x,
                        code_space,
                        shape.m as int,
                        lane_bytes,
                        exact_offer,
                        lane_offer,
                    )
                    &&& forall|y: int|
                        x < y ==> !#[trigger] rung_fits(
                            y,
                            code_space,
                            shape.m as int,
                            lane_bytes,
                            exact_offer,
                            lane_offer,
                        )
                    &&& slab * x > left_for_stack(
                        lane_offer,
                        x,
                        least(shape.n as int, exact_offer / x),
                    )
                };
            assert(lane_offer - x * least(shape.n as int, exact_offer / x) < slab * x);
        }
    }
    if is_shared(
        None,
        code_space,
        shape,
        lane_bytes,
        exact_offer,
        per,
        block,
        lane_capacity,
    ) {
        assert(!shared_rung_fits(1, code_space, shape.m as int, lane_bytes, exact_offer, per));
    }
}

/// What is asked for a pass is what it takes: an accumulator for each sum, and the
/// least narrow words whose bytes hold the lanes of its sums and its slabs.
pub proof fn law_asked_offers<E: Tabulated>(plan: Plan, space: int)
    requires
        !E::lane_exact(),
        slab_of(space) >= 0,
        <E::Lane as Lane<E>>::width() > 0,
    ensures
        totals_of::<E>(plan, space) == plan.rows * plan.cols,
        ({
            let lanes = plan.rows * plan.cols + slab_of(space) * plan.rows * plan.depth;
            let bytes = lanes * <E::Lane as Lane<E>>::width();
            let words = lane_words_of::<E>(plan, space);
            bytes <= usize::MAX ==> bytes <= 8 * words < bytes + 8
        }),
{
    let slab = slab_of(space);
    let lanes = plan.rows * plan.cols + slab * plan.rows * plan.depth;
    let width = <E::Lane as Lane<E>>::width() as int;
    assert(lanes >= 0) by (nonlinear_arith)
        requires
            lanes == plan.rows * plan.cols + slab * plan.rows * plan.depth,
            slab >= 0,
    ;
    assert(lanes * width >= 0) by (nonlinear_arith)
        requires
            lanes >= 0,
            width > 0,
    ;
    law_quotient_rounds_up(sat(lanes * width) as int, 8);
}

/// A stack is laid out where its extents are positive, there is a slab, and its
/// words are there; the slots of a set are as many as both its lists hold.
pub proof fn law_storage(len: int, code_space: int, rows: int, depth: int, set: EntrySet<'_>)
    ensures
        stacks(len, code_space, rows, depth) <==> 0 < code_space && 0 < rows && 0 < depth
            && slab_of(code_space) > 0 && slab_of(code_space) * rows * depth <= len,
        ({
            let s = set;
            &&& set.room() <= s.seen@.len()
            &&& set.room() <= s.occupied@.len()
            &&& set.room() == s.seen@.len() || set.room() == s.occupied@.len()
        }),
{
}

/// What a decoded book leaves in its panel. With a list of places, the graded
/// elements of the listed entries; without one and with fewer codes of single
/// elements than entries, those of the entries that codes name; and else those of
/// every entry. Every other cell is as it was.
pub proof fn law_decoded_books<E: Graded, Bd: Bound, C: Enumerable<E, Bd>>(
    now: Seq<E>,
    before: Seq<E>,
    w: CodedMatrix<'_, E, Bd, C>,
    list: Seq<usize>,
    base: i32,
    c: int,
    t: int,
    q: int,
    x: int,
)
    requires
        0 <= c < C::space(),
        0 <= t < C::block(),
    ensures
        ({
            let entry = w.codec.decoded(C::at_index(c), t).element().graded(base);
            let at = c * C::block() + t;
            let sparse = C::block() == 1 && !C::sign_book() && w.codes@.len() < C::space();
            &&& book_written(now, before, w, None, base) ==> {
                &&& !sparse ==> now[at] == entry
                &&& sparse && 0 <= x < w.codes@.len() && C::index(w.codes@[x]) == c ==> now[at]
                    == entry
                &&& sparse && now[at] != before[at] ==> exists|y: int|
                    0 <= y < w.codes@.len() && C::index(#[trigger] w.codes@[y]) == c
                &&& C::space() * C::block() <= q < now.len() ==> now[q] == before[q]
                &&& now.len() == before.len()
            }
            &&& book_written(now, before, w, Some(list), base) ==> {
                &&& 0 <= x < list.len() && list[x] == c ==> now[at] == entry
                &&& now[at] != before[at] ==> exists|y: int|
                    0 <= y < list.len() && #[trigger] list[y] == c
                &&& C::space() * C::block() <= q < now.len() ==> now[q] == before[q]
                &&& now.len() == before.len()
            }
            &&& decoded_count(w, Some(list)) == list.len()
            &&& decoded_count(w, None) == if sparse {
                w.codes@.len()
            } else {
                (C::space() * C::block()) as nat
            }
        }),
{
    let at = c * C::block() + t;
    if book_written(now, before, w, None, base) {
        let _ = now[c * C::block() + t];
        if 0 <= x < w.codes@.len() && C::index(w.codes@[x]) == c {
            assert(stores(w, c));
        }
    }
    if book_written(now, before, w, Some(list), base) {
        let _ = now[c * C::block() + t];
        if 0 <= x < list.len() && list[x] == c {
            assert(lists(list, c as nat));
        }
    }
    if stores(w, c) {
        let y = choose|y: int| 0 <= y < w.codes@.len() && C::index(#[trigger] w.codes@[y]) == c;
        assert(C::index(w.codes@[y]) == c);
    }
    if lists(list, c as nat) {
        let y = choose|y: int| 0 <= y < list.len() && #[trigger] list[y] == c as nat;
        assert(list[y] == c);
    }
}

/// Integers have no grades: they are regraded, at base zero, to themselves, and a
/// unit of their products is worth one; their scale is the square of the bound.
pub proof fn law_integers_have_no_grades(
    a: i8,
    b: i16,
    c: i32,
    d: i64,
    base: i32,
    bound: nat,
    single: bool,
)
    requires
        bound <= u64::MAX,
    ensures
        a.graded(base) == a && b.graded(base) == b && c.graded(base) == c && d.graded(base) == d,
        a.gradable(base) <==> base == 0,
        b.gradable(base) <==> base == 0,
        c.gradable(base) <==> base == 0,
        d.gradable(base) <==> base == 0,
        <i8 as Element>::weight(base) == 1 && <i16 as Element>::weight(base) == 1,
        <i32 as Element>::weight(base) == 1 && <i64 as Element>::weight(base) == 1,
        forall|acts: Seq<i8>, met: Seq<i8>|
            #[trigger] <i8 as Tabulated>::found_scale(acts, met, single, bound) == (LaneScale {
                base_a: 0,
                base_b: 0,
                per_step: (bound * bound) as u128,
            }),
        forall|acts: Seq<i64>, met: Seq<i64>|
            #[trigger] <i64 as Tabulated>::found_scale(acts, met, single, bound) == (LaneScale {
                base_a: 0,
                base_b: 0,
                per_step: (bound * bound) as u128,
            }),
{
    assert(0 <= bound * bound <= u64::MAX * u64::MAX) by (nonlinear_arith)
        requires
            0 <= bound <= u64::MAX,
    ;
}

/// The reference sequence declares nothing of the machine: one step, one lane and
/// one product at a time, any element unless it looks at signs, and it multiplies
/// only where it takes products as such.
pub proof fn law_reference_sequence(
    rows: usize,
    group: usize,
    lane_cap: u128,
    sequence: Sequence,
)
    ensures
        portable_of(rows, group, lane_cap, sequence) == (TableSpec {
            backend: Backend::Portable,
            rows,
            group,
            k_group: 1,
            lanes_per_add: 1,
            build_products_per_step: 1,
            lane_cap,
            max_bound: match sequence {
                Sequence::SignMask => 1,
                _ => u128::MAX,
            },
            build_multiplies: sequence is Product,
            sequence,
        }),
{
}

/// The activations that grading looks at: cells past the book and a tile keep whole
/// rows, which are looked at once; the others are looked at once for each block of
/// columns, and where there is one block nothing is kept.
pub proof fn law_graded_activations(
    m: int,
    k: int,
    n: int,
    cols: int,
    cells: int,
    space: int,
    block: int,
)
    requires
        0 < k,
        0 <= m,
        0 < n,
        0 < cols,
        (space + 16) * block <= cells,
    ensures
        ({
            let kept = cached_rows(m, k, n, cols, cells, space, block);
            let looked = projection_tally(m, k, n, cols, kept);
            &&& 0 <= kept <= m
            &&& n <= cols ==> kept == 0
            &&& kept * k <= cells - (space + 16) * block
            &&& n > cols && kept < m ==> (kept + 1) * k > cells - (space + 16) * block
            &&& looked.decodes == kept * k + (m - kept) * k * ceil_div(n, cols)
            &&& looked.multiplies == 0 && looked.adds == 0 && looked.reads == 0 && looked.calls == 0
        }),
{
    let room = cells - (space + 16) * block;
    let q = room / k;
    vstd::arithmetic::div_mod::lemma_fundamental_div_mod(room, k);
    vstd::arithmetic::div_mod::lemma_div_pos_is_pos(room, k);
    let kept = cached_rows(m, k, n, cols, cells, space, block);
    assert(q * k <= room < (q + 1) * k) by (nonlinear_arith)
        requires
            room == k * q + room % k,
            0 <= room % k < k,
    ;
    assert(kept * k <= q * k && kept * k >= 0) by (nonlinear_arith)
        requires
            0 <= kept <= q,
            k > 0,
    ;
    let blocks = ceil_div(n, cols);
    assert(blocks >= 0) by (nonlinear_arith)
        requires
            blocks == (n + cols - 1) / cols,
            n > 0,
            cols > 0,
    ;
    assert((m - kept) * k * blocks >= 0) by (nonlinear_arith)
        requires
            m - kept >= 0,
            k > 0,
            blocks >= 0,
    ;
}

/// Counted firsts are as many as lead to themselves.
pub proof fn law_own_firsts(position: Seq<usize>, n: int)
    requires
        0 <= n <= position.len(),
    ensures
        own_count(position, n) == added(
            Seq::new(
                n as nat,
                |j: int|
                    if position[j] == j {
                        1int
                    } else {
                        0
                    },
            ),
        ),
    decreases n,
{
    let ones = Seq::new(
        n as nat,
        |j: int|
            if position[j] == j {
                1int
            } else {
                0
            },
    );
    if n > 0 {
        law_own_firsts(position, n - 1);
        assert(ones.drop_last() =~= Seq::new(
            (n - 1) as nat,
            |j: int|
                if position[j] == j {
                    1int
                } else {
                    0
                },
        ));
    }
}

/// Entries that are built for one block: of entries of more than one element, or of
/// sign patterns, the whole book; of single elements, where a set tells them apart
/// and holds them, the different ones that are named, and without a set one for each
/// column, in either case unless they are as many as the book.
pub proof fn law_built_entries<E: Element, Bd: Bound, C: Enumerable<E, Bd>>(
    named: Seq<nat>,
    room: Option<int>,
)
    ensures
        ({
            let built = built_entries::<E, Bd, C>(named, room);
            let cells = built_cells::<E, Bd, C>(named, room);
            let distinct = dedup(named, named.len() as int).len() as int;
            let space = C::space() as int;
            &&& C::block() != 1 || C::sign_book() ==> built == space
            &&& C::block() == 1 && !C::sign_book() ==> built == cells
            &&& cells <= space
            &&& room is None ==> cells == least(named.len() as int, space)
            &&& room matches Some(r) ==> cells == if distinct <= r {
                least(distinct, space)
            } else {
                space
            }
        }),
{
}

/// What one step of the reduction may add: no column that is walked adds more, some
/// column adds it or nothing is added, and what a column adds is the bound of its
/// product at local bases, regraded to those of the call. What steps add together is
/// their sum, as long as the cap holds it.
pub proof fn law_heights_of_steps<'t, E: Tabulated, Bd: Bound, C: Enumerable<E, Bd>>(
    region: Region<'t, E, Bd, C>,
    source: int,
    n: int,
    j: int,
    p: int,
    t: int,
)
    requires
        0 <= n,
        0 < t,
        0 <= region.cap,
    ensures
        0 <= j < n && present(region.index, j) ==> region.height(source, j) <= region.step_height(
            source,
            n,
        ),
        region.step_height(source, n) == 0 || exists|x: int|
            0 <= x < n && present(region.index, x) && #[trigger] region.height(source, x)
                == region.step_height(source, n),
        region.height(source, j) == regraded(
            E::found_scale(
                Seq::new(
                    region.rows as nat,
                    |i: int| region.a.cell(region.row0 + i, source).element(),
                ),
                seq![region.w.entry(region.col0 + j, source).element()],
                true,
                Bd::bound(),
            ),
            region.scale,
            region.cap,
        ),
        ({
            let before = region.block_height(p, t - 1);
            let step = region.step_height(p * C::block() + (t - 1), region.cols);
            let after = region.block_height(p, t);
            &&& before <= region.cap && step <= region.cap && before + step <= region.cap ==> after
                == before + step
            &&& !(before <= region.cap && step <= region.cap && before + step <= region.cap)
                ==> after > region.cap
            &&& region.block_height(p, 0) == 0
        }),
    decreases n,
{
    if n > 0 {
        law_heights_of_steps(region, source, n - 1, j, p, t);
        if region.step_height(source, n) != 0 {
            if present(region.index, n - 1) && region.height(source, n - 1) == region.step_height(
                source,
                n,
            ) {
                assert(0 <= n - 1 < n);
            } else {
                let x = choose|x: int|
                    0 <= x < n - 1 && present(region.index, x) && #[trigger] region.height(
                        source,
                        x,
                    ) == region.step_height(source, n - 1);
                assert(region.height(source, x) == region.step_height(source, n));
            }
        }
    }
    assert(region.acts(source) =~= Seq::new(
        region.rows as nat,
        |i: int| region.a.cell(region.row0 + i, source).element(),
    ));
    assert(region.weight(source, j) =~= seq![region.w.entry(region.col0 + j, source).element()]);
}

/// A tile of rows is the tallest of the heights within what is planned and what is
/// left, and a block of columns is as wide as is planned, or as is left.
pub proof fn law_extents_of_a_walk(plan_rows: int, left: int, n: int, cols: int, b: int)
    requires
        0 < plan_rows,
        0 < left,
    ensures
        ({
            let r = tile_rows(plan_rows, left);
            &&& r == 1 || r == 2 || r == 4 || r == 8 || r == 16
            &&& r <= plan_rows && r <= left
            &&& r < 16 ==> 2 * r > plan_rows || 2 * r > left
        }),
        block_width(n, cols, b) <= cols,
        block_width(n, cols, b) <= n - b * cols,
        block_width(n, cols, b) == cols || block_width(n, cols, b) == n - b * cols,
{
}

/// Accumulators that hold the totals of a block of columns hold, up to a multiple of
/// what the lane preserves, the sum of the products of each row and column.
pub proof fn law_left_totals<E: Tabulated, Bd: Bound, C: Enumerable<E, Bd>, L: Lane<E>>(
    a: MatView<'_, Alphabet<E, Bd>>,
    w: CodedMatrix<'_, E, Bd, C>,
    acc: Seq<E::Acc>,
    row0: int,
    rows: int,
    col0: int,
    cols: int,
    i: int,
    j: int,
)
    requires
        totals_exact::<E, Bd, C, L>(a, w, acc, row0, rows, col0, cols),
        C::block() > 0,
        0 <= i < rows,
        0 <= j < cols,
    ensures
        (acc[j * rows + i].value() - added(
            Seq::new(
                a.cols as nat,
                |p: int|
                    a.data@[a.origin + (row0 + i) * a.strides.rs + p
                        * a.strides.cs].element().val() * w.codec.decoded(
                        w.codes@[(col0 + j) * (w.cols as int / C::block() as int) + p
                            / C::block() as int],
                        p % C::block() as int,
                    ).element().val(),
            ),
        )) % L::precision() == 0,
{
    law_total_adds_products(a, w, row0 + i, col0 + j);
    assert(cong(
        acc[j * rows + i].value(),
        total(a, w, row0 + i, col0 + j),
        L::precision(),
    ));
}

} // verus!
