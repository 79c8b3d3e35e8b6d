//! What holds of the library as a whole.
use crate::accumulate::{builds_tally, columns_tally};
use crate::arith::{
    ceil_div, cong, is_pow2, lemma_ceil_pow2, lemma_cong_add, lemma_cong_close, lemma_cong_coarser,
    lemma_cong_refl, lemma_cong_sym, lemma_cong_trans, lemma_sum_blocks, lemma_sum_ext, sum,
};
use crate::census::Tally;
use crate::codec::{CodedMatrix, Enumerable};
use crate::columns::{measured, radix_number, run_hash};
use crate::element::{Alphabet, Bound, Element};
use crate::epilogue::{lemma_wrapped_cong, wrapped, EncodeMode, Epilogue, Output};
use crate::drive::{
    decided_run, lane_spends, pass_scale, pass_spends, pass_tally, planned, table_admitted,
};
use crate::family::Tabulated;
use crate::gemm::{product_spends, rows_spend, rows_walked};
use crate::isa::kernel::{tile_is, tile_sum};
use crate::lane::{lemma_cropped, Lane};
use crate::mapping::{columns_mapped, list_room};
use crate::plan::Plan;
use crate::routes::decline_tally;
use crate::scale::LaneScale;
use crate::schedule::{region_at, row_work};
use crate::sequence::{Backend, Host, TableLane, TableSpec};
use crate::sizing::{group_of, slab_of, Shape};
use crate::sweep::{lemma_present_all, lemma_present_count, present_count};
use crate::tabulate::{tile_rows, tiles_work, Direct, Quotient, Route};
use crate::triple::{total, GemmOptions, TabulatedTriple, Traversal};
use crate::view::{offset, MatView};
use vstd::arithmetic::power2::pow2;
use vstd::prelude::*;

verus! {

/// Every route gives the same result: two outputs that are the product which the
/// same operands ask for hold the same data, whatever was on offer, whichever
/// traversal was named and whichever sequences ran.
pub proof fn law_one_result<
    'a,
    'w,
    'c,
    E: Element,
    Bd: Bound,
    C: Enumerable<E, Bd>,
    O: Output,
    Ep: Epilogue<E, O>,
>(
    before: TabulatedTriple<'a, 'w, 'c, E, Bd, C, O>,
    one: TabulatedTriple<'a, 'w, 'c, E, Bd, C, O>,
    other: TabulatedTriple<'a, 'w, 'c, E, Bd, C, O>,
    epilogue: Ep,
    mode: EncodeMode,
)
    requires
        before.wf(),
        one.is_product_of(before, epilogue, mode),
        other.is_product_of(before, epilogue, mode),
    ensures
        one.c.held() == other.c.held(),
{
    let (rows, cols, s) = (before.c.rows as int, before.c.cols as int, before.c.strides);
    let origin = before.c.origin as int;
    assert forall|at: int| 0 <= at < one.c.data@.len() implies #[trigger] one.c.data@[at]
        == other.c.data@[at] by {
        if before.c.owns(at) {
            let (i, j) = choose|i: int, j: int|
                0 <= i < rows && 0 <= j < cols && origin + #[trigger] offset(s, i, j) == at;
            assert(one.c.cell(i, j) == other.c.cell(i, j));
        }
    }
    assert(one.c.data@ =~= other.c.data@);
}

/// The product is a sum of table entries: the reduction cut into blocks, each
/// block the dot product of its activations with the entry that its code names.
pub proof fn law_sum_of_entries<E: Element, Bd: Bound, C: Enumerable<E, Bd>>(
    a: MatView<'_, Alphabet<E, Bd>>,
    w: CodedMatrix<'_, E, Bd, C>,
    i: int,
    j: int,
)
    requires
        w.wf(),
        a.cols == w.cols,
        C::space() > 0,
        0 <= j < w.rows,
    ensures
        total(a, w, i, j) == sum(
            |p: int|
                sum(
                    |t: int|
                        a.cell(i, p * C::block() + t).val() * w.codec.decoded(
                            C::at_index(C::index(w.code(j, p)) as int),
                            t,
                        ).val(),
                    0,
                    C::block() as int,
                ),
            0,
            w.per_row(),
        ),
{
    let block = C::block() as int;
    let f = |p: int| a.cell(i, p).val() * w.entry(j, p).val();
    let blocked = |p: int| sum(|t: int| f(p * block + t), 0, block);
    let entries = |p: int|
        sum(
            |t: int|
                a.cell(i, p * C::block() + t).val() * w.codec.decoded(
                    C::at_index(C::index(w.code(j, p)) as int),
                    t,
                ).val(),
            0,
            C::block() as int,
        );
    vstd::arithmetic::div_mod::lemma_fundamental_div_mod(w.cols as int, block);
    assert(w.cols == w.per_row() * block) by (nonlinear_arith)
        requires
            w.cols == block * w.per_row(),
    ;
    assert(w.per_row() >= 0) by (nonlinear_arith)
        requires
            w.per_row() == w.cols as int / block,
            block > 0,
    ;
    lemma_sum_blocks(f, block, w.per_row());
    assert forall|p: int| 0 <= p < w.per_row() implies #[trigger] blocked(p) == entries(p) by {
        let g = |t: int| f(p * block + t);
        let h = |t: int|
            a.cell(i, p * C::block() + t).val() * w.codec.decoded(
                C::at_index(C::index(w.code(j, p)) as int),
                t,
            ).val();
        assert forall|t: int| 0 <= t < block implies #[trigger] g(t) == h(t) by {
            w.lemma_code(j, p);
            w.codec.names(w.code(j, p), t);
            vstd::arithmetic::div_mod::lemma_fundamental_div_mod_converse(
                p * block + t,
                block,
                p,
                t,
            );
        }
        lemma_sum_ext(g, h, 0, block);
    }
    lemma_sum_ext(blocked, entries, 0, w.per_row());
}

/// The codec is no argument of the arithmetic: two codings that decode alike
/// give the same totals.
pub proof fn law_decodes_alike<
    E: Element,
    Bd: Bound,
    C: Enumerable<E, Bd>,
    D: Enumerable<E, Bd>,
>(
    a: MatView<'_, Alphabet<E, Bd>>,
    w: CodedMatrix<'_, E, Bd, C>,
    v: CodedMatrix<'_, E, Bd, D>,
    i: int,
    j: int,
)
    requires
        forall|p: int|
            0 <= p < a.cols ==> (#[trigger] w.entry(j, p)).val() == v.entry(j, p).val(),
    ensures
        total(a, w, i, j) == total(a, v, i, j),
{
    lemma_sum_ext(
        |p: int| a.cell(i, p).val() * w.entry(j, p).val(),
        |p: int| a.cell(i, p).val() * v.entry(j, p).val(),
        0,
        a.cols as int,
    );
}

/// Walking columns multiplies nothing: past the builds, a chunk of columns costs
/// as many additions as it reads table words, one per block, row and column that
/// is its own first.
pub proof fn law_columns_never_multiply<E: Element, Bd: Bound, C: Enumerable<E, Bd>>(
    spec: TableSpec,
    codes: Seq<C::Code>,
    codes_per_row: int,
    rows: int,
    index: Option<Seq<usize>>,
    col0: int,
    cols: int,
    room: Option<int>,
    p: int,
)
    requires
        0 <= p,
        0 <= rows,
        0 <= cols,
    ensures
        ({
            let builds = builds_tally::<E, Bd, C>(
                spec,
                codes,
                codes_per_row,
                rows,
                index,
                col0,
                cols,
                room,
                p,
            );
            let all = columns_tally::<E, Bd, C>(
                spec,
                codes,
                codes_per_row,
                rows,
                index,
                col0,
                cols,
                room,
                p,
            );
            &&& builds.reads == 0
            &&& builds.calls == 0
            &&& !spec.build_multiplies ==> builds.multiplies == 0
            &&& all.multiplies == builds.multiplies
            &&& all.reads == present_count(index, cols) * p * rows
            &&& all.adds == builds.adds + all.reads
            &&& all.calls == 0
        }),
    decreases p,
{
    assert(present_count(index, cols) * p * rows >= 0) by (nonlinear_arith)
        requires
            present_count(index, cols) >= 0,
            p >= 0,
            rows >= 0,
    ;
    if p > 0 {
        law_columns_never_multiply::<E, Bd, C>(
            spec,
            codes,
            codes_per_row,
            rows,
            index,
            col0,
            cols,
            room,
            p - 1,
        );
    }
}

/// The work of the first `b` blocks of columns of a tile of rows.
proof fn lemma_row_reads<'t, E: Tabulated, Bd: Bound, C: Enumerable<E, Bd>>(
    local: bool,
    a: MatView<'t, Alphabet<E, Bd>>,
    w: CodedMatrix<'t, E, Bd, C>,
    scale: LaneScale,
    row0: int,
    rows: int,
    spec: TableSpec,
    scalar_spec: TableSpec,
    map: Option<(Seq<usize>, Seq<usize>)>,
    plan_cols: int,
    room: Option<int>,
    b: int,
)
    requires
        w.wf(),
        0 <= rows,
        0 < plan_cols,
        0 <= b <= ceil_div(w.rows as int, plan_cols),
    ensures
        ({
            let n = w.rows as int;
            let t = row_work(
                local,
                a,
                w,
                scale,
                row0,
                rows,
                spec,
                scalar_spec,
                map,
                plan_cols,
                room,
                b,
            );
            let columns = if b * plan_cols < n {
                b * plan_cols
            } else {
                n
            };
            let each = columns * w.per_row() * rows;
            &&& t.reads <= each * C::block()
            &&& !local ==> t.reads <= each
            &&& map is None ==> each <= t.reads
            &&& t.calls == 0
            &&& !spec.build_multiplies && !scalar_spec.build_multiplies ==> t.multiplies == 0
        }),
    decreases b,
{
    let n = w.rows as int;
    let per_row = w.per_row();
    let block = C::block() as int;
    assert(per_row >= 0) by (nonlinear_arith)
        requires
            per_row == w.cols as int / block,
            block > 0,
    ;
    if b > 0 {
        lemma_row_reads(
            local,
            a,
            w,
            scale,
            row0,
            rows,
            spec,
            scalar_spec,
            map,
            plan_cols,
            room,
            b - 1,
        );
        let region = region_at(
            a,
            w,
            scale,
            row0,
            rows,
            spec.lane_cap as int,
            map,
            plan_cols,
            b - 1,
        );
        let (col0, cols) = (region.col0, region.cols);
        assert(col0 < n) by (nonlinear_arith)
            requires
                col0 == (b - 1) * plan_cols,
                b <= (n + plan_cols - 1) / plan_cols,
                plan_cols > 0,
        ;
        assert(b * plan_cols == col0 + plan_cols) by (nonlinear_arith)
            requires
                col0 == (b - 1) * plan_cols,
        ;
        law_columns_never_multiply::<E, Bd, C>(
            spec,
            w.codes@,
            per_row,
            rows,
            region.index,
            col0,
            cols,
            room,
            per_row,
        );
        region.lemma_work(spec, scalar_spec, room, per_row);
        lemma_present_count(region.index, cols);
        let seen = present_count(region.index, cols) as int;
        if map is None {
            lemma_present_all(region.index, 0, cols);
        }
        let before = col0 * per_row * rows;
        let more = cols * per_row * rows;
        let taken = seen * per_row * rows;
        assert(seen * rows >= 0 && per_row * (seen * rows) == taken && 0 <= taken <= more
            && (col0 + cols) * per_row * rows == before + more && (before + more) * block == before
            * block + more * block && taken * block <= more * block && taken <= taken * block)
            by (nonlinear_arith)
            requires
                before == col0 * per_row * rows,
                more == cols * per_row * rows,
                taken == seen * per_row * rows,
                0 <= seen <= cols,
                0 <= per_row,
                0 <= rows,
                1 <= block,
        ;
    } else {
        assert(0 * plan_cols == 0);
        assert(0 * per_row * rows == 0 && 0 * block == 0) by (nonlinear_arith);
    }
}

/// The table reads of a product are at least one for each row, block and column
/// where no two columns are the same, and no more than that unless blocks are
/// taken apart, each of whose steps is then read; no dense kernel is called; and
/// nothing is multiplied at all where no sequence that runs multiplies.
pub proof fn law_reads_per_block<'t, E: Tabulated, Bd: Bound, C: Enumerable<E, Bd>>(
    modular: bool,
    backend: Backend,
    host: Host,
    local: bool,
    a: MatView<'t, Alphabet<E, Bd>>,
    w: CodedMatrix<'t, E, Bd, C>,
    scale: LaneScale,
    map: Option<(Seq<usize>, Seq<usize>)>,
    plan: Plan,
    room: Option<int>,
    row0: int,
)
    requires
        w.wf(),
        0 < plan.cols,
        0 <= row0 <= a.rows,
    ensures
        ({
            let t = tiles_work(
                modular,
                backend,
                host,
                local,
                a,
                w,
                scale,
                map,
                plan,
                room,
                row0,
            );
            let each = (a.rows - row0) * w.rows * w.per_row();
            &&& t.reads <= each * C::block()
            &&& !local ==> t.reads <= each
            &&& map is None ==> each <= t.reads
            &&& t.calls == 0
            &&& (forall|sign_book: bool, rows: nat, group: nat|
                !(#[trigger] E::sequence_for(
                    modular,
                    backend,
                    host,
                    Bd::bound(),
                    sign_book,
                    rows,
                    group,
                )).build_multiplies) ==> t.multiplies == 0
        }),
    decreases a.rows - row0,
{
    let (m, n, per_row, block) = (a.rows as int, w.rows as int, w.per_row(), C::block() as int);
    if row0 < m {
        let rows = tile_rows(plan.rows as int, m - row0);
        let spec = E::sequence_for(
            modular,
            backend,
            host,
            Bd::bound(),
            C::sign_book(),
            rows as nat,
            group_of(rows) as nat,
        );
        let scalar_spec = E::sequence_for(
            modular,
            backend,
            host,
            Bd::bound(),
            false,
            rows as nat,
            group_of(rows) as nat,
        );
        let cols = plan.cols as int;
        let blocks = ceil_div(n, cols);
        assert(0 <= blocks && n <= blocks * cols) by (nonlinear_arith)
            requires
                blocks == (n + cols - 1) / cols,
                n >= 0,
                cols > 0,
        ;
        lemma_row_reads(
            local,
            a,
            w,
            scale,
            row0,
            rows,
            spec,
            scalar_spec,
            map,
            cols,
            room,
            blocks,
        );
        law_reads_per_block(
            modular,
            backend,
            host,
            local,
            a,
            w,
            scale,
            map,
            plan,
            room,
            row0 + rows,
        );
        let (x, y) = (n * per_row * rows, (m - row0 - rows) * n * per_row);
        assert(x + y == (m - row0) * n * per_row && (x + y) * block == x * block + y * block)
            by (nonlinear_arith)
            requires
                x == n * per_row * rows,
                y == (m - row0 - rows) * n * per_row,
        ;
    } else {
        assert((m - row0) * n * per_row == 0 && 0 * block == 0) by (nonlinear_arith)
            requires
                m == row0,
        ;
    }
}

/// A product that is not tabulated reads no table.
pub proof fn law_dense_reads_no_table<E: Tabulated, Bd: Bound>(
    traversal: Traversal,
    cells: int,
    m: int,
    k: int,
    n: int,
)
    ensures
        decline_tally::<E, Bd>(traversal, cells, m, k, n).reads == 0,
{
}

/// A slab is the least power of two that the code space fits in, and masking an
/// index of the code space changes nothing.
pub proof fn law_slab(code_space: int, index: int)
    requires
        slab_of(code_space) > 0,
        0 <= index < code_space,
    ensures
        is_pow2(slab_of(code_space)),
        code_space <= slab_of(code_space) < 2 * code_space,
        index % slab_of(code_space) == index,
{
    lemma_ceil_pow2(code_space as nat);
    vstd::arithmetic::div_mod::lemma_small_mod(index as nat, slab_of(code_space) as nat);
}

/// Tiles of the same panels are the same, whichever kernels ran.
pub proof fn law_kernels_agree<E: Element>(
    one: Seq<i32>,
    other: Seq<i32>,
    pa: Seq<E>,
    pb: Seq<E>,
    mr: int,
    nr: int,
    kc: int,
    i: int,
    j: int,
)
    requires
        tile_is(one, pa, pb, mr, nr, kc),
        tile_is(other, pa, pb, mr, nr, kc),
        0 <= i < mr,
        0 <= j < nr,
    ensures
        one[i * nr + j] == other[i * nr + j],
{
    let exact = tile_sum(pa, pb, mr, nr, i, j, kc);
    let m = 0x1_0000_0000int;
    let (x, y) = (one[i * nr + j] as int, other[i * nr + j] as int);
    lemma_cong_sym(y, exact, m);
    lemma_cong_trans(x, exact, y, m);
    lemma_cong_close(x, y, m);
}

/// A total that is known only modulo the extent of the modular lane is finished
/// to the same output when the output wraps and the family admits its width.
pub proof fn law_quotient_suffices<E: Tabulated, O: Output, Ep: Epilogue<E, O>>(
    x: int,
    y: int,
    epilogue: Ep,
    prior: Option<O>,
)
    requires
        E::modular(O::width_bits()),
        cong(x, y, <E::ModLane as Lane<E>>::precision()),
    ensures
        epilogue.finished(x, prior, EncodeMode::Wrapping) == epilogue.finished(
            y,
            prior,
            EncodeMode::Wrapping,
        ),
{
    let precision = <E::ModLane as Lane<E>>::precision();
    let width = pow2(O::width_bits()) as int;
    E::family_laws();
    <E::ModLane as Lane<E>>::laws();
    vstd::arithmetic::power2::lemma_pow2_pos(O::width_bits());
    vstd::arithmetic::div_mod::lemma_fundamental_div_mod(precision, width);
    let q = precision / width;
    assert(q > 0) by (nonlinear_arith)
        requires
            precision == width * q,
            precision > 0,
            width > 0,
    ;
    lemma_cong_coarser(x, y, width, q);
    epilogue.wraps(x, y, prior);
}

/// The sum of `k` terms in a word of `bits` bits that wraps at every step.
pub open spec fn wrapping_sum(f: spec_fn(int) -> int, k: int, bits: nat) -> int
    decreases k,
{
    if k <= 0 {
        0
    } else {
        wrapped(wrapping_sum(f, k - 1, bits) + f(k - 1), bits)
    }
}

/// Reducing an exact sum once at the end is reducing it at every step, so a
/// wrapped output is what an accumulator of its width would have held.
pub proof fn law_wrapping_once(f: spec_fn(int) -> int, k: int, bits: nat)
    requires
        0 < k,
        0 < bits,
    ensures
        wrapped(sum(f, 0, k), bits) == wrapping_sum(f, k, bits),
    decreases k,
{
    let m = pow2(bits) as int;
    vstd::arithmetic::power2::lemma_pow2_pos(bits);
    if k == 1 {
        assert(sum(f, 0, 1) == sum(f, 0, 0) + f(0));
        assert(wrapping_sum(f, 0, bits) == 0);
    } else {
        law_wrapping_once(f, k - 1, bits);
        let (exact, held) = (sum(f, 0, k - 1), wrapping_sum(f, k - 1, bits));
        lemma_cropped(exact, held, m);
        lemma_cong_sym(held, exact, m);
        lemma_cong_refl(f(k - 1), m);
        lemma_cong_add(exact, held, f(k - 1), f(k - 1), m);
        lemma_wrapped_cong(exact + f(k - 1), held + f(k - 1), bits);
    }
}

/// The hash keeps early sites: runs that differ in one measured site by less than
/// a power of two have different hashes modulo it.
pub proof fn law_hash_keeps_sites(one: Seq<nat>, other: Seq<nat>, site: int, bits: nat)
    requires
        one.len() == other.len(),
        0 <= site < measured(one.len() as int),
        forall|t: int| 0 <= t < one.len() && t != site ==> #[trigger] one[t] == other[t],
        other[site] < one[site] < other[site] + pow2(bits),
    ensures
        run_hash(one, pow2(bits) as int) != run_hash(other, pow2(bits) as int),
{
    let start = one.len() as int;
    let count = measured(start);
    let gap = one[site] - other[site];
    lemma_radix_gap(start, one, other, site, count);
    let power = vstd::arithmetic::power::pow(3, (count - site - 1) as nat);
    let (x, y, m) = (
        radix_number(start, one, count),
        radix_number(start, other, count),
        pow2(bits) as int,
    );
    vstd::arithmetic::power2::lemma_pow2_pos(bits);
    if x % m == y % m {
        vstd::arithmetic::div_mod::lemma_mod_equivalence(x, y, m);
        assert((power * gap) % m == 0);
        lemma_odd_power((count - site - 1) as nat);
        lemma_odd_divides(power, gap, bits);
        vstd::arithmetic::div_mod::lemma_small_mod(gap as nat, m as nat);
    }
}

/// One differing site is carried along by powers of three.
proof fn lemma_radix_gap(start: int, one: Seq<nat>, other: Seq<nat>, site: int, t: int)
    requires
        0 <= site,
        forall|x: int| 0 <= x < t && x != site ==> #[trigger] one[x] == other[x],
    ensures
        t <= site ==> radix_number(start, one, t) == radix_number(start, other, t),
        t > site ==> radix_number(start, one, t) - radix_number(start, other, t)
            == vstd::arithmetic::power::pow(3, (t - site - 1) as nat) * (one[site] - other[site]),
    decreases t,
{
    if t > 0 {
        lemma_radix_gap(start, one, other, site, t - 1);
        if t - 1 == site {
            vstd::arithmetic::power::lemma_pow0(3);
            assert(1 * (one[site] - other[site]) == one[site] - other[site]);
        } else if t - 1 > site {
            assert(one[t - 1] == other[t - 1]);
            let e = (t - site - 1) as nat;
            let gap = one[site] - other[site];
            let below = vstd::arithmetic::power::pow(3, (e - 1) as nat);
            reveal(vstd::arithmetic::power::pow);
            assert(vstd::arithmetic::power::pow(3, e) == 3 * below);
            assert((3 * below) * gap == 3 * (below * gap)) by (nonlinear_arith);
        } else {
            assert(one[t - 1] == other[t - 1]);
        }
    }
}

/// A power of three is odd.
proof fn lemma_odd_power(e: nat)
    ensures
        vstd::arithmetic::power::pow(3, e) % 2 == 1,
    decreases e,
{
    reveal(vstd::arithmetic::power::pow);
    if e > 0 {
        lemma_odd_power((e - 1) as nat);
    }
}

/// What an odd factor carries to a multiple of a power of two is one itself.
proof fn lemma_odd_divides(odd: int, x: int, bits: nat)
    requires
        odd % 2 == 1,
        (odd * x) % (pow2(bits) as int) == 0,
    ensures
        x % (pow2(bits) as int) == 0,
    decreases bits,
{
    vstd::arithmetic::power2::lemma_pow2_pos(bits);
    if bits == 0 {
        vstd::arithmetic::power2::lemma2_to64();
    } else {
        let half = pow2((bits - 1) as nat) as int;
        vstd::arithmetic::power2::lemma_pow2_unfold(bits);
        vstd::arithmetic::power2::lemma_pow2_pos((bits - 1) as nat);
        let m = pow2(bits) as int;
        assert(m == 2 * half);
        vstd::arithmetic::div_mod::lemma_fundamental_div_mod(odd * x, m);
        let q = (odd * x) / m;
        assert(odd * x == 2 * (half * q)) by (nonlinear_arith)
            requires
                odd * x == m * q,
                m == 2 * half,
        ;
        let (o, r, y) = (odd / 2, x % 2, x / 2);
        assert(odd * x == 2 * (o * x + y) + r) by (nonlinear_arith)
            requires
                odd == 2 * o + 1,
                x == 2 * y + r,
        ;
        assert(r == 0);
        assert(odd * y == half * q) by (nonlinear_arith)
            requires
                odd * x == 2 * (half * q),
                x == 2 * y,
        ;
        vstd::arithmetic::div_mod::lemma_mod_multiples_basic(q, half);
        assert(half * q == q * half) by (nonlinear_arith);
        lemma_odd_divides(odd, y, (bits - 1) as nat);
        vstd::arithmetic::div_mod::lemma_fundamental_div_mod(y, half);
        let z = y / half;
        assert(x == z * m) by (nonlinear_arith)
            requires
                x == 2 * y,
                y == half * z,
                m == 2 * half,
        ;
        vstd::arithmetic::div_mod::lemma_mod_multiples_basic(z, m);
    }
}

/// The work of a product tells which factorization ran: no product both reads
/// tables and calls dense kernels.
pub proof fn law_routes_are_told_apart<
    't,
    E: Tabulated,
    Bd: Bound,
    C: Enumerable<E, Bd>,
    O: Output,
>(
    t: Tally,
    a: MatView<'t, Alphabet<E, Bd>>,
    w: CodedMatrix<'t, E, Bd, C>,
    options: GemmOptions,
    reads: bool,
    cells: int,
    room: int,
    words: int,
    index_len: int,
    collapse_index: int,
    collapse_rows: int,
)
    requires
        w.wf(),
        product_spends::<E, Bd, C, O>(
            t,
            a,
            w,
            options,
            reads,
            cells,
            room,
            words,
            index_len,
            collapse_index,
            collapse_rows,
        ),
    ensures
        t.reads == 0 || t.calls == 0,
{
    if a.rows != 0 && w.rows != 0 {
        let kept = choose|kept: MatView<'t, Alphabet<E, Bd>>|
            {
                &&& #[trigger] rows_walked(kept, a, reads, collapse_index, collapse_rows)
                &&& rows_spend::<E, Bd, C, O>(
                    t,
                    kept,
                    w,
                    options,
                    cells,
                    room,
                    words,
                    index_len,
                )
            };
        law_dense_reads_no_table::<E, Bd>(
            options.traversal,
            cells,
            kept.rows as int,
            w.cols as int,
            w.rows as int,
        );
        if w.cols != 0 && C::addressable() && C::space() != 0 && options.traversal
            != Traversal::OutputMajor {
            if options.encode == EncodeMode::Wrapping && E::modular(O::width_bits()) {
                lemma_lane_told::<E, Bd, C, E::ModLane, Quotient>(
                    t,
                    kept,
                    w,
                    options,
                    cells,
                    room,
                    words,
                    index_len,
                );
            } else {
                lemma_lane_told::<E, Bd, C, E::Lane, Direct>(
                    t,
                    kept,
                    w,
                    options,
                    cells,
                    room,
                    words,
                    index_len,
                );
            }
        }
    }
}

proof fn lemma_lane_told<
    't,
    E: Tabulated,
    Bd: Bound,
    C: Enumerable<E, Bd>,
    L: TableLane<E>,
    R: Route<E, L>,
>(
    t: Tally,
    a: MatView<'t, Alphabet<E, Bd>>,
    w: CodedMatrix<'t, E, Bd, C>,
    options: GemmOptions,
    cells: int,
    room: int,
    words: int,
    index_len: int,
)
    requires
        w.wf(),
        w.rows > 0,
        lane_spends::<E, Bd, C, L, R>(t, a, w, options, cells, room, words, index_len),
    ensures
        t.reads == 0 || t.calls == 0,
{
    let shape = Shape { m: a.rows, k: w.cols, n: w.rows };
    let dense = decline_tally::<E, Bd>(
        options.traversal,
        cells,
        a.rows as int,
        w.cols as int,
        w.rows as int,
    );
    law_dense_reads_no_table::<E, Bd>(
        options.traversal,
        cells,
        a.rows as int,
        w.cols as int,
        w.rows as int,
    );
    let plan = choose|plan: Option<Plan>|
        {
            &&& #[trigger] planned::<E, L>(
                plan,
                C::space() as int,
                shape,
                C::block() as int,
                Bd::bound() as int,
                room,
                words,
            )
            &&& match plan {
                None => t == dense,
                Some(plan) => if table_admitted::<E, Bd, C, L, R>(plan, options) {
                    pass_spends::<E, Bd, C, L, R>(t, plan, a, w, options, cells, index_len)
                } else {
                    t == dense
                },
            }
        };
    if let Some(plan) = plan {
        if table_admitted::<E, Bd, C, L, R>(plan, options) {
            let map = choose|map: Option<(Seq<usize>, Seq<usize>)>| #[trigger]
                columns_mapped(map, w, plan.cols as int, index_len) && t == pass_tally::<
                    E,
                    Bd,
                    C,
                    L,
                    R,
                >(plan, map, a, w, options, cells, index_len);
            E::family_laws();
            let listed = list_room(w, plan.cols as int, index_len);
            let scale = pass_scale(a, w, listed);
            let run = decided_run::<E, L>(Bd::bound() as int, scale);
            law_reads_per_block(
                R::modular(),
                options.backend,
                options.host,
                run is Some && run->0 < w.cols,
                a,
                w,
                scale,
                map,
                plan,
                listed,
                0,
            );
        }
    }
}

} // verus!
