//! The integer families.
use crate::blocking;
use crate::census::{Ledger, Tally};
use crate::codec::{CodedMatrix, Enumerable};
use crate::dense::gemm_packed;
use crate::element::{Alphabet, Bound, Element};
use crate::epilogue::{Epilogue, Output};
use crate::family::{step_limit, step_within, Graded, Tabulated};
use crate::isa::arm::{
    neon_i16_of, neon_i8_bound1_of, neon_i8_of, neon_table_i16_i64, neon_table_i8_i32,
    neon_table_i8_i32_bound1, neon_tile,
};
use crate::lane::{capacity_of, Lane};
use crate::relabel::{halve_words, limb_words, quarter_words};
use crate::scale::{square_of, LaneScale};
use crate::sequence::{
    choose_table, chosen, portable_of, portable_table, Backend, Host, Sequence, TableSpec,
};
use crate::sizing::Steps;
use crate::triple::{prior_of, GemmOptions};
use crate::view::{MatView, MatViewMut};
use vstd::arithmetic::power2::pow2;
use vstd::prelude::*;

verus! {

/// The scale of integers within a bound: no grade, and its square per step.
pub open spec fn integral_scale(bound: int) -> LaneScale {
    LaneScale { base_a: 0, base_b: 0, per_step: square_of(bound) }
}

/// Products of octets that one step of the dense sequence covers which a host
/// runs, as the caller asks for it.
pub open spec fn octet_products(backend: Backend, host: Host) -> nat {
    let auto = backend == Backend::Auto;
    if (auto || backend == Backend::Avx512Vnni) && host.avx512f && host.avx512bw
        && host.avx512vnni {
        4 * blocking::KERNEL_PRODUCTS_PER_STEP as nat
    } else if (auto || backend == Backend::Avx2) && host.avx2 {
        blocking::KERNEL_PRODUCTS_PER_STEP as nat
    } else if (auto || backend == Backend::NeonDotprod) && host.dotprod {
        16
    } else if (auto || backend == Backend::Neon) && host.neon {
        8
    } else {
        1
    }
}

/// Products of 32-bit words that one step of the dense sequence covers: two in
/// 128-bit registers, and one in the reference sequence.
pub open spec fn word_products(backend: Backend, host: Host) -> nat {
    if (backend == Backend::Auto || backend == Backend::Neon) && host.neon {
        2
    } else {
        1
    }
}

/// The steps of an integer tile whose dense step covers `dense` products.
pub open spec fn tile_steps_of(dense: nat, table: nat) -> Steps {
    Steps { table: table as usize, dense: dense as usize, dense_rows: blocking::KERNEL_ROWS }
}

/// The steps of an integer tile whose dense step covers `dense` products.
pub fn tile_steps(dense: usize, table: usize) -> (r: Steps)
    ensures
        r == tile_steps_of(dense as nat, table as nat),
{
    Steps { table, dense, dense_rows: blocking::KERNEL_ROWS }
}

/// Products of octets that one dense step covers.
fn octets_per_step(backend: Backend, host: Host) -> (r: usize)
    ensures
        r == octet_products(backend, host),
{
    let auto: bool = backend == Backend::Auto;
    if (auto || backend == Backend::Avx512Vnni) && host.avx512f && host.avx512bw
        && host.avx512vnni {
        4 * blocking::KERNEL_PRODUCTS_PER_STEP
    } else if (auto || backend == Backend::Avx2) && host.avx2 {
        blocking::KERNEL_PRODUCTS_PER_STEP
    } else if (auto || backend == Backend::NeonDotprod) && host.dotprod {
        16
    } else if (auto || backend == Backend::Neon) && host.neon {
        8
    } else {
        1
    }
}

/// Products of 32-bit words that one dense step covers.
fn words_per_step(backend: Backend, host: Host) -> (r: usize)
    ensures
        r == word_products(backend, host),
{
    if (backend == Backend::Auto || backend == Backend::Neon) && host.neon {
        2
    } else {
        1
    }
}

/// The dense product of an integer family: taken where the room holds one
/// reduction.
pub fn dense_tile<E: Element, Bd: Bound, O: Output, Ep: Epilogue<E, O>>(
    a: &MatView<'_, Alphabet<E, Bd>>,
    b: &MatView<'_, E>,
    c: &mut MatViewMut<'_, O>,
    epilogue: &Ep,
    options: GemmOptions,
    rest: &mut [E],
) -> (r: bool)
    requires
        a.wf(),
        b.wf(),
        old(c).wf(),
        old(c).apart(),
        a.cols == b.rows,
        old(c).rows == a.rows,
        old(c).cols == b.cols,
    ensures
        r == (b.rows <= old(rest)@.len()),
        final(rest)@ == old(rest)@,
        final(c).wf(),
        final(c).same_window(*old(c)),
        final(final(c).data)@ == final(old(c).data)@,
        !r ==> final(c).data@ == old(c).data@,
        r ==> forall|i: int, j: int|
            0 <= i < a.rows && 0 <= j < b.cols ==> #[trigger] final(c).cell(i, j)
                == epilogue.finished(
                crate::dense::dense_total(*a, *b, i, j),
                prior_of(epilogue.reads(), old(c).cell(i, j)),
                options.encode,
            ),
{
    if rest.len() < b.rows {
        return false;
    }
    gemm_packed(a, b, c, epilogue, options.encode);
    true
}

/// A product of numbers within a bound is within its square.
pub proof fn lemma_square(x: int, y: int, b: int)
    requires
        -b <= x <= b,
        -b <= y <= b,
    ensures
        -(b * b) <= x * y <= b * b,
{
    assert(-(b * b) <= x * y <= b * b) by (nonlinear_arith)
        requires
            -b <= x <= b,
            -b <= y <= b,
    ;
}

/// A sum of as many integer products as a lane's capacity is carried over.
proof fn lemma_integer_run<E: Element, L: Lane<E>>(
    declared: nat,
    scale: LaneScale,
    steps: nat,
    v: int,
)
    requires
        scale == integral_scale(declared as int),
        steps <= usize::MAX,
        match capacity_of(L::cap(), declared as int) {
            Some(run) => steps <= run,
            None => true,
        },
        -(steps * step_limit::<E>(scale)) <= v <= steps * step_limit::<E>(scale),
    ensures
        L::holds(v),
{
    L::laws();
    let limit = step_limit::<E>(scale);
    let square = (declared * declared) as int;
    let reach2 = (E::reach() * E::reach()) as int;
    assert(0 <= reach2) by (nonlinear_arith)
        requires
            reach2 == E::reach() * E::reach(),
    ;
    assert(0 <= square) by (nonlinear_arith)
        requires
            square == declared * declared,
    ;
    match L::cap() {
        Some(c) => {
            assert(limit <= square);
            if declared == 0 {
                assert(square == 0) by (nonlinear_arith)
                    requires
                        square == declared * declared,
                        declared == 0,
                ;
                assert(steps * limit == 0) by (nonlinear_arith)
                    requires
                        limit == 0,
                ;
            } else {
                assert(square >= 1) by (nonlinear_arith)
                    requires
                        square == declared * declared,
                        declared >= 1,
                ;
                let q = c as int / square;
                vstd::arithmetic::div_mod::lemma_fundamental_div_mod(c as int, square);
                assert(steps <= q);
                assert(steps * limit <= q * square) by (nonlinear_arith)
                    requires
                        0 <= steps <= q,
                        0 <= limit <= square,
                ;
                assert(q * square == square * q) by (nonlinear_arith);
            }
        },
        None => {
            assert(steps * limit <= usize::MAX * reach2) by (nonlinear_arith)
                requires
                    0 <= steps <= usize::MAX,
                    0 <= limit <= reach2,
            ;
        },
    }
}

/// A power of two divides a greater one.
proof fn lemma_pow2_divides(bits: nat, whole: nat)
    requires
        bits <= whole,
    ensures
        pow2(whole) as int % (pow2(bits) as int) == 0,
        whole == 32 ==> pow2(whole) == 0x1_0000_0000,
        whole == 64 ==> pow2(whole) == 0x1_0000_0000_0000_0000,
{
    vstd::arithmetic::power2::lemma_pow2_pos(bits);
    vstd::arithmetic::power2::lemma_pow2_adds(bits, (whole - bits) as nat);
    vstd::arithmetic::div_mod::lemma_mod_multiples_basic(
        pow2((whole - bits) as nat) as int,
        pow2(bits) as int,
    );
    assert(pow2((whole - bits) as nat) * pow2(bits) == pow2(bits) * pow2((whole - bits) as nat))
        by (nonlinear_arith);
    vstd::arithmetic::power2::lemma2_to64();
    vstd::arithmetic::power2::lemma2_to64_rest();
}

impl Graded for i8 {
    open spec fn graded(self, base: i32) -> Self {
        self
    }

    open spec fn gradable(self, base: i32) -> bool {
        base == 0
    }

    proof fn grading(x: Self, y: Self, scale: LaneScale) {
        assert(x.val() * y.val() * 1 == x.val() * y.val());
    }

    proof fn regrading(x: Self, low: i32, high: i32) {
        vstd::arithmetic::power2::lemma2_to64();
        assert(x.val() * 1 == x.val());
    }

    fn prescale(x: Self, base: i32) -> (r: Self) {
        x
    }
}

/// Octets, in 32-bit lanes. A book of sign patterns is built by the sequence of its
/// bound, as any other book.
impl Tabulated for i8 {
    type Lane = i32;

    type ModLane = i32;

    type StreamLane = i32;

    open spec fn scales() -> bool {
        true
    }

    open spec fn declared_scale() -> bool {
        true
    }

    open spec fn admissible(declared: nat, scale: LaneScale) -> bool {
        scale == integral_scale(declared as int)
    }

    open spec fn step_known(scale: LaneScale) -> bool {
        true
    }

    open spec fn lane_exact() -> bool {
        false
    }

    open spec fn modular(out_bits: nat) -> bool {
        false
    }

    open spec fn sequence_for(
        modular: bool,
        backend: Backend,
        host: Host,
        bound: nat,
        sign_book: bool,
        rows: nat,
        group: nat,
    ) -> TableSpec {
        let (r, g) = (rows as usize, group as usize);
        let neon = host.neon && neon_tile(r as int, g as int);
        chosen(
            if neon {
                Some(neon_i8_bound1_of(r, g))
            } else {
                None
            },
            if neon {
                Some(neon_i8_of(r, g))
            } else {
                None
            },
            portable_of(
                r,
                g,
                0x7fff_ffff,
                if bound <= 1 {
                    Sequence::SignMask
                } else {
                    Sequence::Lookup
                },
            ),
            backend,
            bound,
        )
    }

    open spec fn steps_for(
        backend: Backend,
        host: Host,
        bound: nat,
        rows: nat,
        table: nat,
    ) -> Steps {
        tile_steps_of(octet_products(backend, host), table)
    }

    open spec fn takes_dense(rest: nat, depth: nat) -> bool {
        depth <= rest
    }

    open spec fn lanes_in(modular: bool, narrow: nat, exact: nat) -> nat {
        2 * narrow
    }

    open spec fn found_scale(
        acts: Seq<Self>,
        met: Seq<Self>,
        single: bool,
        bound: nat,
    ) -> LaneScale {
        integral_scale(bound as int)
    }

    open spec fn scale_tally(acts: Seq<Self>, met: Seq<Self>, single: bool) -> Tally {
        Tally::none()
    }

    proof fn family_laws() {
        assert forall|bits: nat| #[trigger] Self::modular(bits) implies <Self::ModLane as Lane<
            Self,
        >>::precision() % (pow2(bits) as int) == 0 by {
        }
    }

    proof fn offer_laws(modular: bool, narrow: nat, exact: nat) {
    }

    proof fn sequence_laws(
        modular: bool,
        backend: Backend,
        host: Host,
        bound: nat,
        sign_book: bool,
        rows: nat,
        group: nat,
    ) {
    }

    fn lane_is_exact() -> (r: bool) {
        false
    }

    open spec fn acc_width() -> nat {
        16
    }

    fn acc_bytes() -> (r: usize) {
        16
    }

    fn modular_table_admitted(out_bits: u32) -> (r: bool) {
        false
    }

    fn table_spec(
        backend: Backend,
        host: Host,
        bound: u128,
        sign_book: bool,
        rows: usize,
        group: usize,
    ) -> (r: TableSpec) {
        let (signs, lookup): (Option<TableSpec>, Option<TableSpec>) = if host.neon {
            (neon_table_i8_i32_bound1(rows, group), neon_table_i8_i32(rows, group))
        } else {
            (None, None)
        };
        let reference: TableSpec = portable_table(
            rows,
            group,
            0x7fff_ffff,
            if bound <= 1 {
                Sequence::SignMask
            } else {
                Sequence::Lookup
            },
        );
        choose_table(signs, lookup, reference, backend, bound)
    }

    fn table_spec_modular(
        backend: Backend,
        host: Host,
        bound: u128,
        rows: usize,
        group: usize,
    ) -> (r: TableSpec) {
        Self::table_spec(backend, host, bound, false, rows, group)
    }

    fn lanes<'s>(narrow: &'s mut [i64], exact: &'s mut [i128], want: usize) -> (r: Option<
        &'s mut [i32],
    >) {
        let halved = halve_words(narrow);
        if want <= halved.len() {
            let (held, _) = halved.split_at_mut(want);
            Some(held)
        } else {
            None
        }
    }

    fn lanes_modular<'s>(
        narrow: &'s mut [i64],
        exact: &'s mut [i128],
        want: usize,
    ) -> (r: Option<&'s mut [i32]>) {
        Self::lanes(narrow, exact, want)
    }

    fn dense_steps(backend: Backend, host: Host, bound: u128, rows: usize, table: usize) -> (r:
        Steps) {
        tile_steps(octets_per_step(backend, host), table)
    }

    fn dense_gemm<Bd: Bound, O: Output, Ep: Epilogue<Self, O>>(
        a: &MatView<'_, Alphabet<Self, Bd>>,
        b: &MatView<'_, Self>,
        c: &mut MatViewMut<'_, O>,
        epilogue: &Ep,
        options: GemmOptions,
        rest: &mut [Self],
    ) -> (r: bool) {
        dense_tile(a, b, c, epilogue, options, rest)
    }

    fn probe_capacity<L: Lane<Self>>(declared: u128) -> (r: Option<usize>) {
        L::capacity(declared)
    }

    fn lane_scale<Bd: Bound, C: Enumerable<Self, Bd>, Lg: Ledger>(
        a: &MatView<'_, Alphabet<Self, Bd>>,
        w: &CodedMatrix<'_, Self, Bd, C>,
        ledger: &mut Lg,
    ) -> (r: Option<LaneScale>) {
        let scale: LaneScale = LaneScale::integral(Bd::value());
        proof {
            ledger.charges_nothing();
            assert forall|i: int, p: int, x: int, t: int|
                #![trigger a.cell(i, p), w.codec.decoded(w.codes@[x], t)]
                0 <= i < a.rows && 0 <= p < a.cols && 0 <= x < w.codes@.len() && 0 <= t
                    < C::block() implies step_within(
                scale,
                a.cell(i, p).element(),
                w.codec.decoded(w.codes@[x], t).element(),
            ) by {
                w.codec.names(w.codes@[x], t);
                lemma_square(
                    a.cell(i, p).val(),
                    w.codec.decoded(w.codes@[x], t).val(),
                    Bd::bound() as int,
                );
                crate::dense::lemma_product_reach(
                    a.cell(i, p).element(),
                    w.codec.decoded(w.codes@[x], t).element(),
                );
            }
        }
        Some(scale)
    }

    fn lane_run<L: Lane<Self>>(declared: u128, scale: &LaneScale) -> (r: Option<usize>) {
        L::capacity(declared)
    }

    open spec fn run_of(cap: Option<nat>, declared: int, scale: LaneScale) -> Option<usize> {
        capacity_of(cap, declared)
    }

    proof fn run_laws<L: Lane<Self>>(declared: nat, scale: LaneScale, steps: nat, v: int) {
        lemma_integer_run::<Self, L>(declared, scale, steps, v);
    }

    open spec fn collapses_rows() -> bool {
        true
    }

    fn looks_for_equal_rows() -> (r: bool) {
        true
    }
}

impl Graded for i16 {
    open spec fn graded(self, base: i32) -> Self {
        self
    }

    open spec fn gradable(self, base: i32) -> bool {
        base == 0
    }

    proof fn grading(x: Self, y: Self, scale: LaneScale) {
        assert(x.val() * y.val() * 1 == x.val() * y.val());
    }

    proof fn regrading(x: Self, low: i32, high: i32) {
        vstd::arithmetic::power2::lemma2_to64();
        assert(x.val() * 1 == x.val());
    }

    fn prescale(x: Self, base: i32) -> (r: Self) {
        x
    }
}

/// 16-bit words, in 64-bit lanes. The dense step is that of the reference sequence.
impl Tabulated for i16 {
    type Lane = i64;

    type ModLane = i64;

    type StreamLane = i64;

    open spec fn scales() -> bool {
        true
    }

    open spec fn declared_scale() -> bool {
        true
    }

    open spec fn admissible(declared: nat, scale: LaneScale) -> bool {
        scale == integral_scale(declared as int)
    }

    open spec fn step_known(scale: LaneScale) -> bool {
        true
    }

    open spec fn lane_exact() -> bool {
        false
    }

    open spec fn modular(out_bits: nat) -> bool {
        false
    }

    open spec fn sequence_for(
        modular: bool,
        backend: Backend,
        host: Host,
        bound: nat,
        sign_book: bool,
        rows: nat,
        group: nat,
    ) -> TableSpec {
        let (r, g) = (rows as usize, group as usize);
        chosen(
            if host.neon && neon_tile(r as int, g as int) {
                Some(neon_i16_of(r, g))
            } else {
                None
            },
            None,
            portable_of(r, g, 0x7fff_ffff_ffff_ffff, Sequence::Product),
            backend,
            bound,
        )
    }

    open spec fn steps_for(
        backend: Backend,
        host: Host,
        bound: nat,
        rows: nat,
        table: nat,
    ) -> Steps {
        tile_steps_of(1, table)
    }

    open spec fn takes_dense(rest: nat, depth: nat) -> bool {
        depth <= rest
    }

    open spec fn lanes_in(modular: bool, narrow: nat, exact: nat) -> nat {
        narrow
    }

    open spec fn found_scale(
        acts: Seq<Self>,
        met: Seq<Self>,
        single: bool,
        bound: nat,
    ) -> LaneScale {
        integral_scale(bound as int)
    }

    open spec fn scale_tally(acts: Seq<Self>, met: Seq<Self>, single: bool) -> Tally {
        Tally::none()
    }

    proof fn family_laws() {
        assert forall|bits: nat| #[trigger] Self::modular(bits) implies <Self::ModLane as Lane<
            Self,
        >>::precision() % (pow2(bits) as int) == 0 by {
        }
    }

    proof fn offer_laws(modular: bool, narrow: nat, exact: nat) {
    }

    proof fn sequence_laws(
        modular: bool,
        backend: Backend,
        host: Host,
        bound: nat,
        sign_book: bool,
        rows: nat,
        group: nat,
    ) {
    }

    fn lane_is_exact() -> (r: bool) {
        false
    }

    open spec fn acc_width() -> nat {
        16
    }

    fn acc_bytes() -> (r: usize) {
        16
    }

    fn modular_table_admitted(out_bits: u32) -> (r: bool) {
        false
    }

    fn table_spec(
        backend: Backend,
        host: Host,
        bound: u128,
        sign_book: bool,
        rows: usize,
        group: usize,
    ) -> (r: TableSpec) {
        let widening: Option<TableSpec> = if host.neon {
            neon_table_i16_i64(rows, group)
        } else {
            None
        };
        let reference: TableSpec = portable_table(
            rows,
            group,
            0x7fff_ffff_ffff_ffff,
            Sequence::Product,
        );
        choose_table(widening, None, reference, backend, bound)
    }

    fn table_spec_modular(
        backend: Backend,
        host: Host,
        bound: u128,
        rows: usize,
        group: usize,
    ) -> (r: TableSpec) {
        Self::table_spec(backend, host, bound, false, rows, group)
    }

    fn lanes<'s>(narrow: &'s mut [i64], exact: &'s mut [i128], want: usize) -> (r: Option<
        &'s mut [i64],
    >) {
        if want <= narrow.len() {
            let (held, _) = narrow.split_at_mut(want);
            Some(held)
        } else {
            None
        }
    }

    fn lanes_modular<'s>(
        narrow: &'s mut [i64],
        exact: &'s mut [i128],
        want: usize,
    ) -> (r: Option<&'s mut [i64]>) {
        Self::lanes(narrow, exact, want)
    }

    fn dense_steps(backend: Backend, host: Host, bound: u128, rows: usize, table: usize) -> (r:
        Steps) {
        tile_steps(1, table)
    }

    fn dense_gemm<Bd: Bound, O: Output, Ep: Epilogue<Self, O>>(
        a: &MatView<'_, Alphabet<Self, Bd>>,
        b: &MatView<'_, Self>,
        c: &mut MatViewMut<'_, O>,
        epilogue: &Ep,
        options: GemmOptions,
        rest: &mut [Self],
    ) -> (r: bool) {
        dense_tile(a, b, c, epilogue, options, rest)
    }

    fn probe_capacity<L: Lane<Self>>(declared: u128) -> (r: Option<usize>) {
        L::capacity(declared)
    }

    fn lane_scale<Bd: Bound, C: Enumerable<Self, Bd>, Lg: Ledger>(
        a: &MatView<'_, Alphabet<Self, Bd>>,
        w: &CodedMatrix<'_, Self, Bd, C>,
        ledger: &mut Lg,
    ) -> (r: Option<LaneScale>) {
        let scale: LaneScale = LaneScale::integral(Bd::value());
        proof {
            ledger.charges_nothing();
            assert forall|i: int, p: int, x: int, t: int|
                #![trigger a.cell(i, p), w.codec.decoded(w.codes@[x], t)]
                0 <= i < a.rows && 0 <= p < a.cols && 0 <= x < w.codes@.len() && 0 <= t
                    < C::block() implies step_within(
                scale,
                a.cell(i, p).element(),
                w.codec.decoded(w.codes@[x], t).element(),
            ) by {
                w.codec.names(w.codes@[x], t);
                lemma_square(
                    a.cell(i, p).val(),
                    w.codec.decoded(w.codes@[x], t).val(),
                    Bd::bound() as int,
                );
                crate::dense::lemma_product_reach(
                    a.cell(i, p).element(),
                    w.codec.decoded(w.codes@[x], t).element(),
                );
            }
        }
        Some(scale)
    }

    fn lane_run<L: Lane<Self>>(declared: u128, scale: &LaneScale) -> (r: Option<usize>) {
        L::capacity(declared)
    }

    open spec fn run_of(cap: Option<nat>, declared: int, scale: LaneScale) -> Option<usize> {
        capacity_of(cap, declared)
    }

    proof fn run_laws<L: Lane<Self>>(declared: nat, scale: LaneScale, steps: nat, v: int) {
        lemma_integer_run::<Self, L>(declared, scale, steps, v);
    }

    open spec fn collapses_rows() -> bool {
        true
    }

    fn looks_for_equal_rows() -> (r: bool) {
        true
    }
}

impl Graded for i32 {
    open spec fn graded(self, base: i32) -> Self {
        self
    }

    open spec fn gradable(self, base: i32) -> bool {
        base == 0
    }

    proof fn grading(x: Self, y: Self, scale: LaneScale) {
        assert(x.val() * y.val() * 1 == x.val() * y.val());
    }

    proof fn regrading(x: Self, low: i32, high: i32) {
        vstd::arithmetic::power2::lemma2_to64();
        assert(x.val() * 1 == x.val());
    }

    fn prescale(x: Self, base: i32) -> (r: Self) {
        x
    }
}

/// 32-bit words, in lanes that are accumulators.
impl Tabulated for i32 {
    type Lane = i128;

    type ModLane = i32;

    type StreamLane = i128;

    open spec fn scales() -> bool {
        true
    }

    open spec fn declared_scale() -> bool {
        true
    }

    open spec fn admissible(declared: nat, scale: LaneScale) -> bool {
        scale == integral_scale(declared as int)
    }

    open spec fn step_known(scale: LaneScale) -> bool {
        true
    }

    open spec fn lane_exact() -> bool {
        true
    }

    open spec fn modular(out_bits: nat) -> bool {
        out_bits <= 32
    }

    open spec fn sequence_for(
        modular: bool,
        backend: Backend,
        host: Host,
        bound: nat,
        sign_book: bool,
        rows: nat,
        group: nat,
    ) -> TableSpec {
        portable_of(rows as usize, group as usize, u128::MAX, Sequence::Product)
    }

    open spec fn steps_for(
        backend: Backend,
        host: Host,
        bound: nat,
        rows: nat,
        table: nat,
    ) -> Steps {
        tile_steps_of(word_products(backend, host), table)
    }

    open spec fn takes_dense(rest: nat, depth: nat) -> bool {
        depth <= rest
    }

    open spec fn lanes_in(modular: bool, narrow: nat, exact: nat) -> nat {
        if modular {
            4 * exact
        } else {
            exact
        }
    }

    open spec fn found_scale(
        acts: Seq<Self>,
        met: Seq<Self>,
        single: bool,
        bound: nat,
    ) -> LaneScale {
        integral_scale(bound as int)
    }

    open spec fn scale_tally(acts: Seq<Self>, met: Seq<Self>, single: bool) -> Tally {
        Tally::none()
    }

    proof fn family_laws() {
        assert forall|bits: nat| #[trigger] Self::modular(bits) implies <Self::ModLane as Lane<
            Self,
        >>::precision() % (pow2(bits) as int) == 0 by {
            lemma_pow2_divides(bits, 32);
        }
    }

    proof fn offer_laws(modular: bool, narrow: nat, exact: nat) {
        let per_word: int = if modular {
            4
        } else {
            1
        };
        let width = if modular {
            <Self::ModLane as Lane<Self>>::width()
        } else {
            <Self::Lane as Lane<Self>>::width()
        };
        assert(width == if modular {
            4nat
        } else {
            16
        });
        assert(16int / 4 == 4 && 16int / 16 == 1);
        assert(Self::acc_width() == 16);
        assert(Self::acc_width() as int / width as int == per_word);
        assert(exact * per_word == if modular {
            4 * exact
        } else {
            exact
        }) by (nonlinear_arith)
            requires
                per_word == if modular {
                    4int
                } else {
                    1
                },
        ;
    }

    proof fn sequence_laws(
        modular: bool,
        backend: Backend,
        host: Host,
        bound: nat,
        sign_book: bool,
        rows: nat,
        group: nat,
    ) {
    }

    fn lane_is_exact() -> (r: bool) {
        true
    }

    open spec fn acc_width() -> nat {
        16
    }

    fn acc_bytes() -> (r: usize) {
        16
    }

    fn modular_table_admitted(out_bits: u32) -> (r: bool) {
        out_bits <= 32
    }

    fn table_spec(
        backend: Backend,
        host: Host,
        bound: u128,
        sign_book: bool,
        rows: usize,
        group: usize,
    ) -> (r: TableSpec) {
        portable_table(rows, group, u128::MAX, Sequence::Product)
    }

    fn table_spec_modular(
        backend: Backend,
        host: Host,
        bound: u128,
        rows: usize,
        group: usize,
    ) -> (r: TableSpec) {
        portable_table(rows, group, u128::MAX, Sequence::Product)
    }

    fn lanes<'s>(narrow: &'s mut [i64], exact: &'s mut [i128], want: usize) -> (r: Option<
        &'s mut [i128],
    >) {
        if want <= exact.len() {
            let (held, _) = exact.split_at_mut(want);
            Some(held)
        } else {
            None
        }
    }

    fn lanes_modular<'s>(
        narrow: &'s mut [i64],
        exact: &'s mut [i128],
        want: usize,
    ) -> (r: Option<&'s mut [i32]>) {
        let quartered = quarter_words(exact);
        if want <= quartered.len() {
            let (held, _) = quartered.split_at_mut(want);
            Some(held)
        } else {
            None
        }
    }

    fn dense_steps(backend: Backend, host: Host, bound: u128, rows: usize, table: usize) -> (r:
        Steps) {
        tile_steps(words_per_step(backend, host), table)
    }

    fn dense_gemm<Bd: Bound, O: Output, Ep: Epilogue<Self, O>>(
        a: &MatView<'_, Alphabet<Self, Bd>>,
        b: &MatView<'_, Self>,
        c: &mut MatViewMut<'_, O>,
        epilogue: &Ep,
        options: GemmOptions,
        rest: &mut [Self],
    ) -> (r: bool) {
        dense_tile(a, b, c, epilogue, options, rest)
    }

    fn probe_capacity<L: Lane<Self>>(declared: u128) -> (r: Option<usize>) {
        L::capacity(declared)
    }

    fn lane_scale<Bd: Bound, C: Enumerable<Self, Bd>, Lg: Ledger>(
        a: &MatView<'_, Alphabet<Self, Bd>>,
        w: &CodedMatrix<'_, Self, Bd, C>,
        ledger: &mut Lg,
    ) -> (r: Option<LaneScale>) {
        let scale: LaneScale = LaneScale::integral(Bd::value());
        proof {
            ledger.charges_nothing();
            assert forall|i: int, p: int, x: int, t: int|
                #![trigger a.cell(i, p), w.codec.decoded(w.codes@[x], t)]
                0 <= i < a.rows && 0 <= p < a.cols && 0 <= x < w.codes@.len() && 0 <= t
                    < C::block() implies step_within(
                scale,
                a.cell(i, p).element(),
                w.codec.decoded(w.codes@[x], t).element(),
            ) by {
                w.codec.names(w.codes@[x], t);
                lemma_square(
                    a.cell(i, p).val(),
                    w.codec.decoded(w.codes@[x], t).val(),
                    Bd::bound() as int,
                );
                crate::dense::lemma_product_reach(
                    a.cell(i, p).element(),
                    w.codec.decoded(w.codes@[x], t).element(),
                );
            }
        }
        Some(scale)
    }

    fn lane_run<L: Lane<Self>>(declared: u128, scale: &LaneScale) -> (r: Option<usize>) {
        L::capacity(declared)
    }

    open spec fn run_of(cap: Option<nat>, declared: int, scale: LaneScale) -> Option<usize> {
        capacity_of(cap, declared)
    }

    proof fn run_laws<L: Lane<Self>>(declared: nat, scale: LaneScale, steps: nat, v: int) {
        lemma_integer_run::<Self, L>(declared, scale, steps, v);
    }

    open spec fn collapses_rows() -> bool {
        true
    }

    fn looks_for_equal_rows() -> (r: bool) {
        true
    }
}

impl Graded for i64 {
    open spec fn graded(self, base: i32) -> Self {
        self
    }

    open spec fn gradable(self, base: i32) -> bool {
        base == 0
    }

    proof fn grading(x: Self, y: Self, scale: LaneScale) {
        assert(x.val() * y.val() * 1 == x.val() * y.val());
    }

    proof fn regrading(x: Self, low: i32, high: i32) {
        vstd::arithmetic::power2::lemma2_to64();
        assert(x.val() * 1 == x.val());
    }

    fn prescale(x: Self, base: i32) -> (r: Self) {
        x
    }
}

/// 64-bit words, in lanes that are accumulators. No register multiplies them, so the
/// dense step is that of the reference sequence.
impl Tabulated for i64 {
    type Lane = [u64; 3];

    type ModLane = i64;

    type StreamLane = [u64; 3];

    open spec fn scales() -> bool {
        true
    }

    open spec fn declared_scale() -> bool {
        true
    }

    open spec fn admissible(declared: nat, scale: LaneScale) -> bool {
        scale == integral_scale(declared as int)
    }

    open spec fn step_known(scale: LaneScale) -> bool {
        true
    }

    open spec fn lane_exact() -> bool {
        true
    }

    open spec fn modular(out_bits: nat) -> bool {
        out_bits <= 64
    }

    open spec fn sequence_for(
        modular: bool,
        backend: Backend,
        host: Host,
        bound: nat,
        sign_book: bool,
        rows: nat,
        group: nat,
    ) -> TableSpec {
        portable_of(rows as usize, group as usize, u128::MAX, Sequence::Product)
    }

    open spec fn steps_for(
        backend: Backend,
        host: Host,
        bound: nat,
        rows: nat,
        table: nat,
    ) -> Steps {
        tile_steps_of(1, table)
    }

    open spec fn takes_dense(rest: nat, depth: nat) -> bool {
        depth <= rest
    }

    open spec fn lanes_in(modular: bool, narrow: nat, exact: nat) -> nat {
        if modular {
            3 * exact
        } else {
            exact
        }
    }

    open spec fn found_scale(
        acts: Seq<Self>,
        met: Seq<Self>,
        single: bool,
        bound: nat,
    ) -> LaneScale {
        integral_scale(bound as int)
    }

    open spec fn scale_tally(acts: Seq<Self>, met: Seq<Self>, single: bool) -> Tally {
        Tally::none()
    }

    proof fn family_laws() {
        assert forall|bits: nat| #[trigger] Self::modular(bits) implies <Self::ModLane as Lane<
            Self,
        >>::precision() % (pow2(bits) as int) == 0 by {
            lemma_pow2_divides(bits, 64);
        }
    }

    proof fn offer_laws(modular: bool, narrow: nat, exact: nat) {
        let per_word: int = if modular {
            3
        } else {
            1
        };
        let width = if modular {
            <Self::ModLane as Lane<Self>>::width()
        } else {
            <Self::Lane as Lane<Self>>::width()
        };
        assert(width == if modular {
            8nat
        } else {
            24
        });
        assert(24int / 8 == 3 && 24int / 24 == 1);
        assert(Self::acc_width() == 24);
        assert(Self::acc_width() as int / width as int == per_word);
        assert(exact * per_word == if modular {
            3 * exact
        } else {
            exact
        }) by (nonlinear_arith)
            requires
                per_word == if modular {
                    3int
                } else {
                    1
                },
        ;
    }

    proof fn sequence_laws(
        modular: bool,
        backend: Backend,
        host: Host,
        bound: nat,
        sign_book: bool,
        rows: nat,
        group: nat,
    ) {
    }

    fn lane_is_exact() -> (r: bool) {
        true
    }

    open spec fn acc_width() -> nat {
        24
    }

    fn acc_bytes() -> (r: usize) {
        24
    }

    fn modular_table_admitted(out_bits: u32) -> (r: bool) {
        out_bits <= 64
    }

    fn table_spec(
        backend: Backend,
        host: Host,
        bound: u128,
        sign_book: bool,
        rows: usize,
        group: usize,
    ) -> (r: TableSpec) {
        portable_table(rows, group, u128::MAX, Sequence::Product)
    }

    fn table_spec_modular(
        backend: Backend,
        host: Host,
        bound: u128,
        rows: usize,
        group: usize,
    ) -> (r: TableSpec) {
        portable_table(rows, group, u128::MAX, Sequence::Product)
    }

    fn lanes<'s>(narrow: &'s mut [i64], exact: &'s mut [[u64; 3]], want: usize) -> (r: Option<
        &'s mut [[u64; 3]],
    >) {
        if want <= exact.len() {
            let (held, _) = exact.split_at_mut(want);
            Some(held)
        } else {
            None
        }
    }

    fn lanes_modular<'s>(
        narrow: &'s mut [i64],
        exact: &'s mut [[u64; 3]],
        want: usize,
    ) -> (r: Option<&'s mut [i64]>) {
        let limbed = limb_words(exact);
        if want <= limbed.len() {
            let (held, _) = limbed.split_at_mut(want);
            Some(held)
        } else {
            None
        }
    }

    fn dense_steps(backend: Backend, host: Host, bound: u128, rows: usize, table: usize) -> (r:
        Steps) {
        tile_steps(1, table)
    }

    fn dense_gemm<Bd: Bound, O: Output, Ep: Epilogue<Self, O>>(
        a: &MatView<'_, Alphabet<Self, Bd>>,
        b: &MatView<'_, Self>,
        c: &mut MatViewMut<'_, O>,
        epilogue: &Ep,
        options: GemmOptions,
        rest: &mut [Self],
    ) -> (r: bool) {
        dense_tile(a, b, c, epilogue, options, rest)
    }

    fn probe_capacity<L: Lane<Self>>(declared: u128) -> (r: Option<usize>) {
        L::capacity(declared)
    }

    fn lane_scale<Bd: Bound, C: Enumerable<Self, Bd>, Lg: Ledger>(
        a: &MatView<'_, Alphabet<Self, Bd>>,
        w: &CodedMatrix<'_, Self, Bd, C>,
        ledger: &mut Lg,
    ) -> (r: Option<LaneScale>) {
        let scale: LaneScale = LaneScale::integral(Bd::value());
        proof {
            ledger.charges_nothing();
            assert forall|i: int, p: int, x: int, t: int|
                #![trigger a.cell(i, p), w.codec.decoded(w.codes@[x], t)]
                0 <= i < a.rows && 0 <= p < a.cols && 0 <= x < w.codes@.len() && 0 <= t
                    < C::block() implies step_within(
                scale,
                a.cell(i, p).element(),
                w.codec.decoded(w.codes@[x], t).element(),
            ) by {
                w.codec.names(w.codes@[x], t);
                lemma_square(
                    a.cell(i, p).val(),
                    w.codec.decoded(w.codes@[x], t).val(),
                    Bd::bound() as int,
                );
                crate::dense::lemma_product_reach(
                    a.cell(i, p).element(),
                    w.codec.decoded(w.codes@[x], t).element(),
                );
            }
        }
        Some(scale)
    }

    fn lane_run<L: Lane<Self>>(declared: u128, scale: &LaneScale) -> (r: Option<usize>) {
        L::capacity(declared)
    }

    open spec fn run_of(cap: Option<nat>, declared: int, scale: LaneScale) -> Option<usize> {
        capacity_of(cap, declared)
    }

    proof fn run_laws<L: Lane<Self>>(declared: nat, scale: LaneScale, steps: nat, v: int) {
        lemma_integer_run::<Self, L>(declared, scale, steps, v);
    }

    open spec fn collapses_rows() -> bool {
        true
    }

    fn looks_for_equal_rows() -> (r: bool) {
        true
    }
}

} // verus!
