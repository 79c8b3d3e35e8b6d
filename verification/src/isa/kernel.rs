//! What a dense kernel computes: a tile of dot products over two panels.
use crate::arith::{
    cong, lemma_cong_add, lemma_cong_close, lemma_cong_refl, lemma_cong_trans, sum,
};
use crate::element::Element;
use crate::sequence::{lemma_cell, lemma_cell_apart, Backend};
use vstd::prelude::*;

verus! {

/// Whether sums are exact or kept in the quotient of the lane.
#[derive(Clone, Copy, PartialEq, Eq, Debug, Structural)]
pub enum Factorization {
    /// Exact up to the capacity of the lane.
    Exact,
    /// Modulo the extent of the lane, at any depth.
    Modular,
}

/// Where step `p` of a row lies in a panel.
#[derive(Clone, Copy, PartialEq, Eq, Debug, Structural)]
pub enum LaneLayout {
    /// Step by step, a group of steps of every row together.
    Interleaved,
    /// Row by row.
    Contiguous,
}

/// What a dense kernel declares.
#[derive(Clone, Copy, PartialEq, Eq, Debug, Structural)]
pub struct KernelSpec {
    /// The machine family it is written for.
    pub backend: Backend,
    /// Whether sums are exact.
    pub factorization: Factorization,
    /// Rows of the tile.
    pub mr: usize,
    /// Columns of the tile.
    pub nr: usize,
    /// Steps that it consumes together.
    pub k_group: usize,
    /// The largest magnitude a lane holds; none is declared by zero.
    pub lane_cap: u128,
    /// The largest magnitude of an element it is exact for.
    pub max_bound: u128,
}

/// What a dense kernel of 128-bit registers declares.
#[derive(Clone, Copy, PartialEq, Eq, Debug, Structural)]
pub struct VectorKernel {
    /// The kernel.
    pub kernel: KernelSpec,
    /// Where steps lie in a panel.
    pub lane_layout: LaneLayout,
    /// Products that one instruction covers.
    pub products_per_step: usize,
}

/// A machine word that a kernel accumulates in.
pub trait KernelWord: Copy {
    /// The integer held.
    spec fn word(self) -> int;

    /// The word is kept modulo this.
    spec fn extent() -> int;

    /// The extent is a positive number.
    proof fn extent_laws()
        ensures
            Self::extent() > 0,
    ;

    /// The empty sum.
    fn nothing() -> (r: Self)
        ensures
            r.word() == 0,
    ;
}

/// A word that products of an element are added to.
pub trait Fuse<E: Element>: KernelWord {
    /// The word with one product added.
    fn fuse(self, a: E, b: E) -> (r: Self)
        ensures
            cong(r.word(), self.word() + a.val() * b.val(), Self::extent()),
    ;
}

impl KernelWord for i32 {
    open spec fn word(self) -> int {
        self as int
    }

    open spec fn extent() -> int {
        0x1_0000_0000
    }

    proof fn extent_laws() {
    }

    fn nothing() -> (r: Self) {
        0
    }
}

impl KernelWord for i64 {
    open spec fn word(self) -> int {
        self as int
    }

    open spec fn extent() -> int {
        0x1_0000_0000_0000_0000
    }

    proof fn extent_laws() {
    }

    fn nothing() -> (r: Self) {
        0
    }
}

impl KernelWord for i128 {
    open spec fn word(self) -> int {
        self as int
    }

    open spec fn extent() -> int {
        0x1_0000_0000_0000_0000_0000_0000_0000_0000int
    }

    proof fn extent_laws() {
    }

    fn nothing() -> (r: Self) {
        0
    }
}

/// Cell `(i, j)` of a tile after `kc` steps: step `p` of row `i` is at
/// `p * mr + i` of its panel, and step `p` of column `j` at `p * nr + j`.
pub open spec fn tile_sum<E: Element>(
    pa: Seq<E>,
    pb: Seq<E>,
    mr: int,
    nr: int,
    i: int,
    j: int,
    kc: int,
) -> int {
    sum(|p: int| pa[p * mr + i].val() * pb[p * nr + j].val(), 0, kc)
}

/// Every cell of the tile is the sum of its `kc` products.
pub open spec fn tile_is<E: Element, L: KernelWord>(
    acc: Seq<L>,
    pa: Seq<E>,
    pb: Seq<E>,
    mr: int,
    nr: int,
    kc: int,
) -> bool {
    forall|i: int, j: int|
        #![trigger acc[i * nr + j]]
        0 <= i < mr && 0 <= j < nr ==> cong(
            acc[i * nr + j].word(),
            tile_sum(pa, pb, mr, nr, i, j, kc),
            L::extent(),
        )
}

/// A tile whose sums are within half the extent of the lane holds them exactly.
pub proof fn law_tile_exact<E: Element>(
    acc: Seq<i32>,
    pa: Seq<E>,
    pb: Seq<E>,
    mr: int,
    nr: int,
    kc: int,
    i: int,
    j: int,
)
    requires
        tile_is(acc, pa, pb, mr, nr, kc),
        0 <= i < mr,
        0 <= j < nr,
        -0x8000_0000 <= tile_sum(pa, pb, mr, nr, i, j, kc) <= 0x7fff_ffff,
    ensures
        acc[i * nr + j] == tile_sum(pa, pb, mr, nr, i, j, kc),
{
    lemma_cong_close(
        acc[i * nr + j] as int,
        tile_sum(pa, pb, mr, nr, i, j, kc),
        0x1_0000_0000,
    );
}

/// Sets every lane to the empty sum.
pub fn clear_tile<L: KernelWord>(acc: &mut [L])
    ensures
        final(acc)@.len() == old(acc)@.len(),
        forall|x: int| 0 <= x < final(acc)@.len() ==> (#[trigger] final(acc)@[x]).word() == 0,
{
    let mut x: usize = 0;
    while x < acc.len()
        invariant
            acc@.len() == old(acc)@.len(),
            0 <= x <= acc@.len(),
            forall|y: int| 0 <= y < x ==> (#[trigger] acc@[y]).word() == 0,
        decreases acc@.len() - x,
    {
        acc[x] = L::nothing();
        x += 1;
    }
}

/// One step of one row: the product of `a` with `nr` elements from `from` on is
/// added to `nr` lanes from `at` on.
fn fuse_row<E: Element, L: Fuse<E>>(
    acc: &mut [L],
    at: usize,
    nr: usize,
    a: E,
    b: &[E],
    from: usize,
)
    requires
        at + nr <= old(acc)@.len(),
        from + nr <= b@.len(),
    ensures
        final(acc)@.len() == old(acc)@.len(),
        forall|x: int|
            0 <= x < old(acc)@.len() && !(at <= x < at + nr)
                ==> #[trigger] final(acc)@[x] == old(acc)@[x],
        forall|j: int|
            #![trigger final(acc)@[at + j]]
            0 <= j < nr ==> cong(
                final(acc)@[at + j].word(),
                old(acc)@[at + j].word() + a.val() * b@[from + j].val(),
                L::extent(),
            ),
{
    proof {
        assert(acc.len() == acc@.len());
        assert(b.len() == b@.len());
    }
    let mut j: usize = 0;
    while j < nr
        invariant
            acc@.len() == old(acc)@.len(),
            at + nr <= acc@.len() <= usize::MAX,
            from + nr <= b@.len() <= usize::MAX,
            0 <= j <= nr,
            forall|x: int|
                0 <= x < old(acc)@.len() && !(at <= x < at + j)
                    ==> #[trigger] acc@[x] == old(acc)@[x],
            forall|y: int|
                #![trigger acc@[at + y]]
                0 <= y < j ==> cong(
                    acc@[at + y].word(),
                    old(acc)@[at + y].word() + a.val() * b@[from + y].val(),
                    L::extent(),
                ),
        decreases nr - j,
    {
        acc[at + j] = acc[at + j].fuse(a, b[from + j]);
        j += 1;
    }
}

/// The cell after one more step.
pub proof fn lemma_tile_step<E: Element>(
    pa: Seq<E>,
    pb: Seq<E>,
    mr: int,
    nr: int,
    i: int,
    j: int,
    p: int,
)
    requires
        p >= 0,
    ensures
        tile_sum(pa, pb, mr, nr, i, j, 0) == 0,
        tile_sum(pa, pb, mr, nr, i, j, p + 1) == tile_sum(pa, pb, mr, nr, i, j, p) + pa[p * mr
            + i].val() * pb[p * nr + j].val(),
{
}

/// The cells that one step has reached, row by row.
pub open spec fn tile_at<E: Element, L: KernelWord>(
    acc: Seq<L>,
    pa: Seq<E>,
    pb: Seq<E>,
    mr: int,
    nr: int,
    rows: int,
    below: int,
    kc: int,
) -> bool {
    forall|i: int, j: int|
        #![trigger acc[i * nr + j]]
        0 <= i < mr && 0 <= j < nr ==> cong(
            acc[i * nr + j].word(),
            tile_sum(
                pa,
                pb,
                mr,
                nr,
                i,
                j,
                if i < rows {
                    kc
                } else {
                    below
                },
            ),
            L::extent(),
        )
}

/// One step `p` of every row.
pub fn step_rows<E: Element, L: Fuse<E>>(
    mr: usize,
    nr: usize,
    p: usize,
    kc: usize,
    pa: &[E],
    pb: &[E],
    acc: &mut [L],
)
    requires
        p < kc,
        mr * kc <= pa@.len(),
        nr * kc <= pb@.len(),
        mr * nr <= old(acc)@.len(),
        tile_is(old(acc)@, pa@, pb@, mr as int, nr as int, p as int),
    ensures
        final(acc)@.len() == old(acc)@.len(),
        tile_is(final(acc)@, pa@, pb@, mr as int, nr as int, p + 1),
        forall|x: int|
            mr * nr <= x < old(acc)@.len() ==> #[trigger] final(acc)@[x] == old(acc)@[x],
{
    proof {
        assert(acc.len() == acc@.len());
        assert(pa.len() == pa@.len());
        assert(pb.len() == pb@.len());
        let (pi, ki, mi, ni) = (p as int, kc as int, mr as int, nr as int);
        assert(0 <= pi * ni && pi * ni + ni <= ni * ki && 0 <= pi * mi && pi * mi + mi <= mi * ki)
            by (nonlinear_arith)
            requires
                0 <= pi < ki,
                0 <= ni,
                0 <= mi,
        ;
    }
    let mut i: usize = 0;
    while i < mr
        invariant
            p < kc,
            mr * nr <= acc@.len() <= usize::MAX,
            acc@.len() == old(acc)@.len(),
            0 <= p * mr,
            p * mr + mr <= pa@.len() <= usize::MAX,
            0 <= p * nr,
            p * nr + nr <= pb@.len() <= usize::MAX,
            0 <= i <= mr,
            tile_at(acc@, pa@, pb@, mr as int, nr as int, i as int, p as int, p + 1),
            forall|x: int| mr * nr <= x < old(acc)@.len() ==> #[trigger] acc@[x] == old(acc)@[x],
        decreases mr - i,
    {
        let ghost before = acc@;
        proof {
            if nr > 0 {
                lemma_cell(mr as int, nr as int, i as int, 0);
            } else {
                assert(i * nr == 0) by (nonlinear_arith)
                    requires
                        nr == 0,
                ;
            }
        }
        fuse_row(acc, i * nr, nr, pa[p * mr + i], pb, p * nr);
        proof {
            let (mi, ni) = (mr as int, nr as int);
            assert forall|x: int, y: int|
                #![trigger acc@[x * ni + y]]
                0 <= x < mi && 0 <= y < ni implies cong(
                acc@[x * ni + y].word(),
                tile_sum(
                    pa@,
                    pb@,
                    mi,
                    ni,
                    x,
                    y,
                    if x < i + 1 {
                        p + 1
                    } else {
                        p as int
                    },
                ),
                L::extent(),
            ) by {
                lemma_cell(mi, ni, x, y);
                let was = before[x * ni + y].word();
                if x == i {
                    lemma_tile_step(pa@, pb@, mi, ni, x, y, p as int);
                    let product = pa@[p * mi + x].val() * pb@[p * ni + y].val();
                    L::extent_laws();
                    lemma_cong_refl(product, L::extent());
                    lemma_cong_add(
                        was,
                        tile_sum(pa@, pb@, mi, ni, x, y, p as int),
                        product,
                        product,
                        L::extent(),
                    );
                    lemma_cong_trans(
                        acc@[x * ni + y].word(),
                        was + product,
                        tile_sum(pa@, pb@, mi, ni, x, y, p + 1),
                        L::extent(),
                    );
                } else {
                    if i * ni <= x * ni + y < i * ni + ni {
                        lemma_cell_apart(ni, x, y, i as int, x * ni + y - i * ni);
                    }
                    assert(acc@[x * ni + y] == before[x * ni + y]);
                }
            }
        }
        i += 1;
    }
}

/// The reference kernel: one product at a time.
pub fn reference_tile<E: Element, L: Fuse<E>>(
    mr: usize,
    nr: usize,
    kc: usize,
    pa: &[E],
    pb: &[E],
    acc: &mut [L],
)
    requires
        mr * kc <= pa@.len(),
        nr * kc <= pb@.len(),
        mr * nr == old(acc)@.len(),
    ensures
        final(acc)@.len() == old(acc)@.len(),
        tile_is(final(acc)@, pa@, pb@, mr as int, nr as int, kc as int),
{
    clear_tile(acc);
    proof {
        lemma_cleared(acc@, pa@, pb@, mr as int, nr as int);
    }
    let mut p: usize = 0;
    while p < kc
        invariant
            mr * kc <= pa@.len(),
            nr * kc <= pb@.len(),
            mr * nr == acc@.len(),
            acc@.len() == old(acc)@.len(),
            0 <= p <= kc,
            tile_is(acc@, pa@, pb@, mr as int, nr as int, p as int),
        decreases kc - p,
    {
        step_rows(mr, nr, p, kc, pa, pb, acc);
        p += 1;
    }
}

/// A cleared tile is the sum of no products.
pub proof fn lemma_cleared<E: Element, L: KernelWord>(
    acc: Seq<L>,
    pa: Seq<E>,
    pb: Seq<E>,
    mr: int,
    nr: int,
)
    requires
        mr * nr <= acc.len(),
        forall|x: int| 0 <= x < mr * nr ==> (#[trigger] acc[x]).word() == 0,
    ensures
        tile_is(acc, pa, pb, mr, nr, 0),
{
    assert forall|i: int, j: int|
        #![trigger acc[i * nr + j]]
        0 <= i < mr && 0 <= j < nr implies cong(
        acc[i * nr + j].word(),
        tile_sum(pa, pb, mr, nr, i, j, 0),
        L::extent(),
    ) by {
        lemma_cell(mr, nr, i, j);
        L::extent_laws();
        lemma_cong_refl(0, L::extent());
        lemma_tile_step(pa, pb, mr, nr, i, j, 0);
    }
}

} // verus!
