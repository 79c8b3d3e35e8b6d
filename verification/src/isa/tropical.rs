//! Kernels of the greatest sum: the product of two elements is their saturated
//! sum, and the sum of products is the greatest.
use crate::sequence::lemma_cell;
use vstd::prelude::*;

verus! {

/// The greatest of no sums.
pub const TROP_ZERO: i16 = -0x8000;

/// Rows of the tile.
pub const NEON_TROP_MR: usize = 4;

/// Columns of the tile.
pub const NEON_TROP_NR: usize = 8;

/// The sum of two elements, held within the range of an element.
pub open spec fn saturated(a: i16, b: i16) -> i16 {
    if a + b > 0x7fff {
        0x7fff
    } else if a + b < -0x8000 {
        TROP_ZERO
    } else {
        (a + b) as i16
    }
}

/// The greatest of the first `kc` sums of row `i` and column `j`.
pub open spec fn greatest(
    pa: Seq<i16>,
    pb: Seq<i16>,
    mr: int,
    nr: int,
    i: int,
    j: int,
    kc: int,
) -> i16
    decreases kc,
{
    if kc <= 0 {
        TROP_ZERO
    } else {
        let before = greatest(pa, pb, mr, nr, i, j, kc - 1);
        let last = saturated(pa[(kc - 1) * mr + i], pb[(kc - 1) * nr + j]);
        if last > before {
            last
        } else {
            before
        }
    }
}

/// The greatest sum is one of the sums, and none exceeds it.
pub proof fn lemma_greatest(
    pa: Seq<i16>,
    pb: Seq<i16>,
    mr: int,
    nr: int,
    i: int,
    j: int,
    kc: int,
)
    requires
        kc > 0,
    ensures
        forall|p: int|
            0 <= p < kc ==> #[trigger] saturated(pa[p * mr + i], pb[p * nr + j]) <= greatest(
                pa,
                pb,
                mr,
                nr,
                i,
                j,
                kc,
            ),
        exists|p: int|
            0 <= p < kc && #[trigger] saturated(pa[p * mr + i], pb[p * nr + j]) == greatest(
                pa,
                pb,
                mr,
                nr,
                i,
                j,
                kc,
            ),
    decreases kc,
{
    let last = saturated(pa[(kc - 1) * mr + i], pb[(kc - 1) * nr + j]);
    if kc > 1 {
        lemma_greatest(pa, pb, mr, nr, i, j, kc - 1);
        if !(last > greatest(pa, pb, mr, nr, i, j, kc - 1)) {
            let p = choose|p: int|
                0 <= p < kc - 1 && #[trigger] saturated(pa[p * mr + i], pb[p * nr + j])
                    == greatest(pa, pb, mr, nr, i, j, kc - 1);
            assert(saturated(pa[p * mr + i], pb[p * nr + j]) == greatest(
                pa,
                pb,
                mr,
                nr,
                i,
                j,
                kc,
            ));
        }
    } else {
        assert(greatest(pa, pb, mr, nr, i, j, 0) == TROP_ZERO);
        assert(greatest(pa, pb, mr, nr, i, j, 1) == last);
    }
}

fn saturated_sum(a: i16, b: i16) -> (r: i16)
    ensures
        r == saturated(a, b),
        -0x8000 <= a + b <= 0x7fff ==> r == a + b,
{
    let wide: i32 = a as i32 + b as i32;
    if wide > 0x7fff {
        0x7fff
    } else if wide < -0x8000 {
        -0x8000
    } else {
        wide as i16
    }
}

/// Every cell of the tile is the greatest of its sums.
pub open spec fn tropical_is(
    acc: Seq<i16>,
    pa: Seq<i16>,
    pb: Seq<i16>,
    mr: int,
    nr: int,
    kc: int,
) -> bool {
    forall|i: int, j: int|
        #![trigger acc[i * nr + j]]
        0 <= i < mr && 0 <= j < nr ==> acc[i * nr + j] == greatest(pa, pb, mr, nr, i, j, kc)
}

/// A cell of a tile is the greatest of the integer sums of its row and its column,
/// as far as an element holds it: no sum that an element holds exceeds it, it is
/// the largest element where some sum is at least that large, and it is one of the
/// sums, or an end of the range that a sum lies beyond. Of no sums it is the least
/// element.
pub proof fn law_greatest_sum(
    acc: Seq<i16>,
    pa: Seq<i16>,
    pb: Seq<i16>,
    mr: int,
    nr: int,
    kc: int,
    i: int,
    j: int,
)
    requires
        tropical_is(acc, pa, pb, mr, nr, kc),
        0 <= i < mr,
        0 <= j < nr,
        0 <= kc,
    ensures
        forall|p: int|
            #![trigger pa[p * mr + i], pb[p * nr + j]]
            0 <= p < kc ==> pa[p * mr + i] + pb[p * nr + j] <= acc[i * nr + j] || acc[i * nr + j]
                == 0x7fff,
        kc > 0 ==> exists|p: int|
            #![trigger pa[p * mr + i], pb[p * nr + j]]
            0 <= p < kc && {
                let exact = pa[p * mr + i] + pb[p * nr + j];
                ||| acc[i * nr + j] == exact
                ||| acc[i * nr + j] == 0x7fff && exact > 0x7fff
                ||| acc[i * nr + j] == -0x8000 && exact < -0x8000
            },
        kc == 0 ==> acc[i * nr + j] == -0x8000,
        (forall|p: int|
            #![trigger pa[p * mr + i], pb[p * nr + j]]
            0 <= p < kc ==> -0x8000 <= pa[p * mr + i] + pb[p * nr + j] <= 0x7fff) ==> {
            &&& forall|p: int|
                #![trigger pa[p * mr + i], pb[p * nr + j]]
                0 <= p < kc ==> pa[p * mr + i] + pb[p * nr + j] <= acc[i * nr + j]
            &&& kc > 0 ==> exists|p: int|
                #![trigger pa[p * mr + i], pb[p * nr + j]]
                0 <= p < kc && acc[i * nr + j] == pa[p * mr + i] + pb[p * nr + j]
        },
{
    let cell = acc[i * nr + j];
    assert(cell == greatest(pa, pb, mr, nr, i, j, kc));
    if kc > 0 {
        lemma_greatest(pa, pb, mr, nr, i, j, kc);
        assert forall|p: int|
            #![trigger pa[p * mr + i], pb[p * nr + j]]
            0 <= p < kc implies pa[p * mr + i] + pb[p * nr + j] <= cell || cell == 0x7fff by {
            assert(saturated(pa[p * mr + i], pb[p * nr + j]) <= cell);
        }
        let p = choose|p: int|
            0 <= p < kc && #[trigger] saturated(pa[p * mr + i], pb[p * nr + j]) == cell;
        let exact = pa[p * mr + i] + pb[p * nr + j];
        assert(0 <= p < kc && (cell == exact || cell == 0x7fff && exact > 0x7fff || cell == -0x8000
            && exact < -0x8000));
        if forall|p: int|
            #![trigger pa[p * mr + i], pb[p * nr + j]]
            0 <= p < kc ==> -0x8000 <= pa[p * mr + i] + pb[p * nr + j] <= 0x7fff {
            assert(cell == exact);
            assert forall|p: int|
                #![trigger pa[p * mr + i], pb[p * nr + j]]
                0 <= p < kc implies pa[p * mr + i] + pb[p * nr + j] <= cell by {
                assert(saturated(pa[p * mr + i], pb[p * nr + j]) <= cell);
            }
        }
    }
}

/// A tile of the greatest sums.
pub fn neon_trop_i16_inner<const MR: usize>(kc: usize, pa: &[i16], pb: &[i16], acc: &mut [i16])
    requires
        MR * kc <= pa@.len(),
        NEON_TROP_NR * kc <= pb@.len(),
        old(acc)@.len() == MR * NEON_TROP_NR,
    ensures
        final(acc)@.len() == old(acc)@.len(),
        tropical_is(final(acc)@, pa@, pb@, MR as int, NEON_TROP_NR as int, kc as int),
{
    let mut x: usize = 0;
    proof {
        assert(acc.len() == acc@.len());
    }
    while x < acc.len()
        invariant
            MR * kc <= pa@.len(),
            NEON_TROP_NR * kc <= pb@.len(),
            acc@.len() == MR * NEON_TROP_NR,
            acc@.len() == old(acc)@.len(),
            0 <= x <= acc@.len(),
            forall|y: int|
                0 <= y < x ==> #[trigger] acc@[y] == greatest(
                    pa@,
                    pb@,
                    MR as int,
                    8,
                    y / 8,
                    y % 8,
                    kc as int,
                ),
        decreases acc@.len() - x,
    {
        acc[x] = greatest_of::<MR>(kc, pa, pb, x / NEON_TROP_NR, x % NEON_TROP_NR);
        x += 1;
    }
    proof {
        assert forall|i: int, j: int|
            #![trigger acc@[i * 8 + j]]
            0 <= i < MR && 0 <= j < 8 implies acc@[i * 8 + j] == greatest(
            pa@,
            pb@,
            MR as int,
            8,
            i,
            j,
            kc as int,
        ) by {
            lemma_cell(MR as int, 8, i, j);
            vstd::arithmetic::div_mod::lemma_fundamental_div_mod_converse(i * 8 + j, 8, i, j);
        }
    }
}

/// The greatest sum of one row and one column.
fn greatest_of<const MR: usize>(kc: usize, pa: &[i16], pb: &[i16], i: usize, j: usize) -> (r: i16)
    requires
        i < MR,
        j < NEON_TROP_NR,
        MR * kc <= pa@.len(),
        NEON_TROP_NR * kc <= pb@.len(),
    ensures
        r == greatest(pa@, pb@, MR as int, 8, i as int, j as int, kc as int),
{
    let mut best: i16 = TROP_ZERO;
    let mut p: usize = 0;
    proof {
        assert(pa.len() == pa@.len());
        assert(pb.len() == pb@.len());
    }
    while p < kc
        invariant
            i < MR,
            j < 8,
            MR * kc <= pa@.len() <= usize::MAX,
            NEON_TROP_NR * kc <= pb@.len() <= usize::MAX,
            0 <= p <= kc,
            best == greatest(pa@, pb@, MR as int, 8, i as int, j as int, p as int),
        decreases kc - p,
    {
        proof {
            lemma_cell(kc as int, MR as int, p as int, i as int);
            lemma_cell(kc as int, 8, p as int, j as int);
            assert(kc * MR == MR * kc && kc * 8 == 8 * kc) by (nonlinear_arith);
        }
        let term: i16 = saturated_sum(pa[p * MR + i], pb[p * NEON_TROP_NR + j]);
        if term > best {
            best = term;
        }
        p += 1;
    }
    best
}

/// A tile of the greatest sums, of 4 rows and 8 columns.
pub fn neon_trop_i16(kc: usize, pa: &[i16], pb: &[i16], acc: &mut [i16])
    requires
        NEON_TROP_MR * kc <= pa@.len(),
        NEON_TROP_NR * kc <= pb@.len(),
        old(acc)@.len() == NEON_TROP_MR * NEON_TROP_NR,
    ensures
        final(acc)@.len() == old(acc)@.len(),
        tropical_is(
            final(acc)@,
            pa@,
            pb@,
            NEON_TROP_MR as int,
            NEON_TROP_NR as int,
            kc as int,
        ),
{
    neon_trop_i16_inner::<4>(kc, pa, pb, acc)
}

} // verus!
