//! Kernels over panels packed by fours of steps: the four steps of a row or a
//! column lie next to each other.
use crate::arith::{cong, lemma_cong_add, lemma_cong_refl, lemma_cong_trans, sum};
use crate::element::lemma_wrapped;
use crate::isa::kernel::{clear_tile, KernelWord};
use vstd::prelude::*;

verus! {

/// Rows of the tile.
pub const DOT_MR: usize = 8;

/// Columns of the tile.
pub const DOT_NR: usize = 12;

/// The dot product of four elements from `x` on with four from `y` on.
pub open spec fn quad_sum(a: Seq<i8>, x: int, b: Seq<i8>, y: int) -> int {
    sum(|g: int| a[x + g] * b[y + g], 0, 4)
}

/// Cell `(i, j)` after `groups` fours of steps: four `q` of row `i` lies at
/// `(q * mr + i) * 4`, and that of column `j` at `(q * nr + j) * 4`.
pub open spec fn packed_sum(
    pa: Seq<i8>,
    pb: Seq<i8>,
    mr: int,
    nr: int,
    i: int,
    j: int,
    groups: int,
) -> int {
    sum(|q: int| quad_sum(pa, (q * mr + i) * 4, pb, (q * nr + j) * 4), 0, groups)
}

/// Every cell of the tile is the sum of its fours; cells of rows below `rows`
/// have one four more.
pub open spec fn packed_at(
    acc: Seq<i32>,
    pa: Seq<i8>,
    pb: Seq<i8>,
    mr: int,
    nr: int,
    rows: int,
    groups: int,
) -> bool {
    forall|i: int, j: int|
        #![trigger acc[i * nr + j]]
        0 <= i < mr && 0 <= j < nr ==> cong(
            acc[i * nr + j] as int,
            packed_sum(
                pa,
                pb,
                mr,
                nr,
                i,
                j,
                if i < rows {
                    groups + 1
                } else {
                    groups
                },
            ),
            0x1_0000_0000,
        )
}

/// Four products added to one lane.
fn dot_quad(lane: i32, a: &[i8], x: usize, b: &[i8], y: usize) -> (r: i32)
    requires
        x + 4 <= a@.len(),
        y + 4 <= b@.len(),
    ensures
        cong(r as int, lane + quad_sum(a@, x as int, b@, y as int), 0x1_0000_0000),
{
    let mut r: i32 = lane;
    let mut g: usize = 0;
    let ghost f = |g: int| a@[x + g] * b@[y + g];
    proof {
        assert(a.len() == a@.len());
        assert(b.len() == b@.len());
        lemma_cong_refl(lane as int, 0x1_0000_0000);
    }
    while g < 4
        invariant
            x + 4 <= a@.len() <= usize::MAX,
            y + 4 <= b@.len() <= usize::MAX,
            0 <= g <= 4,
            f == (|g: int| a@[x + g] * b@[y + g]),
            cong(r as int, lane + sum(f, 0, g as int), 0x1_0000_0000),
        decreases 4 - g,
    {
        let (u, v): (i8, i8) = (a[x + g], b[y + g]);
        assert(-0x4000 <= u * v <= 0x4000) by (nonlinear_arith)
            requires
                -128 <= u <= 127,
                -128 <= v <= 127,
        ;
        let product: i32 = (u as i32) * (v as i32);
        let was: i32 = r;
        r = was.wrapping_add(product);
        proof {
            let m = 0x1_0000_0000int;
            lemma_wrapped(was + product, r as int, m);
            lemma_cong_refl(product as int, m);
            lemma_cong_add(
                was as int,
                lane + sum(f, 0, g as int),
                product as int,
                product as int,
                m,
            );
            lemma_cong_trans(r as int, was + product, lane + sum(f, 0, g as int) + product, m);
            assert(f(g as int) == product);
            assert(sum(f, 0, g + 1) == sum(f, 0, g as int) + f(g as int));
        }
        g += 1;
    }
    r
}

/// One four of a row against four columns: lane `c` takes the four of column
/// `c`.
pub fn sdot(acc: &mut [i32], at: usize, a: &[i8], x: usize, b: &[i8], y: usize)
    requires
        at + 4 <= old(acc)@.len(),
        x + 4 <= a@.len(),
        y + 16 <= b@.len(),
    ensures
        final(acc)@.len() == old(acc)@.len(),
        forall|z: int|
            0 <= z < old(acc)@.len() && !(at <= z < at + 4)
                ==> #[trigger] final(acc)@[z] == old(acc)@[z],
        forall|c: int|
            #![trigger final(acc)@[at + c]]
            0 <= c < 4 ==> cong(
                final(acc)@[at + c] as int,
                old(acc)@[at + c] + quad_sum(a@, x as int, b@, y + c * 4),
                0x1_0000_0000,
            ),
{
    let mut c: usize = 0;
    proof {
        assert(acc.len() == acc@.len());
        assert(b.len() == b@.len());
    }
    while c < 4
        invariant
            acc@.len() == old(acc)@.len(),
            at + 4 <= acc@.len() <= usize::MAX,
            x + 4 <= a@.len(),
            y + 16 <= b@.len() <= usize::MAX,
            0 <= c <= 4,
            forall|z: int|
                0 <= z < old(acc)@.len() && !(at <= z < at + c)
                    ==> #[trigger] acc@[z] == old(acc)@[z],
            forall|z: int|
                #![trigger acc@[at + z]]
                0 <= z < c ==> cong(
                    acc@[at + z] as int,
                    old(acc)@[at + z] + quad_sum(a@, x as int, b@, y + z * 4),
                    0x1_0000_0000,
                ),
        decreases 4 - c,
    {
        acc[at + c] = dot_quad(acc[at + c], a, x, b, y + c * 4);
        c += 1;
    }
}

/// One four of a row against every column.
fn quad_row(acc: &mut [i32], at: usize, a: &[i8], x: usize, b: &[i8], y: usize)
    requires
        at + 12 <= old(acc)@.len(),
        x + 4 <= a@.len(),
        y + 48 <= b@.len(),
    ensures
        final(acc)@.len() == old(acc)@.len(),
        forall|z: int|
            0 <= z < old(acc)@.len() && !(at <= z < at + 12)
                ==> #[trigger] final(acc)@[z] == old(acc)@[z],
        forall|j: int|
            #![trigger final(acc)@[at + j]]
            0 <= j < 12 ==> cong(
                final(acc)@[at + j] as int,
                old(acc)@[at + j] + quad_sum(a@, x as int, b@, y + j * 4),
                0x1_0000_0000,
            ),
{
    proof {
        assert(acc.len() == acc@.len());
        assert(b.len() == b@.len());
    }
    let ghost begun = acc@;
    sdot(acc, at, a, x, b, y);
    let ghost first = acc@;
    sdot(acc, at + 4, a, x, b, y + 16);
    let ghost second = acc@;
    sdot(acc, at + 8, a, x, b, y + 32);
    proof {
        assert forall|j: int|
            #![trigger acc@[at + j]]
            0 <= j < 12 implies cong(
            acc@[at + j] as int,
            begun[at + j] + quad_sum(a@, x as int, b@, y + j * 4),
            0x1_0000_0000,
        ) by {
            if j < 4 {
                assert(acc@[at + j] == second[at + j] == first[at + j]);
            } else if j < 8 {
                let c = j - 4;
                assert(second[at + 4 + c] == second[at + j]);
                assert(first[at + 4 + c] == begun[at + j]);
                assert(acc@[at + j] == second[at + j]);
                assert(y + 16 + c * 4 == y + j * 4);
            } else {
                let c = j - 8;
                assert(acc@[at + 8 + c] == acc@[at + j]);
                assert(second[at + 8 + c] == first[at + j] == begun[at + j]);
                assert(y + 32 + c * 4 == y + j * 4);
            }
        }
    }
}

/// A tile of 8 rows and 12 columns over panels packed by fours.
pub fn neon_dotprod_inner(kc: usize, pa: &[i8], pb: &[i8], acc: &mut [i32])
    requires
        kc % 4 == 0,
        DOT_MR * kc <= pa@.len(),
        DOT_NR * kc <= pb@.len(),
        old(acc)@.len() == DOT_MR * DOT_NR,
    ensures
        final(acc)@.len() == old(acc)@.len(),
        packed_at(
            final(acc)@,
            pa@,
            pb@,
            DOT_MR as int,
            DOT_NR as int,
            0,
            kc as int / 4,
        ),
{
    clear_tile(acc);
    let groups: usize = kc / 4;
    let mut q: usize = 0;
    proof {
        assert forall|i: int, j: int|
            #![trigger acc@[i * 12 + j]]
            0 <= i < 8 && 0 <= j < 12 implies cong(
            acc@[i * 12 + j] as int,
            packed_sum(pa@, pb@, 8, 12, i, j, 0),
            0x1_0000_0000,
        ) by {
            assert(acc@[i * 12 + j].word() == 0);
            lemma_cong_refl(0, 0x1_0000_0000);
        }
        assert(pa.len() == pa@.len());
        assert(pb.len() == pb@.len());
    }
    while q < groups
        invariant
            kc == groups * 4,
            8 * kc <= pa@.len() <= usize::MAX,
            12 * kc <= pb@.len() <= usize::MAX,
            acc@.len() == 96,
            0 <= q <= groups,
            packed_at(acc@, pa@, pb@, 8, 12, 0, q as int),
        decreases groups - q,
    {
        let mut i: usize = 0;
        while i < 8
            invariant
                kc == groups * 4,
                8 * kc <= pa@.len() <= usize::MAX,
                12 * kc <= pb@.len() <= usize::MAX,
                acc@.len() == 96,
                0 <= q < groups,
                0 <= i <= 8,
                packed_at(acc@, pa@, pb@, 8, 12, i as int, q as int),
            decreases 8 - i,
        {
            let ghost before = acc@;
            quad_row(acc, i * DOT_NR, pa, (q * DOT_MR + i) * 4, pb, q * DOT_NR * 4);
            proof {
                assert forall|x: int, y: int|
                    #![trigger acc@[x * 12 + y]]
                    0 <= x < 8 && 0 <= y < 12 implies cong(
                    acc@[x * 12 + y] as int,
                    packed_sum(
                        pa@,
                        pb@,
                        8,
                        12,
                        x,
                        y,
                        if x < i + 1 {
                            q + 1
                        } else {
                            q as int
                        },
                    ),
                    0x1_0000_0000,
                ) by {
                    let m = 0x1_0000_0000int;
                    if x == i {
                        let was = before[x * 12 + y] as int;
                        let sofar = packed_sum(pa@, pb@, 8, 12, x, y, q as int);
                        let more = quad_sum(pa@, (q * 8 + x) * 4, pb@, (q * 12 + y) * 4);
                        assert((q * 12 + y) * 4 == q * 12 * 4 + y * 4);
                        assert(packed_sum(pa@, pb@, 8, 12, x, y, q + 1) == sofar + more);
                        lemma_cong_refl(more, m);
                        lemma_cong_add(was, sofar, more, more, m);
                        lemma_cong_trans(acc@[x * 12 + y] as int, was + more, sofar + more, m);
                    } else {
                        assert(acc@[x * 12 + y] == before[x * 12 + y]);
                    }
                }
            }
            i += 1;
        }
        q += 1;
    }
}

/// A tile of 8 rows and 12 columns over panels packed by fours.
pub fn neon_dotprod_i8(kc: usize, pa: &[i8], pb: &[i8], acc: &mut [i32])
    requires
        kc % 4 == 0,
        DOT_MR * kc <= pa@.len(),
        DOT_NR * kc <= pb@.len(),
        old(acc)@.len() == DOT_MR * DOT_NR,
    ensures
        final(acc)@.len() == old(acc)@.len(),
        packed_at(
            final(acc)@,
            pa@,
            pb@,
            DOT_MR as int,
            DOT_NR as int,
            0,
            kc as int / 4,
        ),
{
    neon_dotprod_inner(kc, pa, pb, acc)
}

} // verus!
