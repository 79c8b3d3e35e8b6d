//! Kernels that keep the lanes of a register on the steps of one dot product.
use crate::arith::{cong, lemma_cong_add, lemma_cong_refl, lemma_cong_trans, lemma_sum_ext,
    lemma_sum_shift, lemma_sum_split, sum};
use crate::element::lemma_wrapped;
use crate::isa::nibble::{neon_nibble_address_vectors, neon_nibble_products, signed_nibble};
use vstd::prelude::*;

verus! {

/// Steps that one pass over a row consumes.
pub const REDUCE_GROUP: usize = 16;

/// The dot product of the first `steps` elements of row `i` with a column: rows
/// lie one after the other, `kc` elements each.
pub open spec fn row_dot(pa: Seq<i8>, pb: Seq<i8>, kc: int, i: int, steps: int) -> int {
    sum(|p: int| pa[i * kc + p] * pb[p], 0, steps)
}

/// Every lane is the dot product of its row.
pub open spec fn rows_reduced(acc: Seq<i32>, pa: Seq<i8>, pb: Seq<i8>, kc: int, rows: int) -> bool {
    forall|i: int|
        0 <= i < rows ==> cong(#[trigger] acc[i] as int, row_dot(pa, pb, kc, i, kc), 0x1_0000_0000)
}

/// The sum of the lanes of a register.
pub open spec fn lanes_total(s: Seq<i32>) -> int {
    s[0] + s[1] + s[2] + s[3]
}

/// Adds to one lane.
fn add_lane(lanes: &mut [i32; 4], l: usize, x: i32)
    requires
        l < 4,
    ensures
        final(lanes)@ == old(lanes)@.update(l as int, final(lanes)@[l as int]),
        cong(final(lanes)@[l as int] as int, old(lanes)@[l as int] + x, 0x1_0000_0000),
        cong(lanes_total(final(lanes)@), lanes_total(old(lanes)@) + x, 0x1_0000_0000),
{
    let was: i32 = lanes[l];
    let now: i32 = was.wrapping_add(x);
    lanes[l] = now;
    proof {
        let m = 0x1_0000_0000int;
        lemma_wrapped(was + x, now as int, m);
        let rest = lanes_total(old(lanes)@) - was;
        lemma_cong_refl(rest, m);
        lemma_cong_add(now as int, was + x, rest, rest, m);
        assert(lanes@ =~= old(lanes)@.update(l as int, now));
    }
}

/// The sum of the lanes of a register.
fn across(lanes: &[i32; 4]) -> (r: i32)
    ensures
        cong(r as int, lanes_total(lanes@), 0x1_0000_0000),
{
    let first: i32 = lanes[0].wrapping_add(lanes[1]);
    let second: i32 = lanes[2].wrapping_add(lanes[3]);
    let r: i32 = first.wrapping_add(second);
    proof {
        let m = 0x1_0000_0000int;
        lemma_wrapped(lanes@[0] + lanes@[1], first as int, m);
        lemma_wrapped(lanes@[2] + lanes@[3], second as int, m);
        lemma_wrapped(first + second, r as int, m);
        lemma_cong_add(
            first as int,
            lanes@[0] + lanes@[1],
            second as int,
            lanes@[2] + lanes@[3],
            m,
        );
        lemma_cong_trans(r as int, first + second, lanes_total(lanes@), m);
    }
    r
}

/// The product of two elements, widened.
fn widened(a: i8, b: i8) -> (r: i32)
    ensures
        r == a * b,
{
    assert(-0x4000 <= a * b <= 0x4000) by (nonlinear_arith)
        requires
            -128 <= a <= 127,
            -128 <= b <= 127,
    ;
    (a as i32) * (b as i32)
}

/// Sixteen products, each added to the lane of its place among four.
fn spread16(lanes: &mut [i32; 4], a: &[i8], at: usize, b: &[i8], from: usize, by_four: bool)
    requires
        at + 16 <= a@.len(),
        from + 16 <= b@.len(),
    ensures
        cong(
            lanes_total(final(lanes)@),
            lanes_total(old(lanes)@) + sum(|t: int| a@[at + t] * b@[from + t], 0, 16),
            0x1_0000_0000,
        ),
{
    let ghost f = |t: int| a@[at + t] * b@[from + t];
    let ghost begun = lanes_total(lanes@);
    let mut t: usize = 0;
    proof {
        assert(a.len() == a@.len());
        assert(b.len() == b@.len());
        lemma_cong_refl(begun, 0x1_0000_0000);
    }
    while t < 16
        invariant
            at + 16 <= a@.len() <= usize::MAX,
            from + 16 <= b@.len() <= usize::MAX,
            0 <= t <= 16,
            f == (|t: int| a@[at + t] * b@[from + t]),
            cong(lanes_total(lanes@), begun + sum(f, 0, t as int), 0x1_0000_0000),
        decreases 16 - t,
    {
        let ghost was = lanes_total(lanes@);
        let l: usize = if by_four {
            t / 4
        } else {
            t % 4
        };
        let product: i32 = widened(a[at + t], b[from + t]);
        add_lane(lanes, l, product);
        proof {
            let m = 0x1_0000_0000int;
            assert(f(t as int) == product);
            lemma_cong_refl(product as int, m);
            lemma_cong_add(was, begun + sum(f, 0, t as int), product as int, product as int, m);
            lemma_cong_trans(
                lanes_total(lanes@),
                was + product,
                begun + sum(f, 0, t as int) + product,
                m,
            );
            assert(sum(f, 0, t + 1) == sum(f, 0, t as int) + f(t as int));
        }
        t += 1;
    }
}

/// The dot product of one row with a column, sixteen steps at a time.
fn reduce_row(pa: &[i8], pb: &[i8], kc: usize, i: usize, rows: usize, by_four: bool) -> (r: i32)
    requires
        i < rows,
        rows * kc <= pa@.len(),
        kc <= pb@.len(),
        kc % 16 == 0,
    ensures
        cong(r as int, row_dot(pa@, pb@, kc as int, i as int, kc as int), 0x1_0000_0000),
{
    let mut lanes: [i32; 4] = [0; 4];
    let mut p: usize = 0;
    let ghost f = |p: int| pa@[i * kc + p] * pb@[p];
    proof {
        assert(pa.len() == pa@.len());
        assert(0 <= i * kc && i * kc + kc <= rows * kc) by (nonlinear_arith)
            requires
                0 <= i < rows,
                0 <= kc,
        ;
        lemma_cong_refl(0, 0x1_0000_0000);
    }
    while p < kc
        invariant
            kc % 16 == 0,
            p % 16 == 0,
            0 <= i * kc,
            i * kc + kc <= pa@.len() <= usize::MAX,
            kc <= pb@.len(),
            0 <= p <= kc,
            f == (|p: int| pa@[i * kc + p] * pb@[p]),
            cong(lanes_total(lanes@), sum(f, 0, p as int), 0x1_0000_0000),
        decreases kc - p,
    {
        let ghost was = lanes_total(lanes@);
        spread16(&mut lanes, pa, i * kc + p, pb, p, by_four);
        proof {
            let m = 0x1_0000_0000int;
            let at = i * kc + p;
            let g = |t: int| pa@[at + t] * pb@[p + t];
            let more = sum(g, 0, 16);
            let h = |t: int| f(p + t);
            lemma_sum_ext(g, h, 0, 16);
            lemma_sum_shift(h, f, p as int, 0, 16);
            lemma_sum_split(f, 0, p as int, p + 16);
            lemma_cong_refl(more, m);
            lemma_cong_add(was, sum(f, 0, p as int), more, more, m);
            lemma_cong_trans(lanes_total(lanes@), was + more, sum(f, 0, p as int) + more, m);
        }
        p += 16;
    }
    let r: i32 = across(&lanes);
    proof {
        lemma_cong_trans(r as int, lanes_total(lanes@), sum(f, 0, kc as int), 0x1_0000_0000);
    }
    r
}

fn reduce_rows<const MR: usize>(
    kc: usize,
    pa: &[i8],
    pb: &[i8],
    acc: &mut [i32],
    by_four: bool,
)
    requires
        MR * kc <= pa@.len(),
        kc <= pb@.len(),
        kc % 16 == 0,
        old(acc)@.len() == MR,
    ensures
        final(acc)@.len() == MR,
        rows_reduced(final(acc)@, pa@, pb@, kc as int, MR as int),
{
    let mut i: usize = 0;
    while i < MR
        invariant
            MR * kc <= pa@.len(),
            kc <= pb@.len(),
            kc % 16 == 0,
            acc@.len() == MR,
            0 <= i <= MR,
            rows_reduced(acc@, pa@, pb@, kc as int, i as int),
        decreases MR - i,
    {
        let r: i32 = reduce_row(pa, pb, kc, i, MR, by_four);
        acc[i] = r;
        i += 1;
    }
}

/// Rows against one column: eight products at once, widened and added by fours.
pub fn neon_r_i8_inner<const MR: usize>(kc: usize, pa: &[i8], pb: &[i8], acc: &mut [i32])
    requires
        MR * kc <= pa@.len(),
        kc <= pb@.len(),
        kc % 16 == 0,
        old(acc)@.len() == MR,
    ensures
        final(acc)@.len() == MR,
        rows_reduced(final(acc)@, pa@, pb@, kc as int, MR as int),
{
    reduce_rows::<MR>(kc, pa, pb, acc, false)
}

/// Rows against one column: sixteen products at once, four to a lane.
pub fn neon_dotprod_r_i8_inner<const MR: usize>(kc: usize, pa: &[i8], pb: &[i8], acc: &mut [i32])
    requires
        MR * kc <= pa@.len(),
        kc <= pb@.len(),
        kc % 16 == 0,
        old(acc)@.len() == MR,
    ensures
        final(acc)@.len() == MR,
        rows_reduced(final(acc)@, pa@, pb@, kc as int, MR as int),
{
    reduce_rows::<MR>(kc, pa, pb, acc, true)
}

/// One step of every row against one column element.
fn lookup_step<const MR: usize>(
    lanes: &mut [i32; 4],
    p: usize,
    kc: usize,
    pa: &[i8],
    pb: &[i8],
)
    requires
        0 < MR <= 4,
        p < kc,
        MR * kc <= pa@.len(),
        kc <= pb@.len(),
        forall|i: int|
            0 <= i < MR ==> cong(
                #[trigger] old(lanes)@[i] as int,
                row_dot(pa@, pb@, kc as int, i, p as int),
                0x1_0000_0000,
            ),
    ensures
        forall|i: int|
            0 <= i < MR ==> cong(
                #[trigger] final(lanes)@[i] as int,
                row_dot(pa@, pb@, kc as int, i, p + 1),
                0x1_0000_0000,
            ),
{
    proof {
        assert(pa.len() == pa@.len());
        let (mi, ki) = (MR as int, kc as int);
        assert(p + (mi - 1) * ki < mi * ki) by (nonlinear_arith)
            requires
                0 <= p < ki,
                mi > 0,
        ;
    }
    let (low, high) = neon_nibble_address_vectors(pa, p, MR, kc);
    let b: i8 = pb[p];
    let products: [i16; 16] = neon_nibble_products(b, &low, &high);
    let ghost begun = lanes@;
    let mut i: usize = 0;
    while i < MR
        invariant
            0 < MR <= 4,
            p < kc,
            MR * kc <= pa@.len(),
            kc <= pb@.len(),
            b == pb@[p as int],
            0 <= i <= MR,
            begun.len() == 4,
            forall|l: int|
                0 <= l < 16 ==> #[trigger] products@[l] == b * (low@[l] + 16 * signed_nibble(
                    high@[l] as int,
                )),
            forall|l: int|
                #![trigger low@[l]]
                0 <= l < MR ==> low@[l] + 16 * signed_nibble(high@[l] as int) == pa@[p + l * kc],
            forall|x: int| i <= x < 4 ==> #[trigger] lanes@[x] == begun[x],
            forall|x: int|
                0 <= x < MR ==> cong(
                    #[trigger] begun[x] as int,
                    row_dot(pa@, pb@, kc as int, x, p as int),
                    0x1_0000_0000,
                ),
            forall|x: int|
                0 <= x < i ==> cong(
                    #[trigger] lanes@[x] as int,
                    row_dot(pa@, pb@, kc as int, x, p + 1),
                    0x1_0000_0000,
                ),
        decreases MR - i,
    {
        let was: i32 = lanes[i];
        let product: i32 = products[i] as i32;
        add_lane(lanes, i, product);
        proof {
            let m = 0x1_0000_0000int;
            let ii = i as int;
            let _ = low@[ii];
            let sofar = row_dot(pa@, pb@, kc as int, ii, p as int);
            let (x, y) = (pa@[p + ii * kc] as int, b as int);
            assert(product == y * x);
            assert(y * x == x * y) by (nonlinear_arith);
            assert(was == begun[ii]);
            assert(row_dot(pa@, pb@, kc as int, ii, p + 1) == sofar + x * y);
            lemma_cong_refl(product as int, m);
            lemma_cong_add(was as int, sofar, product as int, product as int, m);
            lemma_cong_trans(lanes@[ii] as int, was + product, sofar + product, m);
        }
        i += 1;
    }
}

/// Rows against one column, by the tables of the column's elements: one read
/// covers every row.
pub fn neon_lookup_reduce_i8<const MR: usize>(kc: usize, pa: &[i8], pb: &[i8], acc: &mut [i32])
    requires
        MR == 1 || MR == 4,
        MR * kc <= pa@.len(),
        kc <= pb@.len(),
        old(acc)@.len() == MR,
    ensures
        final(acc)@.len() == MR,
        rows_reduced(final(acc)@, pa@, pb@, kc as int, MR as int),
{
    let mut lanes: [i32; 4] = [0; 4];
    let mut p: usize = 0;
    proof {
        assert forall|i: int| 0 <= i < MR implies cong(
            #[trigger] lanes@[i] as int,
            row_dot(pa@, pb@, kc as int, i, 0),
            0x1_0000_0000,
        ) by {
            lemma_cong_refl(0, 0x1_0000_0000);
        }
    }
    while p < kc
        invariant
            MR == 1 || MR == 4,
            MR * kc <= pa@.len(),
            kc <= pb@.len(),
            0 <= p <= kc,
            forall|i: int|
                0 <= i < MR ==> cong(
                    #[trigger] lanes@[i] as int,
                    row_dot(pa@, pb@, kc as int, i, p as int),
                    0x1_0000_0000,
                ),
        decreases kc - p,
    {
        lookup_step::<MR>(&mut lanes, p, kc, pa, pb);
        p += 1;
    }
    let mut i: usize = 0;
    while i < MR
        invariant
            MR == 1 || MR == 4,
            acc@.len() == MR,
            0 <= i <= MR,
            forall|x: int|
                0 <= x < MR ==> cong(
                    #[trigger] lanes@[x] as int,
                    row_dot(pa@, pb@, kc as int, x, kc as int),
                    0x1_0000_0000,
                ),
            forall|x: int| 0 <= x < i ==> #[trigger] acc@[x] == lanes@[x],
        decreases MR - i,
    {
        acc[i] = lanes[i];
        i += 1;
    }
}

} // verus!
