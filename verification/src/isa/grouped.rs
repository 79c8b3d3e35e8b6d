//! Kernels of 8-bit elements that consume several steps at once.
use crate::arith::{
    cong, lemma_cong_add, lemma_cong_mul, lemma_cong_refl, lemma_cong_trans, lemma_sum_ext,
    lemma_sum_shift, lemma_sum_split, sum,
};
use crate::element::{lemma_wrapped, Element};
use crate::isa::kernel::{clear_tile, step_rows, tile_is, tile_sum, KernelWord};
use crate::lane::lemma_cropped;
use crate::sequence::{lemma_cell, lemma_cell_apart};
use vstd::prelude::*;

verus! {

/// Steps that a group holds at most.
pub const WIDEST_GROUP: usize = 4;

/// Elements of one group of columns at most.
pub const GROUP_WORDS: usize = 64;

/// The dot product of one group of steps with lane `l` of an interleaved
/// register.
pub open spec fn group_sum(a: Seq<i16>, b: Seq<i16>, group: int, l: int) -> int {
    sum(|g: int| a[g] * b[l * group + g], 0, group)
}

/// One lane of a grouped dot product.
fn dot_lane(lane: i32, group: usize, a: &[i16; 4], b: &[i16; 64], l: usize) -> (r: i32)
    requires
        group <= 4,
        l * group + group <= 64,
    ensures
        cong(r as int, lane + group_sum(a@, b@, group as int, l as int), 0x1_0000_0000),
{
    let mut r: i32 = lane;
    let mut g: usize = 0;
    proof {
        assert(0 <= l * group) by (nonlinear_arith);
        lemma_cong_refl(lane as int, 0x1_0000_0000);
    }
    while g < group
        invariant
            group <= 4,
            0 <= l * group,
            l * group + group <= 64,
            0 <= g <= group,
            cong(
                r as int,
                lane + sum(|x: int| a@[x] * b@[l * group + x], 0, g as int),
                0x1_0000_0000,
            ),
        decreases group - g,
    {
        let (x, y): (i16, i16) = (a[g], b[l * group + g]);
        let ghost f = |x: int| a@[x] * b@[l * group + x];
        assert(-0x4000_0000 <= x * y <= 0x4000_0000) by (nonlinear_arith)
            requires
                -0x8000 <= x <= 0x7fff,
                -0x8000 <= y <= 0x7fff,
        ;
        let product: i32 = (x as i32) * (y as i32);
        let ghost was = r as int;
        r = r.wrapping_add(product);
        proof {
            let m = 0x1_0000_0000int;
            lemma_wrapped(was + product, r as int, m);
            lemma_cong_refl(product as int, m);
            lemma_cong_add(was, lane + sum(f, 0, g as int), product as int, product as int, m);
            lemma_cong_trans(r as int, was + product, lane + sum(f, 0, g as int) + product, m);
            assert(f(g as int) == product);
            assert(sum(f, 0, g + 1) == sum(f, 0, g as int) + f(g as int));
        }
        g += 1;
    }
    r
}

/// The dot product of one group of steps of a row with `width` columns, added to
/// `width` lanes from `at` on.
pub fn dot_lanes(
    acc: &mut [i32],
    at: usize,
    width: usize,
    group: usize,
    a: &[i16; 4],
    b: &[i16; 64],
)
    requires
        at + width <= old(acc)@.len(),
        group <= 4,
        width * group <= 64,
    ensures
        final(acc)@.len() == old(acc)@.len(),
        forall|x: int|
            0 <= x < old(acc)@.len() && !(at <= x < at + width) ==> #[trigger] final(acc)@[x]
                == old(acc)@[x],
        forall|l: int|
            #![trigger final(acc)@[at + l]]
            0 <= l < width ==> cong(
                final(acc)@[at + l] as int,
                old(acc)@[at + l] + group_sum(a@, b@, group as int, l),
                0x1_0000_0000,
            ),
{
    proof {
        assert(acc.len() == acc@.len());
    }
    let mut l: usize = 0;
    while l < width
        invariant
            acc@.len() == old(acc)@.len(),
            at + width <= acc@.len() <= usize::MAX,
            group <= 4,
            width * group <= 64,
            0 <= l <= width,
            forall|x: int|
                0 <= x < old(acc)@.len() && !(at <= x < at + l)
                    ==> #[trigger] acc@[x] == old(acc)@[x],
            forall|y: int|
                #![trigger acc@[at + y]]
                0 <= y < l ==> cong(
                    acc@[at + y] as int,
                    old(acc)@[at + y] + group_sum(a@, b@, group as int, y),
                    0x1_0000_0000,
                ),
        decreases width - l,
    {
        assert(l * group + group <= width * group) by (nonlinear_arith)
            requires
                l < width,
        ;
        acc[at + l] = dot_lane(acc[at + l], group, a, b, l);
        l += 1;
    }
}

/// The interleaved elements of one group of columns: lane `j` holds the steps
/// of column `j` next to each other.
pub open spec fn interleaved(
    words: Seq<i16>,
    pb: Seq<i8>,
    base: int,
    nr: int,
    group: int,
) -> bool {
    forall|j: int, g: int|
        #![trigger words[j * group + g]]
        0 <= j < nr && 0 <= g < group ==> words[j * group + g] == pb[(base + g) * nr + j]
}

/// Interleaves the `group` steps of `nr` columns from step `base` on.
pub fn interleave(pb: &[i8], base: usize, nr: usize, group: usize) -> (r: [i16; 64])
    requires
        nr * group <= 64,
        (base + group) * nr <= pb@.len(),
    ensures
        interleaved(r@, pb@, base as int, nr as int, group as int),
{
    let mut words: [i16; 64] = [0; 64];
    let mut j: usize = 0;
    proof {
        assert(pb.len() == pb@.len());
    }
    while j < nr
        invariant
            nr * group <= 64,
            (base + group) * nr <= pb@.len() <= usize::MAX,
            0 <= j <= nr,
            forall|y: int, g: int|
                #![trigger words@[y * group + g]]
                0 <= y < j && 0 <= g < group ==> words@[y * group + g] == pb@[(base + g) * nr + y],
        decreases nr - j,
    {
        let mut g: usize = 0;
        while g < group
            invariant
                nr * group <= 64,
                (base + group) * nr <= pb@.len() <= usize::MAX,
                0 <= j < nr,
                0 <= g <= group,
                forall|y: int, x: int|
                    #![trigger words@[y * group + x]]
                    0 <= y < nr && 0 <= x < group && (y < j || (y == j && x < g))
                        ==> words@[y * group + x] == pb@[(base + x) * nr + y],
            decreases group - g,
        {
            proof {
                lemma_cell(nr as int, group as int, j as int, g as int);
                let (bi, gi, wi) = (base as int, g as int, group as int);
                let (ni, ji) = (nr as int, j as int);
                assert(0 <= (bi + gi) * ni && (bi + gi) * ni + ji < (bi + wi) * ni && bi + gi
                    <= (bi + wi) * ni) by (nonlinear_arith)
                    requires
                        0 <= bi,
                        0 <= gi < wi,
                        0 <= ji < ni,
                ;
            }
            let ghost before = words@;
            words[j * group + g] = pb[(base + g) * nr + j] as i16;
            proof {
                assert forall|y: int, x: int|
                    #![trigger words@[y * group + x]]
                    0 <= y < nr && 0 <= x < group && (y < j || (y == j && x < g + 1)) implies words@[y
                    * group + x] == pb@[(base + x) * nr + y] by {
                    lemma_cell(nr as int, group as int, y, x);
                    if y * group + x == j * group + g {
                        lemma_cell_apart(group as int, y, x, j as int, g as int);
                    } else {
                        assert(words@[y * group + x] == before[y * group + x]);
                    }
                }
            }
            g += 1;
        }
        j += 1;
    }
    words
}

/// The steps of one row of a group, biased where `offset` asks for it.
pub fn row_group(
    pa: &[i8],
    base: usize,
    mr: usize,
    group: usize,
    i: usize,
    offset: bool,
) -> (r: [i16; 4])
    requires
        group <= 4,
        i < mr,
        (base + group) * mr <= pa@.len(),
    ensures
        forall|g: int|
            0 <= g < group ==> #[trigger] r@[g] == pa@[(base + g) * mr + i] + shift_of(offset),
{
    let mut words: [i16; 4] = [0; 4];
    let mut g: usize = 0;
    proof {
        assert(pa.len() == pa@.len());
    }
    while g < group
        invariant
            group <= 4,
            i < mr,
            (base + group) * mr <= pa@.len() <= usize::MAX,
            0 <= g <= group,
            forall|x: int|
                0 <= x < g ==> #[trigger] words@[x] == pa@[(base + x) * mr + i] + shift_of(offset),
        decreases group - g,
    {
        proof {
            let (bi, gi, mi, ii, wi) = (base as int, g as int, mr as int, i as int, group as int);
            assert(0 <= (bi + gi) * mi && (bi + gi) * mi + ii < (bi + wi) * mi && bi + gi <= (bi
                + wi) * mi) by (nonlinear_arith)
                requires
                    0 <= bi,
                    0 <= gi < wi,
                    0 <= ii < mi,
            ;
        }
        let x: i8 = pa[(base + g) * mr + i];
        words[g] = if offset {
            biased(x) as i16
        } else {
            x as i16
        };
        g += 1;
    }
    words
}

/// What a biased element exceeds the element by.
pub open spec fn shift_of(offset: bool) -> int {
    if offset {
        128
    } else {
        0
    }
}

/// The element with its bias: the sign bit flipped, read without a sign.
pub fn biased(x: i8) -> (r: u8)
    ensures
        r == x + 128,
{
    let bits: u8 = #[verifier::truncate]
    (x as u8);
    assert(((x as u8) ^ 0x80) as i16 == ((x as i16) + 128) as i16) by (bit_vector);
    bits ^ 0x80
}

/// Cell `(i, j)` of a tile after `kc` steps, with `shift` added to every element
/// of the row.
pub open spec fn shifted_sum(
    pa: Seq<i8>,
    pb: Seq<i8>,
    mr: int,
    nr: int,
    shift: int,
    i: int,
    j: int,
    kc: int,
) -> int {
    sum(|p: int| (pa[p * mr + i] + shift) * pb[p * nr + j], 0, kc)
}

/// Cells of rows below `rows` have `kc` steps, the others `below`.
pub open spec fn shifted_at(
    acc: Seq<i32>,
    pa: Seq<i8>,
    pb: Seq<i8>,
    mr: int,
    nr: int,
    shift: int,
    rows: int,
    below: int,
    kc: int,
) -> bool {
    forall|i: int, j: int|
        #![trigger acc[i * nr + j]]
        0 <= i < mr && 0 <= j < nr ==> cong(
            acc[i * nr + j] as int,
            shifted_sum(
                pa,
                pb,
                mr,
                nr,
                shift,
                i,
                j,
                if i < rows {
                    kc
                } else {
                    below
                },
            ),
            0x1_0000_0000,
        )
}

/// A group of steps adds its dot product.
proof fn lemma_group(
    pa: Seq<i8>,
    pb: Seq<i8>,
    mr: int,
    nr: int,
    shift: int,
    i: int,
    j: int,
    base: int,
    group: int,
    a: Seq<i16>,
    words: Seq<i16>,
)
    requires
        0 <= base,
        0 <= group,
        0 <= j < nr,
        interleaved(words, pb, base, nr, group),
        forall|g: int| 0 <= g < group ==> #[trigger] a[g] == pa[(base + g) * mr + i] + shift,
    ensures
        shifted_sum(pa, pb, mr, nr, shift, i, j, base + group) == shifted_sum(
            pa,
            pb,
            mr,
            nr,
            shift,
            i,
            j,
            base,
        ) + group_sum(a, words, group, j),
{
    let f = |p: int| (pa[p * mr + i] + shift) * pb[p * nr + j];
    let h = |g: int| a[g] * words[j * group + g];
    let s = |g: int| f(base + g);
    lemma_sum_split(f, 0, base, base + group);
    assert forall|g: int| 0 <= g < group implies #[trigger] h(g) == s(g) by {
        let _ = words[j * group + g];
        let _ = a[g];
    }
    lemma_sum_ext(h, s, 0, group);
    lemma_sum_shift(s, f, base, 0, group);
}

/// One group of steps of every row.
fn group_rows(
    mr: usize,
    nr: usize,
    group: usize,
    base: usize,
    pa: &[i8],
    pb: &[i8],
    offset: bool,
    acc: &mut [i32],
)
    requires
        group <= 4,
        nr * group <= 64,
        (base + group) * mr <= pa@.len(),
        (base + group) * nr <= pb@.len(),
        mr * nr == old(acc)@.len(),
        base + group <= usize::MAX,
        shifted_at(
            old(acc)@,
            pa@,
            pb@,
            mr as int,
            nr as int,
            shift_of(offset),
            0,
            base as int,
            base as int,
        ),
    ensures
        final(acc)@.len() == old(acc)@.len(),
        shifted_at(
            final(acc)@,
            pa@,
            pb@,
            mr as int,
            nr as int,
            shift_of(offset),
            0,
            base + group,
            base + group,
        ),
{
    let words: [i16; 64] = interleave(pb, base, nr, group);
    let ghost shift = shift_of(offset);
    proof {
        assert(acc.len() == acc@.len());
    }
    let mut i: usize = 0;
    while i < mr
        invariant
            group <= 4,
            nr * group <= 64,
            shift == shift_of(offset),
            (base + group) * mr <= pa@.len(),
            mr * nr == acc@.len() <= usize::MAX,
            acc@.len() == old(acc)@.len(),
            0 <= i <= mr,
            interleaved(words@, pb@, base as int, nr as int, group as int),
            shifted_at(
                acc@,
                pa@,
                pb@,
                mr as int,
                nr as int,
                shift,
                i as int,
                base as int,
                base + group,
            ),
        decreases mr - i,
    {
        let a: [i16; 4] = row_group(pa, base, mr, group, i, offset);
        let ghost before = acc@;
        proof {
            if nr > 0 {
                lemma_cell(mr as int, nr as int, i as int, 0);
            } else {
                assert(i * nr == 0) by (nonlinear_arith)
                    requires
                        nr == 0,
                ;
            }
        }
        dot_lanes(acc, i * nr, nr, group, &a, &words);
        proof {
            let (mi, ni) = (mr as int, nr as int);
            assert forall|x: int, y: int|
                #![trigger acc@[x * ni + y]]
                0 <= x < mi && 0 <= y < ni implies cong(
                acc@[x * ni + y] as int,
                shifted_sum(
                    pa@,
                    pb@,
                    mi,
                    ni,
                    shift,
                    x,
                    y,
                    if x < i + 1 {
                        base + group
                    } else {
                        base as int
                    },
                ),
                0x1_0000_0000,
            ) by {
                lemma_cell(mi, ni, x, y);
                let was = before[x * ni + y] as int;
                if x == i {
                    let m = 0x1_0000_0000int;
                    lemma_group(
                        pa@,
                        pb@,
                        mi,
                        ni,
                        shift,
                        x,
                        y,
                        base as int,
                        group as int,
                        a@,
                        words@,
                    );
                    let more = group_sum(a@, words@, group as int, y);
                    let sofar = shifted_sum(pa@, pb@, mi, ni, shift, x, y, base as int);
                    lemma_cong_refl(more, m);
                    lemma_cong_add(was, sofar, more, more, m);
                    lemma_cong_trans(acc@[x * ni + y] as int, was + more, sofar + more, m);
                } else {
                    if i * ni <= x * ni + y < i * ni + ni {
                        lemma_cell_apart(ni, x, y, i as int, x * ni + y - i * ni);
                    }
                    assert(acc@[x * ni + y] == before[x * ni + y]);
                }
            }
        }
        i += 1;
    }
}

/// The whole groups of steps; the number of steps taken.
fn walk_groups(
    mr: usize,
    nr: usize,
    group: usize,
    kc: usize,
    pa: &[i8],
    pb: &[i8],
    offset: bool,
    acc: &mut [i32],
) -> (done: usize)
    requires
        0 < group <= 4,
        nr * group <= 64,
        mr * kc <= pa@.len(),
        nr * kc <= pb@.len(),
        mr * nr == old(acc)@.len(),
    ensures
        final(acc)@.len() == old(acc)@.len(),
        done == (kc / group) * group,
        done <= kc,
        shifted_at(
            final(acc)@,
            pa@,
            pb@,
            mr as int,
            nr as int,
            shift_of(offset),
            0,
            done as int,
            done as int,
        ),
{
    clear_tile(acc);
    let ghost shift = shift_of(offset);
    let groups: usize = kc / group;
    proof {
        let (mi, ni) = (mr as int, nr as int);
        assert forall|i: int, j: int|
            #![trigger acc@[i * ni + j]]
            0 <= i < mi && 0 <= j < ni implies cong(
            acc@[i * ni + j] as int,
            shifted_sum(pa@, pb@, mi, ni, shift, i, j, 0),
            0x1_0000_0000,
        ) by {
            lemma_cell(mi, ni, i, j);
            assert(acc@[i * ni + j].word() == 0);
            lemma_cong_refl(0, 0x1_0000_0000);
        }
        vstd::arithmetic::div_mod::lemma_fundamental_div_mod(kc as int, group as int);
        assert(groups * group == group * groups) by (nonlinear_arith);
    }
    let mut q: usize = 0;
    let mut base: usize = 0;
    while q < groups
        invariant
            0 < group <= 4,
            nr * group <= 64,
            mr * kc <= pa@.len(),
            nr * kc <= pb@.len(),
            mr * nr == acc@.len(),
            acc@.len() == old(acc)@.len(),
            shift == shift_of(offset),
            0 <= q <= groups,
            base == q * group,
            groups * group <= kc,
            shifted_at(
                acc@,
                pa@,
                pb@,
                mr as int,
                nr as int,
                shift,
                0,
                base as int,
                base as int,
            ),
        decreases groups - q,
    {
        proof {
            let (gi, qi, bi, ki, mi, ni, all) = (
                group as int,
                q as int,
                base as int,
                kc as int,
                mr as int,
                nr as int,
                groups as int,
            );
            assert(bi + gi <= ki && (bi + gi) * mi <= mi * ki && (bi + gi) * ni <= ni * ki && (qi
                + 1) * gi == bi + gi) by (nonlinear_arith)
                requires
                    bi == qi * gi,
                    0 <= qi < all,
                    all * gi <= ki,
                    gi > 0,
                    mi >= 0,
                    ni >= 0,
            ;
        }
        group_rows(mr, nr, group, base, pa, pb, offset, acc);
        base += group;
        q += 1;
    }
    base
}

/// The steps from `from` on, one at a time.
pub fn tail(mr: usize, nr: usize, kc: usize, from: usize, pa: &[i8], pb: &[i8], acc: &mut [i32])
    requires
        from <= kc,
        mr * kc <= pa@.len(),
        nr * kc <= pb@.len(),
        mr * nr == old(acc)@.len(),
        tile_is(old(acc)@, pa@, pb@, mr as int, nr as int, from as int),
    ensures
        final(acc)@.len() == old(acc)@.len(),
        tile_is(final(acc)@, pa@, pb@, mr as int, nr as int, kc as int),
{
    let mut p: usize = from;
    while p < kc
        invariant
            mr * kc <= pa@.len(),
            nr * kc <= pb@.len(),
            mr * nr == acc@.len(),
            acc@.len() == old(acc)@.len(),
            from <= p <= kc,
            tile_is(acc@, pa@, pb@, mr as int, nr as int, p as int),
        decreases kc - p,
    {
        step_rows(mr, nr, p, kc, pa, pb, acc);
        p += 1;
    }
}

proof fn lemma_unshifted(
    acc: Seq<i32>,
    pa: Seq<i8>,
    pb: Seq<i8>,
    mr: int,
    nr: int,
    kc: int,
)
    requires
        shifted_at(acc, pa, pb, mr, nr, 0, 0, kc, kc),
    ensures
        tile_is(acc, pa, pb, mr, nr, kc),
{
    assert forall|i: int, j: int|
        #![trigger acc[i * nr + j]]
        0 <= i < mr && 0 <= j < nr implies cong(
        acc[i * nr + j].word(),
        tile_sum(pa, pb, mr, nr, i, j, kc),
        <i32 as KernelWord>::extent(),
    ) by {
        lemma_sum_ext(
            |p: int| (pa[p * mr + i] + 0) * pb[p * nr + j],
            |p: int| pa[p * mr + i].val() * pb[p * nr + j].val(),
            0,
            kc,
        );
    }
}

/// A tile by whole groups of steps, and then the steps that are left.
pub fn grouped_tile(
    mr: usize,
    nr: usize,
    group: usize,
    kc: usize,
    pa: &[i8],
    pb: &[i8],
    acc: &mut [i32],
)
    requires
        0 < group <= 4,
        nr * group <= 64,
        mr * kc <= pa@.len(),
        nr * kc <= pb@.len(),
        mr * nr == old(acc)@.len(),
    ensures
        final(acc)@.len() == old(acc)@.len(),
        tile_is(final(acc)@, pa@, pb@, mr as int, nr as int, kc as int),
{
    let done: usize = walk_groups(mr, nr, group, kc, pa, pb, false, acc);
    proof {
        lemma_unshifted(acc@, pa@, pb@, mr as int, nr as int, done as int);
    }
    tail(mr, nr, kc, done, pa, pb, acc);
}

/// The sum of the first `steps` elements of column `j`.
pub open spec fn column_total(pb: Seq<i8>, nr: int, j: int, steps: int) -> int {
    sum(|p: int| pb[p * nr + j] as int, 0, steps)
}

/// A biased tile is the tile plus the bias times the column totals.
pub proof fn lemma_bias(
    pa: Seq<i8>,
    pb: Seq<i8>,
    mr: int,
    nr: int,
    shift: int,
    i: int,
    j: int,
    kc: int,
)
    ensures
        shifted_sum(pa, pb, mr, nr, shift, i, j, kc) == tile_sum(pa, pb, mr, nr, i, j, kc) + shift
            * column_total(pb, nr, j, kc),
    decreases kc,
{
    if kc > 0 {
        lemma_bias(pa, pb, mr, nr, shift, i, j, kc - 1);
        let (x, y) = (pa[(kc - 1) * mr + i] as int, pb[(kc - 1) * nr + j] as int);
        let before = column_total(pb, nr, j, kc - 1);
        assert((x + shift) * y == x * y + shift * y && shift * (before + y) == shift * before
            + shift * y) by (nonlinear_arith);
    } else {
        assert(shift * 0 == 0);
    }
}

/// The totals of the first `steps` elements of each column.
fn column_totals(pb: &[i8], nr: usize, steps: usize) -> (r: [i32; 16])
    requires
        nr <= 16,
        steps * nr <= pb@.len(),
    ensures
        forall|j: int|
            0 <= j < nr ==> cong(
                #[trigger] r@[j] as int,
                column_total(pb@, nr as int, j, steps as int),
                0x1_0000_0000,
            ),
{
    let mut totals: [i32; 16] = [0; 16];
    let mut p: usize = 0;
    proof {
        assert(pb.len() == pb@.len());
        assert forall|j: int| 0 <= j < nr implies cong(
            #[trigger] totals@[j] as int,
            column_total(pb@, nr as int, j, 0),
            0x1_0000_0000,
        ) by {
            lemma_cong_refl(0, 0x1_0000_0000);
        }
    }
    while p < steps
        invariant
            nr <= 16,
            steps * nr <= pb@.len() <= usize::MAX,
            0 <= p <= steps,
            forall|j: int|
                0 <= j < nr ==> cong(
                    #[trigger] totals@[j] as int,
                    column_total(pb@, nr as int, j, p as int),
                    0x1_0000_0000,
                ),
        decreases steps - p,
    {
        let ghost before = totals@;
        let mut j: usize = 0;
        while j < nr
            invariant
                nr <= 16,
                steps * nr <= pb@.len() <= usize::MAX,
                0 <= p < steps,
                0 <= j <= nr,
                before.len() == 16,
                forall|x: int| j <= x < 16 ==> #[trigger] totals@[x] == before[x],
                forall|x: int|
                    0 <= x < nr ==> cong(
                        #[trigger] before[x] as int,
                        column_total(pb@, nr as int, x, p as int),
                        0x1_0000_0000,
                    ),
                forall|x: int|
                    0 <= x < j ==> cong(
                        #[trigger] totals@[x] as int,
                        column_total(pb@, nr as int, x, p + 1),
                        0x1_0000_0000,
                    ),
            decreases nr - j,
        {
            proof {
                lemma_cell(steps as int, nr as int, p as int, j as int);
            }
            let v: i32 = pb[p * nr + j] as i32;
            let ghost was = totals@[j as int] as int;
            let next: i32 = totals[j].wrapping_add(v);
            totals[j] = next;
            proof {
                let m = 0x1_0000_0000int;
                let sofar = column_total(pb@, nr as int, j as int, p as int);
                assert(was == before[j as int]);
                lemma_wrapped(was + v, next as int, m);
                lemma_cong_refl(v as int, m);
                lemma_cong_add(was, sofar, v as int, v as int, m);
                lemma_cong_trans(next as int, was + v, sofar + v, m);
                assert(column_total(pb@, nr as int, j as int, p + 1) == sofar + v);
            }
            j += 1;
        }
        p += 1;
    }
    totals
}

/// Takes the bias of `done` steps out of every row.
fn unbias(mr: usize, nr: usize, done: usize, pa: &[i8], pb: &[i8], acc: &mut [i32])
    requires
        nr <= 16,
        done * nr <= pb@.len(),
        mr * nr == old(acc)@.len(),
        shifted_at(
            old(acc)@,
            pa@,
            pb@,
            mr as int,
            nr as int,
            128,
            0,
            done as int,
            done as int,
        ),
    ensures
        final(acc)@.len() == old(acc)@.len(),
        tile_is(final(acc)@, pa@, pb@, mr as int, nr as int, done as int),
{
    let totals: [i32; 16] = column_totals(pb, nr, done);
    let ghost before = acc@;
    proof {
        assert(acc.len() == acc@.len());
    }
    let mut x: usize = 0;
    while x < acc.len()
        invariant
            nr <= 16,
            mr * nr == acc@.len() <= usize::MAX,
            acc@.len() == old(acc)@.len(),
            before == old(acc)@,
            0 <= x <= acc@.len(),
            forall|y: int| x <= y < acc@.len() ==> #[trigger] acc@[y] == before[y],
            forall|j: int|
                0 <= j < nr ==> cong(
                    #[trigger] totals@[j] as int,
                    column_total(pb@, nr as int, j, done as int),
                    0x1_0000_0000,
                ),
            forall|y: int|
                0 <= y < x ==> cong(
                    #[trigger] acc@[y] as int,
                    before[y] - 128 * column_total(pb@, nr as int, y % nr as int, done as int),
                    0x1_0000_0000,
                ),
        decreases acc@.len() - x,
    {
        proof {
            assert(nr > 0) by (nonlinear_arith)
                requires
                    mr * nr > 0,
                    mr >= 0,
            ;
            vstd::arithmetic::div_mod::lemma_mod_bound(x as int, nr as int);
        }
        let t: i32 = totals[x % nr];
        let scaled: i32 = t.wrapping_mul(128);
        let r: i32 = acc[x].wrapping_sub(scaled);
        proof {
            let m = 0x1_0000_0000int;
            let exact = column_total(pb@, nr as int, x as int % nr as int, done as int);
            lemma_cropped(t * 128, scaled as int, m);
            lemma_cong_mul(t as int, exact, 128, m);
            lemma_cong_trans(scaled as int, t * 128, exact * 128, m);
            lemma_cong_mul(scaled as int, exact * 128, -1, m);
            lemma_cong_refl(acc@[x as int] as int, m);
            lemma_cong_add(
                acc@[x as int] as int,
                acc@[x as int] as int,
                scaled * (-1),
                (exact * 128) * (-1),
                m,
            );
            lemma_wrapped(acc@[x as int] - scaled, r as int, m);
            assert(acc@[x as int] - scaled == acc@[x as int] + scaled * (-1));
            lemma_cong_trans(
                r as int,
                acc@[x as int] - scaled,
                acc@[x as int] + (exact * 128) * (-1),
                m,
            );
        }
        acc[x] = r;
        x += 1;
    }
    proof {
        let (mi, ni) = (mr as int, nr as int);
        assert forall|i: int, j: int|
            #![trigger acc@[i * ni + j]]
            0 <= i < mi && 0 <= j < ni implies cong(
            acc@[i * ni + j].word(),
            tile_sum(pa@, pb@, mi, ni, i, j, done as int),
            <i32 as KernelWord>::extent(),
        ) by {
            let m = 0x1_0000_0000int;
            lemma_cell(mi, ni, i, j);
            vstd::arithmetic::div_mod::lemma_fundamental_div_mod_converse(i * ni + j, ni, i, j);
            lemma_bias(pa@, pb@, mi, ni, 128, i, j, done as int);
            let total = column_total(pb@, ni, j, done as int);
            let biased = before[i * ni + j] as int;
            lemma_cong_refl(-128 * total, m);
            lemma_cong_add(
                biased,
                shifted_sum(pa@, pb@, mi, ni, 128, i, j, done as int),
                -128 * total,
                -128 * total,
                m,
            );
            lemma_cong_trans(
                acc@[i * ni + j] as int,
                biased - 128 * total,
                tile_sum(pa@, pb@, mi, ni, i, j, done as int),
                m,
            );
        }
    }
}

/// A tile by whole groups of biased steps, the bias taken out once, and then
/// the steps that are left.
pub fn biased_tile(
    mr: usize,
    nr: usize,
    group: usize,
    kc: usize,
    pa: &[i8],
    pb: &[i8],
    acc: &mut [i32],
)
    requires
        0 < group <= 4,
        nr <= 16,
        mr * kc <= pa@.len(),
        nr * kc <= pb@.len(),
        mr * nr == old(acc)@.len(),
    ensures
        final(acc)@.len() == old(acc)@.len(),
        tile_is(final(acc)@, pa@, pb@, mr as int, nr as int, kc as int),
{
    proof {
        assert(nr * group <= 64) by (nonlinear_arith)
            requires
                0 <= nr <= 16,
                0 < group <= 4,
        ;
    }
    let done: usize = walk_groups(mr, nr, group, kc, pa, pb, true, acc);
    proof {
        assert(done * nr <= nr * kc) by (nonlinear_arith)
            requires
                done <= kc,
                nr >= 0,
        ;
    }
    unbias(mr, nr, done, pa, pb, acc);
    tail(mr, nr, kc, done, pa, pb, acc);
}

} // verus!
