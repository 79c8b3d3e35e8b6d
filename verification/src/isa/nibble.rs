//! Products of 8-bit elements read out of sixteen-entry tables, one for each
//! half of an octet.
use crate::arith::{cong, lemma_cong_add, lemma_cong_refl, lemma_cong_trans};
use crate::element::{lemma_wrapped, Element};
use crate::isa::kernel::{
    clear_tile, lemma_cleared, lemma_tile_step, tile_at, tile_is, tile_sum, KernelWord,
};
use crate::sequence::{lemma_cell, lemma_cell_apart};
use vstd::prelude::*;

verus! {

/// Entries of a half-octet table.
pub const NIBBLE_SPACE: usize = 16;

/// Bits of a half octet.
pub const NIBBLE_BITS: usize = 4;

/// The number that two bytes stand for, the second with the sign.
pub open spec fn word_of(low: u8, high: u8) -> int {
    low + 256 * (if high < 128 {
        high as int
    } else {
        high - 256
    })
}

/// The high half of an octet, with the sign.
pub open spec fn signed_nibble(n: int) -> int {
    if n < 8 {
        n
    } else {
        n - 16
    }
}

/// The four tables of a factor: the bytes of its product with each low half, and
/// the bytes of its product with each high half at its place.
pub open spec fn tables_of(row: Seq<u8>, a: int) -> bool {
    forall|n: int|
        #![trigger row[n]]
        0 <= n < 16 ==> word_of(row[n], row[16 + n]) == a * n && word_of(row[32 + n], row[48 + n])
            == a * 16 * signed_nibble(n)
}

/// The two bytes of a number.
fn bytes_of(x: i16) -> (r: (u8, u8))
    ensures
        word_of(r.0, r.1) == x,
{
    let bits: i32 = if x < 0 {
        x as i32 + 0x1_0000
    } else {
        x as i32
    };
    ((bits % 256) as u8, (bits / 256) as u8)
}

/// The tables of a factor.
pub fn i8_nibble_products(a: i8) -> (r: [u8; 64])
    ensures
        tables_of(r@, a as int),
{
    let mut row: [u8; 64] = [0; 64];
    let mut n: usize = 0;
    while n < 16
        invariant
            0 <= n <= 16,
            forall|x: int|
                #![trigger row@[x]]
                0 <= x < n ==> word_of(row@[x], row@[16 + x]) == a * x && word_of(
                    row@[32 + x],
                    row@[48 + x],
                ) == a * 16 * signed_nibble(x),
        decreases 16 - n,
    {
        let signed: i16 = if n < 8 {
            n as i16
        } else {
            n as i16 - 16
        };
        let (ai, ni, si): (i16, i16, i16) = (a as i16, n as i16, signed);
        assert(-1920 <= ai * ni <= 1920 && -1024 <= ai * si <= 1024) by (nonlinear_arith)
            requires
                -128 <= ai <= 127,
                0 <= ni <= 15,
                -8 <= si <= 7,
        ;
        let low: i16 = ai * ni;
        let scaled: i16 = ai * si;
        let high: i16 = scaled * 16;
        assert(high == a * 16 * signed_nibble(n as int)) by (nonlinear_arith)
            requires
                high == ai * si * 16,
                ai == a,
                si == signed_nibble(n as int),
        ;
        let (low_low, low_high) = bytes_of(low);
        let (high_low, high_high) = bytes_of(high);
        let ghost before = row@;
        row[n] = low_low;
        row[16 + n] = low_high;
        row[32 + n] = high_low;
        row[48 + n] = high_high;
        proof {
            assert forall|x: int|
                #![trigger row@[x]]
                0 <= x < n + 1 implies word_of(row@[x], row@[16 + x]) == a * x && word_of(
                row@[32 + x],
                row@[48 + x],
            ) == a * 16 * signed_nibble(x) by {
                if x == n {
                    assert(low == a * x);
                } else {
                    assert(row@[x] == before[x]);
                    assert(row@[16 + x] == before[16 + x]);
                    assert(row@[32 + x] == before[32 + x]);
                    assert(row@[48 + x] == before[48 + x]);
                }
            }
        }
        n += 1;
    }
    row
}

/// Numbers rebuilt from their low and high bytes.
pub fn neon_rebuild_i16(low: &[u8; 16], high: &[u8; 16]) -> (r: [i16; 16])
    ensures
        forall|l: int| 0 <= l < 16 ==> #[trigger] r@[l] == word_of(low@[l], high@[l]),
{
    let mut words: [i16; 16] = [0; 16];
    let mut l: usize = 0;
    while l < 16
        invariant
            0 <= l <= 16,
            forall|x: int| 0 <= x < l ==> #[trigger] words@[x] == word_of(low@[x], high@[x]),
        decreases 16 - l,
    {
        let signed: i16 = if high[l] < 128 {
            high[l] as i16
        } else {
            high[l] as i16 - 256
        };
        words[l] = signed * 256 + low[l] as i16;
        l += 1;
    }
    words
}

/// Sixteen reads of one table of a row, at once.
fn read_table(row: &[u8; 64], from: usize, index: &[u8; 16]) -> (r: [u8; 16])
    requires
        from <= 48,
        forall|l: int| 0 <= l < 16 ==> #[trigger] index@[l] < 16,
    ensures
        forall|l: int| 0 <= l < 16 ==> #[trigger] r@[l] == row@[from + index@[l]],
{
    let mut out: [u8; 16] = [0; 16];
    let mut l: usize = 0;
    while l < 16
        invariant
            from <= 48,
            forall|x: int| 0 <= x < 16 ==> #[trigger] index@[x] < 16,
            0 <= l <= 16,
            forall|x: int| 0 <= x < l ==> #[trigger] out@[x] == row@[from + index@[x]],
        decreases 16 - l,
    {
        out[l] = row[from + index[l] as usize];
        l += 1;
    }
    out
}

/// Sixteen products with one factor, by four table reads.
pub fn neon_nibble_products(a: i8, low_index: &[u8; 16], high_index: &[u8; 16]) -> (r: [i16; 16])
    requires
        forall|l: int| 0 <= l < 16 ==> #[trigger] low_index@[l] < 16,
        forall|l: int| 0 <= l < 16 ==> #[trigger] high_index@[l] < 16,
    ensures
        forall|l: int|
            0 <= l < 16 ==> #[trigger] r@[l] == a * (low_index@[l] + 16 * signed_nibble(
                high_index@[l] as int,
            )),
{
    let row: [u8; 64] = i8_nibble_products(a);
    let low: [i16; 16] = neon_rebuild_i16(
        &read_table(&row, 0, low_index),
        &read_table(&row, 16, low_index),
    );
    let high: [i16; 16] = neon_rebuild_i16(
        &read_table(&row, 32, high_index),
        &read_table(&row, 48, high_index),
    );
    let mut out: [i16; 16] = [0; 16];
    let mut l: usize = 0;
    proof {
        assert forall|x: int| 0 <= x < 16 implies #[trigger] low@[x] == a * low_index@[x] by {
            let _ = row@[low_index@[x] as int];
        }
        assert forall|x: int| 0 <= x < 16 implies #[trigger] high@[x] == a * 16 * signed_nibble(
            high_index@[x] as int,
        ) by {
            let _ = row@[high_index@[x] as int];
        }
    }
    while l < 16
        invariant
            forall|x: int| 0 <= x < 16 ==> #[trigger] low_index@[x] < 16,
            forall|x: int| 0 <= x < 16 ==> #[trigger] high_index@[x] < 16,
            forall|x: int| 0 <= x < 16 ==> #[trigger] low@[x] == a * low_index@[x],
            forall|x: int|
                0 <= x < 16 ==> #[trigger] high@[x] == a * 16 * signed_nibble(
                    high_index@[x] as int,
                ),
            0 <= l <= 16,
            forall|x: int|
                0 <= x < l ==> #[trigger] out@[x] == a * (low_index@[x] + 16 * signed_nibble(
                    high_index@[x] as int,
                )),
        decreases 16 - l,
    {
        let ghost n = low_index@[l as int] as int;
        let ghost h = signed_nibble(high_index@[l as int] as int);
        assert(a * n + a * 16 * h == a * (n + 16 * h) && -16256 <= a * (n + 16 * h) <= 16384)
            by (nonlinear_arith)
            requires
                0 <= n <= 15,
                -8 <= h <= 7,
                -128 <= a <= 127,
        ;
        out[l] = low[l] + high[l];
        l += 1;
    }
    out
}

/// Half of an octet, rounded down, by the rounded mean with the largest octet.
fn halved(x: u8) -> (r: u8)
    ensures
        r == x / 2,
{
    let mean: u16 = (x as u16 + 255 + 1) / 2;
    (mean - 128) as u8
}

/// The halves of sixteen octets: the high one by halving, the low one as what
/// is left when the high one is doubled back.
pub fn neon_nibble_address_vectors_from_codes(codes: &[u8; 16]) -> (r: ([u8; 16], [u8; 16]))
    ensures
        forall|l: int| 0 <= l < 16 ==> #[trigger] r.0@[l] == codes@[l] % 16,
        forall|l: int| 0 <= l < 16 ==> #[trigger] r.1@[l] == codes@[l] / 16,
{
    let mut low: [u8; 16] = [0; 16];
    let mut high: [u8; 16] = [0; 16];
    let mut l: usize = 0;
    while l < 16
        invariant
            0 <= l <= 16,
            forall|x: int| 0 <= x < l ==> #[trigger] low@[x] == codes@[x] % 16,
            forall|x: int| 0 <= x < l ==> #[trigger] high@[x] == codes@[x] / 16,
        decreases 16 - l,
    {
        let digit: u8 = halved(halved(halved(halved(codes[l]))));
        let twice: u8 = digit + digit;
        let four: u8 = twice + twice;
        let eight: u8 = four + four;
        let sixteen: u8 = eight + eight;
        high[l] = digit;
        low[l] = codes[l] - sixteen;
        l += 1;
    }
    (low, high)
}

/// The halves of `lanes` elements, `stride` apart.
pub fn neon_nibble_address_vectors(codes: &[i8], from: usize, lanes: usize, stride: usize) -> (r: (
    [u8; 16],
    [u8; 16],
))
    requires
        0 < lanes <= 16,
        from + (lanes - 1) * stride < codes@.len(),
    ensures
        forall|l: int| 0 <= l < 16 ==> #[trigger] r.0@[l] < 16,
        forall|l: int| 0 <= l < 16 ==> #[trigger] r.1@[l] < 16,
        forall|l: int|
            #![trigger r.0@[l]]
            #![trigger r.1@[l]]
            0 <= l < lanes ==> r.0@[l] + 16 * signed_nibble(r.1@[l] as int) == codes@[from + l
                * stride],
{
    let mut octets: [u8; 16] = [0; 16];
    let mut l: usize = 0;
    proof {
        assert(codes.len() == codes@.len());
    }
    while l < lanes
        invariant
            0 < lanes <= 16,
            from + (lanes - 1) * stride < codes@.len() <= usize::MAX,
            0 <= l <= lanes,
            forall|x: int|
                0 <= x < l ==> #[trigger] octets@[x] == octet(codes@[from + x * stride]),
        decreases lanes - l,
    {
        proof {
            let (li, ni, si) = (l as int, lanes as int, stride as int);
            assert(0 <= li * si <= (ni - 1) * si) by (nonlinear_arith)
                requires
                    0 <= li < ni,
                    0 <= si,
            ;
        }
        let code: i8 = codes[from + l * stride];
        octets[l] = if code < 0 {
            (code as i16 + 256) as u8
        } else {
            code as u8
        };
        l += 1;
    }
    let r = neon_nibble_address_vectors_from_codes(&octets);
    proof {
        assert forall|x: int|
            #![trigger r.0@[x]]
            #![trigger r.1@[x]]
            0 <= x < lanes implies r.0@[x] + 16 * signed_nibble(r.1@[x] as int) == codes@[from + x
            * stride] by {
            let b = octets@[x] as int;
            assert(r.0@[x] == b % 16 && r.1@[x] == b / 16);
            assert(b == octet(codes@[from + x * stride]));
        }
        assert forall|x: int| 0 <= x < 16 implies #[trigger] r.1@[x] < 16 by {
            let b = octets@[x];
        }
    }
    r
}

/// The octet of an element.
pub open spec fn octet(x: i8) -> int {
    if x < 0 {
        x + 256
    } else {
        x as int
    }
}

/// The product of two elements, by the tables of the first.
pub fn i8_product(a: i8, b: i8) -> (r: i32)
    ensures
        r == a * b,
{
    let codes: [i8; 1] = [b];
    let (low, high) = neon_nibble_address_vectors(&codes, 0, 1, 0);
    let products: [i16; 16] = neon_nibble_products(a, &low, &high);
    assert(codes@[0int + 0 * 0int] == b);
    products[0] as i32
}

/// Adds `n` products to `n` lanes from `at` on.
fn add_products(acc: &mut [i32], at: usize, n: usize, products: &[i16; 16])
    requires
        n <= 16,
        at + n <= old(acc)@.len(),
    ensures
        final(acc)@.len() == old(acc)@.len(),
        forall|x: int|
            0 <= x < old(acc)@.len() && !(at <= x < at + n)
                ==> #[trigger] final(acc)@[x] == old(acc)@[x],
        forall|j: int|
            #![trigger final(acc)@[at + j]]
            0 <= j < n ==> cong(
                final(acc)@[at + j] as int,
                old(acc)@[at + j] + products@[j],
                0x1_0000_0000,
            ),
{
    proof {
        assert(acc.len() == acc@.len());
    }
    let mut j: usize = 0;
    while j < n
        invariant
            n <= 16,
            acc@.len() == old(acc)@.len(),
            at + n <= acc@.len() <= usize::MAX,
            0 <= j <= n,
            forall|x: int|
                0 <= x < old(acc)@.len() && !(at <= x < at + j)
                    ==> #[trigger] acc@[x] == old(acc)@[x],
            forall|y: int|
                #![trigger acc@[at + y]]
                0 <= y < j ==> cong(
                    acc@[at + y] as int,
                    old(acc)@[at + y] + products@[y],
                    0x1_0000_0000,
                ),
        decreases n - j,
    {
        let (was, product): (i32, i32) = (acc[at + j], products[j] as i32);
        let now: i32 = was.wrapping_add(product);
        proof {
            lemma_wrapped(was + product, now as int, 0x1_0000_0000);
        }
        acc[at + j] = now;
        j += 1;
    }
}

/// One step of every row, by table reads.
fn lookup_rows<const MR: usize, const NR: usize>(
    p: usize,
    kc: usize,
    pa: &[i8],
    pb: &[i8],
    acc: &mut [i32],
)
    requires
        0 < NR <= 16,
        p < kc,
        MR * kc <= pa@.len(),
        NR * kc <= pb@.len(),
        MR * NR == old(acc)@.len(),
        tile_is(old(acc)@, pa@, pb@, MR as int, NR as int, p as int),
    ensures
        final(acc)@.len() == old(acc)@.len(),
        tile_is(final(acc)@, pa@, pb@, MR as int, NR as int, p + 1),
{
    proof {
        assert(acc.len() == acc@.len());
        assert(pa.len() == pa@.len());
        assert(pb.len() == pb@.len());
        let (pi, ki, mi, ni) = (p as int, kc as int, MR as int, NR as int);
        assert(0 <= pi * ni && pi * ni + ni <= ni * ki && 0 <= pi * mi && pi * mi + mi <= mi * ki)
            by (nonlinear_arith)
            requires
                0 <= pi < ki,
                0 <= ni,
                0 <= mi,
        ;
    }
    let (low, high) = neon_nibble_address_vectors(pb, p * NR, NR, 1);
    let mut i: usize = 0;
    while i < MR
        invariant
            0 < NR <= 16,
            MR * NR == acc@.len() <= usize::MAX,
            acc@.len() == old(acc)@.len(),
            0 <= p * MR,
            p * MR + MR <= pa@.len() <= usize::MAX,
            0 <= p * NR,
            p * NR + NR <= pb@.len() <= usize::MAX,
            0 <= i <= MR,
            forall|l: int| 0 <= l < 16 ==> #[trigger] low@[l] < 16,
            forall|l: int| 0 <= l < 16 ==> #[trigger] high@[l] < 16,
            forall|l: int|
                #![trigger low@[l]]
                0 <= l < NR ==> low@[l] + 16 * signed_nibble(high@[l] as int) == pb@[p * NR + l
                    * 1],
            tile_at(acc@, pa@, pb@, MR as int, NR as int, i as int, p as int, p + 1),
        decreases MR - i,
    {
        let ghost before = acc@;
        proof {
            lemma_cell(MR as int, NR as int, i as int, 0);
        }
        let a: i8 = pa[p * MR + i];
        let products: [i16; 16] = neon_nibble_products(a, &low, &high);
        add_products(acc, i * NR, NR, &products);
        proof {
            let (mi, ni) = (MR as int, NR as int);
            assert forall|x: int, y: int|
                #![trigger acc@[x * ni + y]]
                0 <= x < mi && 0 <= y < ni implies cong(
                acc@[x * ni + y].word(),
                tile_sum(
                    pa@,
                    pb@,
                    mi,
                    ni,
                    x,
                    y,
                    if x < i + 1 {
                        p + 1
                    } else {
                        p as int
                    },
                ),
                <i32 as KernelWord>::extent(),
            ) by {
                lemma_cell(mi, ni, x, y);
                let m = 0x1_0000_0000int;
                let was = before[x * ni + y] as int;
                if x == i {
                    lemma_tile_step(pa@, pb@, mi, ni, x, y, p as int);
                    let _ = low@[y];
                    let product = pa@[p * mi + x].val() * pb@[p * ni + y].val();
                    assert(products@[y] == product);
                    let sofar = tile_sum(pa@, pb@, mi, ni, x, y, p as int);
                    lemma_cong_refl(product, m);
                    lemma_cong_add(was, sofar, product, product, m);
                    lemma_cong_trans(acc@[x * ni + y] as int, was + product, sofar + product, m);
                } else {
                    if i * ni <= x * ni + y < i * ni + ni {
                        lemma_cell_apart(ni, x, y, i as int, x * ni + y - i * ni);
                    }
                    assert(acc@[x * ni + y] == before[x * ni + y]);
                }
            }
        }
        i += 1;
    }
}

/// A tile whose products are read out of tables and added.
pub fn neon_lookup_i8<const MR: usize, const NR: usize>(
    kc: usize,
    pa: &[i8],
    pb: &[i8],
    acc: &mut [i32],
)
    requires
        NR == 8 || NR == 12,
        MR * kc <= pa@.len(),
        NR * kc <= pb@.len(),
        MR * NR == old(acc)@.len(),
    ensures
        final(acc)@.len() == old(acc)@.len(),
        tile_is(final(acc)@, pa@, pb@, MR as int, NR as int, kc as int),
{
    clear_tile(acc);
    proof {
        lemma_cleared(acc@, pa@, pb@, MR as int, NR as int);
    }
    let mut p: usize = 0;
    while p < kc
        invariant
            NR == 8 || NR == 12,
            MR * kc <= pa@.len(),
            NR * kc <= pb@.len(),
            MR * NR == acc@.len(),
            acc@.len() == old(acc)@.len(),
            0 <= p <= kc,
            tile_is(acc@, pa@, pb@, MR as int, NR as int, p as int),
        decreases kc - p,
    {
        lookup_rows::<MR, NR>(p, kc, pa, pb, acc);
        p += 1;
    }
}

} // verus!
