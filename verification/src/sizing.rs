//! How large a table is, and when one is worth building.
use crate::arith::{ceil_pow2, lemma_ceil_pow2, next_power_of_two, sat, sat_mul};
use crate::blocking;
use vstd::prelude::*;

verus! {

/// The row counts a tile may have, tallest first.
pub const ROW_TILES: [usize; 5] = [16, 8, 4, 2, 1];

/// The tallest row tile.
pub const TALLEST_TILE: usize = 16;

/// Lanes that one group of columns carries together.
pub const COLUMN_LANES: usize = 16;

/// The extents of a product: `m` by `k` times `k` by `n`.
#[derive(Clone, Copy, PartialEq, Eq, Debug, Structural)]
pub struct Shape {
    pub m: usize,
    pub k: usize,
    pub n: usize,
}

/// Codes of one slab: the least power of two that holds the code space, or
/// zero where there is no code or no such power fits.
pub open spec fn slab_of(code_space: int) -> int {
    if code_space <= 0 || ceil_pow2(code_space as nat) > usize::MAX {
        0
    } else {
        ceil_pow2(code_space as nat) as int
    }
}

/// Codes of one slab, rounded up to a power of two.
pub fn slab_codes(code_space: usize) -> (r: usize)
    ensures
        r == slab_of(code_space as int),
{
    if code_space == 0 {
        return 0;
    }
    match next_power_of_two(code_space) {
        Some(codes) => codes,
        None => 0,
    }
}

/// Words of a stack of `depth` slabs of `rows` lanes per code.
pub open spec fn words_of(code_space: int, rows: int, depth: int) -> usize {
    if code_space != 0 && rows != 0 && depth != 0 && slab_of(code_space) == 0 {
        usize::MAX
    } else {
        sat(slab_of(code_space) * rows * depth)
    }
}

/// Words of a stack of slabs; the largest size where it cannot be represented.
pub fn table_words(code_space: usize, rows: usize, depth: usize) -> (r: usize)
    ensures
        r == words_of(code_space as int, rows as int, depth as int),
{
    let codes: usize = slab_codes(code_space);
    if code_space != 0 && rows != 0 && depth != 0 && codes == 0 {
        return usize::MAX;
    }
    let slab: usize = sat_mul(codes, rows);
    proof {
        assert(codes * rows >= 0) by (nonlinear_arith);
        if codes * rows > usize::MAX {
            assert(depth == 0 ==> codes * rows * depth == 0 && slab * depth == 0)
                by (nonlinear_arith);
            assert(depth >= 1 ==> codes * rows * depth > usize::MAX) by (nonlinear_arith)
                requires
                    codes * rows > usize::MAX,
            ;
            assert(depth >= 1 ==> slab * depth >= slab) by (nonlinear_arith);
        }
    }
    sat_mul(slab, depth)
}

/// A slab twice over fits the cache.
pub open spec fn fits(code_space: int, rows: int, l1_bytes: int, lane_bytes: int) -> bool {
    &&& slab_of(code_space) > 0
    &&& rows > 0
    &&& lane_bytes > 0
    &&& slab_of(code_space) * rows * lane_bytes * 2 <= l1_bytes
}

/// Whether a slab twice over fits the cache.
pub fn tabulation_fits(
    code_space: usize,
    rows: usize,
    l1_bytes: usize,
    lane_bytes: usize,
) -> (r: bool)
    ensures
        r == fits(code_space as int, rows as int, l1_bytes as int, lane_bytes as int),
{
    let codes: usize = slab_codes(code_space);
    if codes == 0 || rows == 0 || lane_bytes == 0 {
        return false;
    }
    let ghost whole = codes * rows * lane_bytes * 2;
    proof {
        assert(codes * rows >= 1) by (nonlinear_arith)
            requires
                codes >= 1,
                rows >= 1,
        ;
        assert(codes * rows * lane_bytes >= codes * rows) by (nonlinear_arith)
            requires
                codes * rows >= 1,
                lane_bytes >= 1,
        ;
    }
    match codes.checked_mul(rows) {
        None => false,
        Some(words) => match words.checked_mul(lane_bytes) {
            None => false,
            Some(bytes) => match bytes.checked_mul(2) {
                None => false,
                Some(doubled) => doubled <= l1_bytes,
            },
        },
    }
}

/// Steps of the two ways to spend one product of a row tile.
#[derive(Clone, Copy, PartialEq, Eq, Debug, Structural)]
pub struct Steps {
    /// Products that one table addition stands for.
    pub table: usize,
    /// Products that one dense step issues over `dense_rows` rows.
    pub dense: usize,
    /// Rows over which the dense step is full.
    pub dense_rows: usize,
}

/// A product of three extents, exact, in three limbs, least first.
#[derive(Clone, Copy, PartialEq, Eq, Debug)]
pub struct CostProduct(pub [u64; 3]);

/// One more than the largest limb.
pub open spec fn limb_radix() -> int {
    0x1_0000_0000_0000_0000
}

impl CostProduct {
    /// The number that the limbs spell.
    pub open spec fn value(self) -> int {
        self.0[0] + self.0[1] * limb_radix() + self.0[2] * limb_radix() * limb_radix()
    }

    /// The exact product of three extents.
    pub fn of(a: usize, b: usize, c: usize) -> (r: Self)
        ensures
            r.value() == a * b * c,
    {
        let radix: u128 = 0x1_0000_0000_0000_0000;
        assert(0 <= (a as u128) * (b as u128) <= 0xffff_ffff_ffff_fffe_0000_0000_0000_0001)
            by (nonlinear_arith)
            requires
                a <= 0xffff_ffff_ffff_ffff,
                b <= 0xffff_ffff_ffff_ffff,
        ;
        let ab: u128 = (a as u128) * (b as u128);
        let low: u128 = ab % radix;
        let high: u128 = ab / radix;
        assert(high <= 0xffff_ffff_ffff_fffe);
        assert(0 <= low * (c as u128) <= 0xffff_ffff_ffff_fffe_0000_0000_0000_0001)
            by (nonlinear_arith)
            requires
                low <= 0xffff_ffff_ffff_ffff,
                c <= 0xffff_ffff_ffff_ffff,
        ;
        let low_c: u128 = low * (c as u128);
        assert(0 <= high * (c as u128) <= 0xffff_ffff_ffff_fffd_0000_0000_0000_0002)
            by (nonlinear_arith)
            requires
                high <= 0xffff_ffff_ffff_fffe,
                c <= 0xffff_ffff_ffff_ffff,
        ;
        let carry: u128 = low_c / radix;
        let high_c: u128 = high * (c as u128) + carry;
        let l0: u128 = low_c % radix;
        let l1: u128 = high_c % radix;
        let l2: u128 = high_c / radix;
        proof {
            assert(ab == low + high * radix);
            assert(low_c == l0 + carry * radix);
            assert(high_c == l1 + l2 * radix);
            let (ci, ri) = (c as int, limb_radix());
            assert((low + high * ri) * ci == low * ci + (high * ci) * ri) by (nonlinear_arith);
            assert((high * ci + carry) * ri == (high * ci) * ri + carry * ri) by (nonlinear_arith);
            assert((l1 + l2 * ri) * ri == l1 * ri + l2 * ri * ri) by (nonlinear_arith);
        }
        CostProduct([l0 as u64, l1 as u64, l2 as u64])
    }

    /// Whether this product is the larger.
    pub fn greater_than(self, other: Self) -> (r: bool)
        ensures
            r == (self.value() > other.value()),
    {
        let ghost (x0, x1, x2) = (self.0[0] as int, self.0[1] as int, self.0[2] as int);
        let ghost (y0, y1, y2) = (other.0[0] as int, other.0[1] as int, other.0[2] as int);
        proof {
            let radix = limb_radix();
            assert(x2 > y2 ==> x0 + x1 * radix + x2 * radix * radix > y0 + y1 * radix + y2 * radix
                * radix) by (nonlinear_arith)
                requires
                    radix == 0x1_0000_0000_0000_0000,
                    0 <= x0 < radix,
                    0 <= x1 < radix,
                    0 <= y0 < radix,
                    0 <= y1 < radix,
            ;
            assert(x2 < y2 ==> x0 + x1 * radix + x2 * radix * radix < y0 + y1 * radix + y2 * radix
                * radix) by (nonlinear_arith)
                requires
                    radix == 0x1_0000_0000_0000_0000,
                    0 <= x0 < radix,
                    0 <= x1 < radix,
                    0 <= y0 < radix,
                    0 <= y1 < radix,
            ;
        }
        if self.0[2] != other.0[2] {
            self.0[2] > other.0[2]
        } else if self.0[1] != other.0[1] {
            self.0[1] > other.0[1]
        } else {
            self.0[0] > other.0[0]
        }
    }
}

/// Products per dense step when only `rows` of its rows are present.
pub open spec fn effective_step(rows: int, steps: Steps) -> int {
    if steps.dense_rows == 0 {
        0
    } else {
        steps.dense * (if rows < steps.dense_rows { rows } else { steps.dense_rows as int })
            / steps.dense_rows as int
    }
}

/// Products per dense step when only `rows` of its rows are present.
pub fn effective_dense_step(rows: usize, steps: Steps) -> (r: usize)
    ensures
        r == effective_step(rows as int, steps),
{
    if steps.dense_rows == 0 {
        return 0;
    }
    let present: usize = if rows < steps.dense_rows {
        rows
    } else {
        steps.dense_rows
    };
    let (dense, whole): (usize, usize) = (steps.dense, steps.dense_rows);
    assert(0 <= (dense as u128) * (present as u128) <= 0xffff_ffff_ffff_fffe_0000_0000_0000_0001)
        by (nonlinear_arith)
        requires
            dense <= 0xffff_ffff_ffff_ffff,
            present <= 0xffff_ffff_ffff_ffff,
    ;
    let issued: u128 = (dense as u128) * (present as u128);
    assert(dense * present <= dense * whole) by (nonlinear_arith)
        requires
            present <= whole,
            dense >= 0,
    ;
    proof {
        vstd::arithmetic::div_mod::lemma_div_is_ordered(
            dense * present,
            dense * whole,
            whole as int,
        );
        vstd::arithmetic::div_mod::lemma_div_by_multiple(dense as int, whole as int);
        vstd::arithmetic::div_mod::lemma_div_pos_is_pos(dense * present, whole as int);
    }
    (issued / (whole as u128)) as usize
}

/// Whether tabulating repays its build on the declared steps: the products it
/// saves over the columns exceed those that filling the book costs, and the
/// slab fits.
pub open spec fn pays(
    code_space: int,
    block: int,
    cols: int,
    rows: int,
    steps: Steps,
    l1_bytes: int,
    lane_bytes: int,
) -> bool {
    let effective = effective_step(rows, steps);
    &&& block > 1
    &&& 0 < effective < steps.table
    &&& cols * (steps.table - effective) > code_space * effective * block
    &&& fits(code_space, rows, l1_bytes, lane_bytes)
}

/// Whether tabulating repays its build.
pub fn tabulation_pays(
    code_space: usize,
    block: usize,
    cols: usize,
    rows: usize,
    steps: Steps,
    l1_bytes: usize,
    lane_bytes: usize,
) -> (r: bool)
    ensures
        r == pays(
            code_space as int,
            block as int,
            cols as int,
            rows as int,
            steps,
            l1_bytes as int,
            lane_bytes as int,
        ),
{
    if block <= 1 || steps.table == 0 {
        return false;
    }
    let effective: usize = effective_dense_step(rows, steps);
    effective > 0 && steps.table > effective && CostProduct::of(cols, steps.table - effective, 1)
        .greater_than(CostProduct::of(code_space, effective, block)) && tabulation_fits(
        code_space,
        rows,
        l1_bytes,
        lane_bytes,
    )
}

/// Rows whose slab twice over fits the cache, up to one cache block of rows.
pub open spec fn rows_that_fit(code_space: int, l1_bytes: int, lane_bytes: int) -> int {
    let codes = slab_of(code_space);
    if codes == 0 || lane_bytes == 0 {
        0
    } else {
        let room = l1_bytes / (codes * lane_bytes * 2);
        if room < blocking::MC {
            room
        } else {
            blocking::MC as int
        }
    }
}

/// Rows whose slab twice over fits the cache, up to one cache block of rows.
pub fn tabulation_rows(code_space: usize, l1_bytes: usize, lane_bytes: usize) -> (r: usize)
    ensures
        r == rows_that_fit(code_space as int, l1_bytes as int, lane_bytes as int),
{
    let codes: usize = slab_codes(code_space);
    if codes == 0 || lane_bytes == 0 {
        return 0;
    }
    assert(codes * lane_bytes >= 1) by (nonlinear_arith)
        requires
            codes >= 1,
            lane_bytes >= 1,
    ;
    match codes.checked_mul(lane_bytes) {
        None => {
            proof {
                vstd::arithmetic::div_mod::lemma_small_mod(
                    l1_bytes as nat,
                    (codes * lane_bytes * 2) as nat,
                );
                vstd::arithmetic::div_mod::lemma_basic_div(
                    l1_bytes as int,
                    codes * lane_bytes * 2,
                );
            }
            0
        },
        Some(words) => match words.checked_mul(2) {
            None => {
                proof {
                    vstd::arithmetic::div_mod::lemma_basic_div(
                        l1_bytes as int,
                        codes * lane_bytes * 2,
                    );
                }
                0
            },
            Some(bytes) => {
                let room: usize = l1_bytes / bytes;
                if room < blocking::MC {
                    room
                } else {
                    blocking::MC
                }
            },
        },
    }
}

/// Slabs of one stack: as many as the cache takes twice over, at least one,
/// and no more than one lane run of the carrier covers.
pub open spec fn depth_that_fits(
    code_space: int,
    rows: int,
    block: int,
    lane_capacity: Option<usize>,
    l2_bytes: int,
    lane_bytes: int,
) -> int {
    let charge = slab_of(code_space) * rows * lane_bytes * 2;
    if slab_of(code_space) == 0 || rows == 0 || lane_bytes == 0 || block == 0 || charge
        > usize::MAX {
        0
    } else {
        let cached = if l2_bytes / charge == 0 {
            1
        } else {
            l2_bytes / charge
        };
        match lane_capacity {
            Some(cap) if cap as int / block < cached => cap as int / block,
            _ => cached,
        }
    }
}

/// Slabs of one stack.
pub fn tabulation_depth(
    code_space: usize,
    rows: usize,
    block: usize,
    lane_capacity: Option<usize>,
    l2_bytes: usize,
    lane_bytes: usize,
) -> (r: usize)
    ensures
        r == depth_that_fits(
            code_space as int,
            rows as int,
            block as int,
            lane_capacity,
            l2_bytes as int,
            lane_bytes as int,
        ),
{
    let codes: usize = slab_codes(code_space);
    if codes == 0 || rows == 0 || lane_bytes == 0 || block == 0 {
        return 0;
    }
    proof {
        assert(codes * rows >= 1) by (nonlinear_arith)
            requires
                codes >= 1,
                rows >= 1,
        ;
        assert(codes * rows * lane_bytes >= codes * rows) by (nonlinear_arith)
            requires
                codes * rows >= 1,
                lane_bytes >= 1,
        ;
    }
    let words: usize = match codes.checked_mul(rows) {
        None => {
            return 0;
        },
        Some(words) => words,
    };
    let per_slot: usize = match words.checked_mul(lane_bytes) {
        None => {
            return 0;
        },
        Some(per_slot) => per_slot,
    };
    let cache_charge: usize = match per_slot.checked_mul(2) {
        None => {
            return 0;
        },
        Some(cache_charge) => cache_charge,
    };
    let mut depth: usize = l2_bytes / cache_charge;
    if depth == 0 {
        depth = 1;
    }
    match lane_capacity {
        Some(cap) => {
            let by_lane: usize = cap / block;
            if by_lane < depth {
                by_lane
            } else {
                depth
            }
        },
        None => depth,
    }
}

/// Cells of the panel that holds the decoded book and one tile of activations.
pub fn suggested_tabulation_panel(code_space: usize, block: usize) -> (r: usize)
    ensures
        r == sat((code_space + TALLEST_TILE) * block),
{
    let cells: usize = code_space.saturating_add(ROW_TILES[0]);
    proof {
        if code_space + TALLEST_TILE > usize::MAX {
            assert(block >= 1 ==> (code_space + TALLEST_TILE) * block > usize::MAX)
                by (nonlinear_arith)
                requires
                    code_space + TALLEST_TILE > usize::MAX,
            ;
            assert(block >= 1 ==> cells * block >= cells) by (nonlinear_arith);
            assert(block == 0 ==> (code_space + TALLEST_TILE) * block == 0 && cells * block == 0)
                by (nonlinear_arith);
        }
    }
    sat_mul(cells, block)
}

/// Columns carried together by a tile of `rows` rows.
pub open spec fn group_of(rows: int) -> int {
    if rows <= 0 {
        0
    } else if rows >= COLUMN_LANES {
        1
    } else {
        COLUMN_LANES as int / rows
    }
}

/// Columns carried together by a tile of `rows` rows.
pub fn column_group(rows: usize) -> (r: usize)
    ensures
        r == group_of(rows as int),
{
    if rows == 0 {
        0
    } else if rows >= COLUMN_LANES {
        1
    } else {
        COLUMN_LANES / rows
    }
}

/// Words of index scratch that collapsing `n` columns asks for.
pub fn suggested_tabulation_index(shape: Shape) -> (r: usize)
    ensures
        ceil_pow2(2 * shape.n as nat) <= usize::MAX ==> r == sat(
            shape.n + 2 * ceil_pow2(2 * shape.n as nat),
        ),
        ceil_pow2(2 * shape.n as nat) > usize::MAX ==> r == usize::MAX,
{
    let doubled_n: usize = sat_mul(shape.n, 2);
    proof {
        lemma_ceil_pow2(2 * shape.n as nat);
        lemma_ceil_pow2(doubled_n as nat);
        if 2 * shape.n > usize::MAX {
            lemma_no_pow2_at_the_top();
        }
    }
    let dictionary: usize = match next_power_of_two(doubled_n) {
        Some(table) => table,
        None => usize::MAX,
    };
    let doubled: usize = sat_mul(dictionary, 2);
    shape.n.saturating_add(doubled)
}

/// The largest `usize` is odd and larger than one, so no power of two.
proof fn lemma_no_pow2_at_the_top()
    ensures
        ceil_pow2(usize::MAX as nat) > usize::MAX,
{
    let top = usize::MAX as nat;
    lemma_ceil_pow2(top);
    let c = ceil_pow2(top);
    if c == top {
        let e = choose|e: nat| c as int == #[trigger] vstd::arithmetic::power2::pow2(e);
        if e > 0 {
            vstd::arithmetic::power2::lemma_pow2_unfold(e);
        } else {
            vstd::arithmetic::power2::lemma2_to64();
        }
        assert(usize::MAX % 2 == 1) by {
            assert(usize::MAX == 0xffff_ffff || usize::MAX == 0xffff_ffff_ffff_ffff);
        }
    }
}

} // verus!
