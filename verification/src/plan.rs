//! How much of a product one pass covers: rows, columns and slabs.
use crate::arith::{ceil_div, div_ceil, sat, sat_mul};
use crate::blocking;
use crate::sizing::{
    depth_that_fits, rows_that_fit, slab_codes, slab_of, table_words, tabulation_depth,
    tabulation_rows, words_of, Shape, ROW_TILES,
};
use vstd::prelude::*;

verus! {

/// The extents of one pass: rows of a tile, columns carried, slabs of a stack.
#[derive(Clone, Copy, PartialEq, Eq, Debug, Structural)]
pub struct Plan {
    pub rows: usize,
    pub cols: usize,
    pub depth: usize,
}

/// A row count that a tile may have.
pub open spec fn is_rung(r: int) -> bool {
    r == 16 || r == 8 || r == 4 || r == 2 || r == 1
}

pub open spec fn least(a: int, b: int) -> int {
    if a < b {
        a
    } else {
        b
    }
}

pub open spec fn most(a: int, b: int) -> int {
    if a > b {
        a
    } else {
        b
    }
}

/// The lesser of two extents.
pub fn min(a: usize, b: usize) -> (r: usize)
    ensures
        r == least(a as int, b as int),
{
    if a < b {
        a
    } else {
        b
    }
}

/// The greater of two extents.
pub fn max(a: usize, b: usize) -> (r: usize)
    ensures
        r == most(a as int, b as int),
{
    if a > b {
        a
    } else {
        b
    }
}

/// The carrier is too narrow for one block.
pub open spec fn too_narrow(lane_capacity: Option<usize>, block: int) -> bool {
    lane_capacity matches Some(capacity) && capacity < block
}

/// A row count whose slab fits the cache and the lanes on offer, and whose
/// column fits the accumulators on offer.
pub open spec fn rung_fits(
    r: int,
    code_space: int,
    m: int,
    lane_bytes: int,
    exact_offer: int,
    lane_offer: int,
) -> bool {
    &&& is_rung(r)
    &&& r <= rows_that_fit(code_space, blocking::L1_BYTES as int, lane_bytes)
    &&& r <= m
    &&& r <= exact_offer
    &&& slab_of(code_space) * r < lane_offer
}

/// Slabs of a stack: as the cache, the lanes left over and the reduction
/// allow, and at least one.
pub open spec fn planned_depth(by_cache: int, by_offer: int, blocks: int) -> int {
    most(least(least(by_cache, by_offer), most(blocks, 1)), 1)
}

/// Lanes left for the stack beside one column of lanes per cell.
pub open spec fn left_for_stack(lane_offer: int, rows: int, cols: int) -> int {
    most(lane_offer - rows * cols, 0)
}

/// A charge against an offer of accumulators that lanes are read out of:
/// `lanes_per_exact` lanes to the accumulator.
pub open spec fn exact_charge(
    code_space: int,
    rows: int,
    cols: int,
    depth: int,
    lanes_per_exact: int,
) -> int {
    rows * cols + ceil_div(
        rows * cols + words_of(code_space, rows, depth),
        lanes_per_exact,
    )
}

/// The charge is within the offer, and its lanes can be counted.
pub open spec fn charge_fits(
    code_space: int,
    rows: int,
    cols: int,
    depth: int,
    lanes_per_exact: int,
    exact_offer: int,
) -> bool {
    &&& rows * cols + words_of(code_space, rows, depth) <= usize::MAX
    &&& exact_charge(code_space, rows, cols, depth, lanes_per_exact) <= exact_offer
}

/// A row count whose slab fits the cache and whose least charge fits the offer.
pub open spec fn shared_rung_fits(
    r: int,
    code_space: int,
    m: int,
    lane_bytes: int,
    exact_offer: int,
    lanes_per_exact: int,
) -> bool {
    &&& is_rung(r)
    &&& r <= rows_that_fit(code_space, blocking::L1_BYTES as int, lane_bytes)
    &&& r <= m
    &&& charge_fits(code_space, r, 1, 1, lanes_per_exact, exact_offer)
}

/// The extents for which no plan is looked for.
pub open spec fn unplannable(
    code_space: int,
    shape: Shape,
    block: int,
    lane_capacity: Option<usize>,
) -> bool {
    ||| slab_of(code_space) == 0
    ||| block == 0
    ||| shape.m == 0
    ||| shape.n == 0
    ||| too_narrow(lane_capacity, block)
}

/// The pass that an offer of accumulators and an offer of lanes get: the tallest
/// tile that fits both, the widest block of columns that the accumulators take,
/// and the slabs that the lanes left over take.
pub open spec fn is_selected(
    r: Option<Plan>,
    code_space: int,
    shape: Shape,
    lane_bytes: int,
    exact_offer: int,
    lane_offer: int,
    block: int,
    lane_capacity: Option<usize>,
) -> bool {
    let slab = slab_of(code_space);
    match r {
        Some(plan) => {
            let (rows, cols) = (plan.rows as int, plan.cols as int);
            &&& !unplannable(code_space, shape, block, lane_capacity)
            &&& rung_fits(rows, code_space, shape.m as int, lane_bytes, exact_offer, lane_offer)
            &&& forall|x: int|
                rows < x ==> !#[trigger] rung_fits(
                    x,
                    code_space,
                    shape.m as int,
                    lane_bytes,
                    exact_offer,
                    lane_offer,
                )
            &&& cols == least(shape.n as int, exact_offer / rows)
            &&& plan.depth == planned_depth(
                depth_that_fits(
                    code_space,
                    rows,
                    block,
                    lane_capacity,
                    blocking::L2_BYTES as int,
                    lane_bytes,
                ),
                left_for_stack(lane_offer, rows, cols) / (slab * rows),
                shape.k as int / block,
            )
            &&& slab * rows <= left_for_stack(lane_offer, rows, cols)
            // The pass fits both offers.
            &&& cols >= 1
            &&& rows * cols <= exact_offer
            &&& rows * cols + slab * rows * plan.depth <= lane_offer
        },
        None => {
            ||| unplannable(code_space, shape, block, lane_capacity)
            ||| forall|x: int|
                !#[trigger] rung_fits(
                    x,
                    code_space,
                    shape.m as int,
                    lane_bytes,
                    exact_offer,
                    lane_offer,
                )
            ||| exists|x: int|
                {
                    &&& #[trigger] rung_fits(
                        x,
                        code_space,
                        shape.m as int,
                        lane_bytes,
                        exact_offer,
                        lane_offer,
                    )
                    &&& forall|y: int|
                        x < y ==> !#[trigger] rung_fits(
                            y,
                            code_space,
                            shape.m as int,
                            lane_bytes,
                            exact_offer,
                            lane_offer,
                        )
                    &&& slab * x > left_for_stack(
                        lane_offer,
                        x,
                        least(shape.n as int, exact_offer / x),
                    )
                }
        },
    }
}

/// The pass that an offer of accumulators gets whose lanes are read out of it:
/// the tallest tile whose least charge fits, the widest block of columns that
/// fits at one slab, and the slabs that are left over.
pub open spec fn is_shared(
    r: Option<Plan>,
    code_space: int,
    shape: Shape,
    lane_bytes: int,
    exact_offer: int,
    lanes_per_exact: int,
    block: int,
    lane_capacity: Option<usize>,
) -> bool {
    match r {
        None => {
            ||| unplannable(code_space, shape, block, lane_capacity)
            ||| lanes_per_exact == 0
            ||| forall|x: int|
                !#[trigger] shared_rung_fits(
                    x,
                    code_space,
                    shape.m as int,
                    lane_bytes,
                    exact_offer,
                    lanes_per_exact,
                )
        },
        Some(plan) => {
            let (rows, cols) = (plan.rows as int, plan.cols as int);
            &&& !unplannable(code_space, shape, block, lane_capacity)
            &&& lanes_per_exact > 0
            &&& shared_rung_fits(
                rows,
                code_space,
                shape.m as int,
                lane_bytes,
                exact_offer,
                lanes_per_exact,
            )
            &&& forall|x: int|
                rows < x ==> !#[trigger] shared_rung_fits(
                    x,
                    code_space,
                    shape.m as int,
                    lane_bytes,
                    exact_offer,
                    lanes_per_exact,
                )
            &&& 1 <= cols <= shape.n
            &&& charge_fits(code_space, rows, cols, 1, lanes_per_exact, exact_offer)
            &&& cols < shape.n ==> !charge_fits(
                code_space,
                rows,
                cols + 1,
                1,
                lanes_per_exact,
                exact_offer,
            )
            &&& plan.depth == planned_depth(
                depth_that_fits(
                    code_space,
                    rows,
                    block,
                    lane_capacity,
                    blocking::L2_BYTES as int,
                    lane_bytes,
                ),
                (sat((exact_offer - rows * cols) * lanes_per_exact) - rows * cols) / (slab_of(
                    code_space,
                ) * rows),
                shape.k as int / block,
            )
            // The pass fits the offer.
            &&& charge_fits(
                code_space,
                rows,
                cols,
                plan.depth as int,
                lanes_per_exact,
                exact_offer,
            )
        },
    }
}

impl Plan {
    /// Lanes of the pass: a column of lanes per cell, and the stack.
    pub fn lane_words(&self, code_space: usize) -> (r: usize)
        ensures
            r == sat(
                self.rows * self.cols + words_of(
                    code_space as int,
                    self.rows as int,
                    self.depth as int,
                ),
            ),
    {
        assert(self.rows * self.cols >= 0) by (nonlinear_arith);
        sat_mul(self.rows, self.cols).saturating_add(
            table_words(code_space, self.rows, self.depth),
        )
    }

    /// The accumulators of the pass where lanes are read out of accumulators.
    pub fn shared_exact_charge(&self, code_space: usize, lanes_per_exact: usize) -> (r: Option<
        usize,
    >)
        ensures
            r is Some <==> lanes_per_exact > 0 && charge_fits(
                code_space as int,
                self.rows as int,
                self.cols as int,
                self.depth as int,
                lanes_per_exact as int,
                usize::MAX as int,
            ),
            r matches Some(charge) ==> charge == exact_charge(
                code_space as int,
                self.rows as int,
                self.cols as int,
                self.depth as int,
                lanes_per_exact as int,
            ),
    {
        if lanes_per_exact == 0 {
            return None;
        }
        assert(self.rows * self.cols >= 0) by (nonlinear_arith);
        match self.rows.checked_mul(self.cols) {
            None => None,
            Some(tile) => {
                match tile.checked_add(table_words(code_space, self.rows, self.depth)) {
                    None => None,
                    Some(lanes) => tile.checked_add(div_ceil(lanes, lanes_per_exact)),
                }
            },
        }
    }

    /// Whether the charge is within an offer.
    fn charges_within(
        &self,
        code_space: usize,
        lanes_per_exact: usize,
        exact_offer: usize,
    ) -> (r: bool)
        requires
            lanes_per_exact > 0,
        ensures
            r == charge_fits(
                code_space as int,
                self.rows as int,
                self.cols as int,
                self.depth as int,
                lanes_per_exact as int,
                exact_offer as int,
            ),
    {
        match self.shared_exact_charge(code_space, lanes_per_exact) {
            None => false,
            Some(charge) => charge <= exact_offer,
        }
    }

    /// A pass whose lanes have an offer of their own.
    pub fn select(
        code_space: usize,
        shape: Shape,
        lane_bytes: usize,
        exact_offer: usize,
        lane_offer: usize,
        block: usize,
        lane_capacity: Option<usize>,
    ) -> (r: Option<Self>)
        ensures
            is_selected(
                r,
                code_space as int,
                shape,
                lane_bytes as int,
                exact_offer as int,
                lane_offer as int,
                block as int,
                lane_capacity,
            ),
    {
        if code_space == 0 || block == 0 || shape.m == 0 || shape.n == 0 {
            return None;
        }
        if let Some(capacity) = lane_capacity {
            if capacity < block {
                return None;
            }
        }
        let row_cap: usize = min(
            min(tabulation_rows(code_space, blocking::L1_BYTES, lane_bytes), shape.m),
            exact_offer,
        );
        let slab: usize = slab_codes(code_space);
        if slab == 0 {
            return None;
        }
        let ghost fits = |x: int|
            rung_fits(
                x,
                code_space as int,
                shape.m as int,
                lane_bytes as int,
                exact_offer as int,
                lane_offer as int,
            );
        let mut at: usize = 0;
        while at < 5
            invariant
                at <= 5,
                slab == slab_of(code_space as int),
                slab > 0,
                row_cap == least(
                    least(
                        rows_that_fit(
                            code_space as int,
                            blocking::L1_BYTES as int,
                            lane_bytes as int,
                        ),
                        shape.m as int,
                    ),
                    exact_offer as int,
                ),
                fits == (|x: int|
                    rung_fits(
                        x,
                        code_space as int,
                        shape.m as int,
                        lane_bytes as int,
                        exact_offer as int,
                        lane_offer as int,
                    )),
                at >= 1 ==> !fits(16),
                at >= 2 ==> !fits(8),
                at >= 3 ==> !fits(4),
                at >= 4 ==> !fits(2),
                at >= 5 ==> !fits(1),
                shape.m > 0,
                shape.n > 0,
                block > 0,
                !unplannable(code_space as int, shape, block as int, lane_capacity),
            decreases 5 - at,
        {
            let rows: usize = ROW_TILES[at];
            assert(slab * rows >= 0) by (nonlinear_arith);
            if rows <= row_cap && sat_mul(slab, rows) < lane_offer {
                assert(fits(rows as int));
                assert forall|x: int|
                    rows < x implies !#[trigger] rung_fits(
                        x,
                        code_space as int,
                        shape.m as int,
                        lane_bytes as int,
                        exact_offer as int,
                        lane_offer as int,
                    ) by {
                    assert(!fits(x));
                }
                return Self::plan_rung(
                    code_space,
                    shape,
                    lane_bytes,
                    exact_offer,
                    lane_offer,
                    block,
                    lane_capacity,
                    slab,
                    rows,
                );
            }
            assert(!fits(rows as int));
            at = at + 1;
        }
        assert forall|x: int|
            !#[trigger] rung_fits(
                x,
                code_space as int,
                shape.m as int,
                lane_bytes as int,
                exact_offer as int,
                lane_offer as int,
            ) by {
            assert(!fits(x));
        }
        None
    }

    /// The pass at a row count that fits.
    fn plan_rung(
        code_space: usize,
        shape: Shape,
        lane_bytes: usize,
        exact_offer: usize,
        lane_offer: usize,
        block: usize,
        lane_capacity: Option<usize>,
        slab: usize,
        rows: usize,
    ) -> (r: Option<Self>)
        requires
            slab == slab_of(code_space as int),
            slab > 0,
            shape.n > 0,
            block > 0,
            rung_fits(
                rows as int,
                code_space as int,
                shape.m as int,
                lane_bytes as int,
                exact_offer as int,
                lane_offer as int,
            ),
        ensures
            r is Some <==> slab * rows <= left_for_stack(
                lane_offer as int,
                rows as int,
                least(shape.n as int, exact_offer as int / rows as int),
            ),
            r matches Some(plan) ==> {
                let cols = plan.cols as int;
                &&& plan.rows == rows
                &&& cols == least(shape.n as int, exact_offer as int / rows as int)
                &&& plan.depth == planned_depth(
                    depth_that_fits(
                        code_space as int,
                        rows as int,
                        block as int,
                        lane_capacity,
                        blocking::L2_BYTES as int,
                        lane_bytes as int,
                    ),
                    left_for_stack(lane_offer as int, rows as int, cols) / (slab * rows),
                    shape.k as int / block as int,
                )
                &&& cols >= 1
                &&& rows * cols <= exact_offer
                &&& rows * cols + slab * rows * plan.depth <= lane_offer
            },
    {
        let cols: usize = min(shape.n, exact_offer / rows);
        proof {
            vstd::arithmetic::div_mod::lemma_fundamental_div_mod(exact_offer as int, rows as int);
            let q = exact_offer as int / rows as int;
            vstd::arithmetic::div_mod::lemma_div_non_zero(exact_offer as int, rows as int);
            assert(0 <= rows * cols <= rows * q) by (nonlinear_arith)
                requires
                    0 <= cols <= q,
                    rows >= 1,
            ;
            assert(slab * rows >= 1) by (nonlinear_arith)
                requires
                    slab >= 1,
                    rows >= 1,
            ;
        }
        let blocks: usize = shape.k / block;
        let tile: usize = rows * cols;
        let for_stack: usize = lane_offer.saturating_sub(tile);
        let by_cache: usize = tabulation_depth(
            code_space,
            rows,
            block,
            lane_capacity,
            blocking::L2_BYTES,
            lane_bytes,
        );
        let slab_rows: usize = slab * rows;
        let by_offer: usize = for_stack / slab_rows;
        let capped: usize = min(min(by_cache, by_offer), max(blocks, 1));
        let depth: usize = if capped == 0 {
            1
        } else {
            capped
        };
        if for_stack < slab_rows {
            return None;
        }
        proof {
            vstd::arithmetic::div_mod::lemma_fundamental_div_mod(
                for_stack as int,
                slab_rows as int,
            );
            vstd::arithmetic::div_mod::lemma_div_non_zero(for_stack as int, slab_rows as int);
            assert(slab_rows * depth <= slab_rows * by_offer) by (nonlinear_arith)
                requires
                    depth <= by_offer,
                    slab_rows >= 1,
            ;
        }
        Some(Plan { rows, cols, depth })
    }

    /// A pass whose lanes are read out of the accumulators on offer.
    pub fn choose_shared_exact(
        code_space: usize,
        shape: Shape,
        lane_bytes: usize,
        exact_offer: usize,
        lanes_per_exact: usize,
        block: usize,
        lane_capacity: Option<usize>,
    ) -> (r: Option<Self>)
        ensures
            is_shared(
                r,
                code_space as int,
                shape,
                lane_bytes as int,
                exact_offer as int,
                lanes_per_exact as int,
                block as int,
                lane_capacity,
            ),
    {
        if code_space == 0 || block == 0 || shape.m == 0 || shape.n == 0 || lanes_per_exact == 0 {
            return None;
        }
        if let Some(capacity) = lane_capacity {
            if capacity < block {
                return None;
            }
        }
        let slab: usize = slab_codes(code_space);
        if slab == 0 {
            return None;
        }
        let row_cap: usize = min(
            tabulation_rows(code_space, blocking::L1_BYTES, lane_bytes),
            shape.m,
        );
        let ghost fits = |x: int|
            shared_rung_fits(
                x,
                code_space as int,
                shape.m as int,
                lane_bytes as int,
                exact_offer as int,
                lanes_per_exact as int,
            );
        let mut at: usize = 0;
        while at < 5
            invariant
                at <= 5,
                slab == slab_of(code_space as int),
                slab > 0,
                code_space > 0,
                lanes_per_exact > 0,
                row_cap == least(
                    rows_that_fit(code_space as int, blocking::L1_BYTES as int, lane_bytes as int),
                    shape.m as int,
                ),
                fits == (|x: int|
                    shared_rung_fits(
                        x,
                        code_space as int,
                        shape.m as int,
                        lane_bytes as int,
                        exact_offer as int,
                        lanes_per_exact as int,
                    )),
                at >= 1 ==> !fits(16),
                at >= 2 ==> !fits(8),
                at >= 3 ==> !fits(4),
                at >= 4 ==> !fits(2),
                at >= 5 ==> !fits(1),
                shape.n > 0,
                block > 0,
                !unplannable(code_space as int, shape, block as int, lane_capacity),
            decreases 5 - at,
        {
            let rows: usize = ROW_TILES[at];
            let one: Plan = Plan { rows, cols: 1, depth: 1 };
            if rows <= row_cap && one.charges_within(code_space, lanes_per_exact, exact_offer) {
                assert(fits(rows as int));
                assert forall|x: int|
                    rows < x implies !#[trigger] shared_rung_fits(
                        x,
                        code_space as int,
                        shape.m as int,
                        lane_bytes as int,
                        exact_offer as int,
                        lanes_per_exact as int,
                    ) by {
                    assert(!fits(x));
                }
                return Some(
                    Self::plan_shared(
                        code_space,
                        shape,
                        lane_bytes,
                        exact_offer,
                        lanes_per_exact,
                        block,
                        lane_capacity,
                        slab,
                        rows,
                    ),
                );
            }
            assert(!fits(rows as int));
            at = at + 1;
        }
        assert forall|x: int|
            !#[trigger] shared_rung_fits(
                x,
                code_space as int,
                shape.m as int,
                lane_bytes as int,
                exact_offer as int,
                lanes_per_exact as int,
            ) by {
            assert(!fits(x));
        }
        None
    }

    /// The pass at a row count whose least charge fits.
    fn plan_shared(
        code_space: usize,
        shape: Shape,
        lane_bytes: usize,
        exact_offer: usize,
        lanes_per_exact: usize,
        block: usize,
        lane_capacity: Option<usize>,
        slab: usize,
        rows: usize,
    ) -> (plan: Self)
        requires
            slab == slab_of(code_space as int),
            slab > 0,
            code_space > 0,
            lanes_per_exact > 0,
            rows > 0,
            shape.n > 0,
            block > 0,
            charge_fits(
                code_space as int,
                rows as int,
                1,
                1,
                lanes_per_exact as int,
                exact_offer as int,
            ),
        ensures
            plan.rows == rows,
            1 <= plan.cols <= shape.n,
            charge_fits(
                code_space as int,
                rows as int,
                plan.cols as int,
                1,
                lanes_per_exact as int,
                exact_offer as int,
            ),
            plan.cols < shape.n ==> !charge_fits(
                code_space as int,
                rows as int,
                plan.cols + 1,
                1,
                lanes_per_exact as int,
                exact_offer as int,
            ),
            plan.depth == planned_depth(
                depth_that_fits(
                    code_space as int,
                    rows as int,
                    block as int,
                    lane_capacity,
                    blocking::L2_BYTES as int,
                    lane_bytes as int,
                ),
                (sat((exact_offer - rows * plan.cols) * lanes_per_exact) - rows * plan.cols) / (slab
                    * rows),
                shape.k as int / block as int,
            ),
            charge_fits(
                code_space as int,
                rows as int,
                plan.cols as int,
                plan.depth as int,
                lanes_per_exact as int,
                exact_offer as int,
            ),
    {
        let cols: usize = Self::widest(
            code_space,
            shape.n,
            exact_offer,
            lanes_per_exact,
            rows,
        );
        let ghost (ri, ci, li, si) = (rows as int, cols as int, lanes_per_exact as int, slab as int);
        let ghost words = words_of(code_space as int, ri, 1) as int;
        proof {
            assert(0 <= ri * ci) by (nonlinear_arith)
                requires
                    0 <= ri,
                    0 <= ci,
            ;
            assert(1 <= si * ri) by (nonlinear_arith)
                requires
                    1 <= si,
                    1 <= ri,
            ;
            assert(1 <= ri * ci) by (nonlinear_arith)
                requires
                    1 <= ri,
                    1 <= ci,
            ;
            assert(si * ri * 1 == si * ri);
            // The count is below the largest extent, so it did not saturate.
            assert(words == si * ri);
            lemma_ceil_room(ri * ci + words, li, exact_offer - ri * ci);
        }
        let tile: usize = rows * cols;
        let available_exact: usize = exact_offer - tile;
        let available_lanes: usize = sat_mul(available_exact, lanes_per_exact);
        let for_stack: usize = available_lanes - tile;
        let slab_rows: usize = slab * rows;
        let by_offer: usize = for_stack / slab_rows;
        let by_cache: usize = tabulation_depth(
            code_space,
            rows,
            block,
            lane_capacity,
            blocking::L2_BYTES,
            lane_bytes,
        );
        let blocks: usize = shape.k / block;
        let capped: usize = min(min(by_cache, by_offer), max(blocks, 1));
        let depth: usize = if capped == 0 {
            1
        } else {
            capped
        };
        proof {
            vstd::arithmetic::div_mod::lemma_fundamental_div_mod(
                for_stack as int,
                slab_rows as int,
            );
            vstd::arithmetic::div_mod::lemma_div_non_zero(for_stack as int, slab_rows as int);
            assert(0 <= slab_rows * depth <= slab_rows * by_offer) by (nonlinear_arith)
                requires
                    0 <= depth <= by_offer,
                    slab_rows >= 1,
            ;
            assert(words_of(code_space as int, ri, depth as int) == si * ri * depth);
            lemma_room_ceil(ri * ci + si * ri * depth, li, exact_offer - ri * ci);
        }
        Plan { rows, cols, depth }
    }

    /// The widest block of columns whose charge at one slab fits the offer.
    fn widest(
        code_space: usize,
        n: usize,
        exact_offer: usize,
        lanes_per_exact: usize,
        rows: usize,
    ) -> (cols: usize)
        requires
            lanes_per_exact > 0,
            n > 0,
            charge_fits(
                code_space as int,
                rows as int,
                1,
                1,
                lanes_per_exact as int,
                exact_offer as int,
            ),
        ensures
            1 <= cols <= n,
            charge_fits(
                code_space as int,
                rows as int,
                cols as int,
                1,
                lanes_per_exact as int,
                exact_offer as int,
            ),
            cols < n ==> !charge_fits(
                code_space as int,
                rows as int,
                cols + 1,
                1,
                lanes_per_exact as int,
                exact_offer as int,
            ),
    {
        let mut low: usize = 1;
        let mut high: usize = n;
        while low < high
            invariant
                1 <= low <= high <= n,
                lanes_per_exact > 0,
                charge_fits(
                    code_space as int,
                    rows as int,
                    low as int,
                    1,
                    lanes_per_exact as int,
                    exact_offer as int,
                ),
                high < n ==> !charge_fits(
                    code_space as int,
                    rows as int,
                    high + 1,
                    1,
                    lanes_per_exact as int,
                    exact_offer as int,
                ),
            decreases high - low,
        {
            let mid: usize = low + div_ceil(high - low, 2);
            let candidate: Plan = Plan { rows, cols: mid, depth: 1 };
            if candidate.charges_within(code_space, lanes_per_exact, exact_offer) {
                low = mid;
            } else {
                high = mid - 1;
            }
        }
        low
    }
}

/// What a rounded-up quotient within `room` leaves.
proof fn lemma_ceil_room(lanes: int, per: int, room: int)
    requires
        per > 0,
        lanes >= 0,
        lanes <= usize::MAX,
        ceil_div(lanes, per) <= room,
    ensures
        0 <= room,
        lanes <= room * per,
        lanes <= sat(room * per),
{
    vstd::arithmetic::div_mod::lemma_fundamental_div_mod(lanes + per - 1, per);
    vstd::arithmetic::div_mod::lemma_div_pos_is_pos(lanes + per - 1, per);
    let q = ceil_div(lanes, per);
    assert(q * per == per * q) by (nonlinear_arith);
    assert(q * per <= room * per) by (nonlinear_arith)
        requires
            q <= room,
            per > 0,
    ;
}

/// Lanes that fit `room` accumulators round up to at most that many.
proof fn lemma_room_ceil(lanes: int, per: int, room: int)
    requires
        per > 0,
        lanes >= 0,
        lanes <= room * per,
    ensures
        ceil_div(lanes, per) <= room,
{
    vstd::arithmetic::div_mod::lemma_fundamental_div_mod(lanes + per - 1, per);
    let q = ceil_div(lanes, per);
    assert(q <= room) by (nonlinear_arith)
        requires
            per * q <= lanes + per - 1,
            lanes <= room * per,
            per > 0,
    ;
}

} // verus!
