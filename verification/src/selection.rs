//! Whether a planned table is run.
use crate::blocking;
use crate::plan::Plan;
use crate::sequence::TableSpec;
use crate::sizing::{
    effective_dense_step, effective_step, fits, tabulation_fits, CostProduct, Steps,
};
use crate::triple::Traversal;
use vstd::prelude::*;

verus! {

/// Whether a sequence repays its build at its own declarations: the steps that
/// its gathers save over the columns exceed those of its build.
pub open spec fn pays_for(
    code_space: int,
    block: int,
    cols: int,
    rows: int,
    steps: Steps,
    l1_bytes: int,
    lane_bytes: int,
    table: TableSpec,
) -> bool {
    let table_step = block * table.lanes_per_add;
    let effective = effective_step(rows, steps);
    &&& block > 1
    &&& fits(code_space, rows, l1_bytes, lane_bytes)
    &&& table_step <= usize::MAX
    &&& table.build_products_per_step > 0
    &&& 0 < effective < table_step
    &&& steps.table == table_step
    &&& cols * table.build_products_per_step * (table_step - effective) > code_space * effective
        * table_step
}

/// Whether a sequence repays its build at its own declarations.
pub fn tabulation_pays_for_spec(
    code_space: usize,
    block: usize,
    cols: usize,
    rows: usize,
    steps: Steps,
    l1_bytes: usize,
    lane_bytes: usize,
    table: &TableSpec,
) -> (r: bool)
    ensures
        r == pays_for(
            code_space as int,
            block as int,
            cols as int,
            rows as int,
            steps,
            l1_bytes as int,
            lane_bytes as int,
            *table,
        ),
{
    if block == 0 || !tabulation_fits(code_space, rows, l1_bytes, lane_bytes) {
        return false;
    }
    if block == 1 {
        return false;
    }
    assert(block * table.lanes_per_add >= 0) by (nonlinear_arith);
    let table_step: usize = match block.checked_mul(table.lanes_per_add) {
        None => {
            return false;
        },
        Some(table_step) => table_step,
    };
    let build_step: usize = table.build_products_per_step;
    let effective: usize = effective_dense_step(rows, steps);
    build_step > 0 && effective > 0 && steps.table == table_step && table_step > effective
        && CostProduct::of(cols, build_step, table_step - effective).greater_than(
        CostProduct::of(code_space, effective, table_step),
    )
}

/// Whether the traversal that was asked for runs a planned table: where it
/// pays, or wherever it fits.
pub open spec fn admitted(
    traversal: Traversal,
    code_space: int,
    block: int,
    plan: Plan,
    steps: Steps,
    lane_bytes: int,
    table: TableSpec,
) -> bool {
    match traversal {
        Traversal::OutputMajor => false,
        Traversal::Blocked => pays_for(
            code_space,
            block,
            plan.cols as int,
            plan.rows as int,
            steps,
            blocking::L1_BYTES as int,
            lane_bytes,
            table,
        ),
        Traversal::Tabulated => fits(
            code_space,
            plan.rows as int,
            blocking::L1_BYTES as int,
            lane_bytes,
        ),
    }
}

/// Whether the traversal that was asked for runs a planned table.
pub fn admits(
    traversal: Traversal,
    code_space: usize,
    block: usize,
    plan: Plan,
    steps: Steps,
    lane_bytes: usize,
    table: &TableSpec,
) -> (r: bool)
    ensures
        r == admitted(
            traversal,
            code_space as int,
            block as int,
            plan,
            steps,
            lane_bytes as int,
            *table,
        ),
{
    match traversal {
        Traversal::OutputMajor => false,
        Traversal::Blocked => tabulation_pays_for_spec(
            code_space,
            block,
            plan.cols,
            plan.rows,
            steps,
            blocking::L1_BYTES,
            lane_bytes,
            table,
        ),
        Traversal::Tabulated => tabulation_fits(
            code_space,
            plan.rows,
            blocking::L1_BYTES,
            lane_bytes,
        ),
    }
}

} // verus!
