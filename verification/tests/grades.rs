use tabulated_gemm::census::Census;
use tabulated_gemm::f32_q::{
    atlas_double_u32, atlas_power_of_two_u32, f32_lane_scale, f32_q_build_presentations,
    f32_q_step_bound, float_dense_steps, float_table_spec, project_f32_q, WordBook, PRODUCT_BOUND,
};
use tabulated_gemm::scale::{regrade_envelope, LaneScale};
use tabulated_gemm::view::MatView;

const CEILING: u64 = 1 << 52;

fn scale_of(activations: &[f32], book: &[f32]) -> (LaneScale, Census) {
    let a: Vec<u32> = activations.iter().map(|x| x.to_bits()).collect();
    let b: Vec<u32> = book.iter().map(|x| x.to_bits()).collect();
    let view = MatView::row_major(&a, 1, a.len()).unwrap();
    let places: Vec<usize> = (0..b.len()).collect();
    let w = WordBook { words: &b, block: 1, sign_book: false, places: &places };
    let mut census = Census::default();
    let scale = f32_lane_scale(&view, &w, CEILING, &mut census);
    (scale, census)
}

#[test]
fn a_sparse_book_is_met_only_where_codes_name_it() {
    let a = [1.0f32.to_bits(), 4.0f32.to_bits()];
    let view = MatView::row_major(&a, 1, 2).unwrap();
    let words = [f32::NAN.to_bits(), 2.0f32.to_bits(), 8.0f32.to_bits(), f32::NAN.to_bits()];
    let mut census = Census::default();
    let named = WordBook { words: &words, block: 1, sign_book: false, places: &[2, 1] };
    let scale = f32_lane_scale(&view, &named, CEILING, &mut census);
    assert_eq!((scale.base_a, scale.base_b), (-23, -22));
    assert_eq!(scale.per_step, PRODUCT_BOUND * 16);
    assert_eq!(census.decodes, 4);
    let whole = WordBook { sign_book: true, ..named };
    let scale = f32_lane_scale(&view, &whole, CEILING, &mut census);
    assert_eq!(scale.per_step, u128::from(CEILING) + 1);
    assert_eq!(census.decodes, 10);
}

#[test]
fn floating_point_families_declare_the_reference_sequence() {
    let spec = float_table_spec(8, 1, 99);
    assert!(!spec.build_multiplies);
    assert_eq!((spec.lane_cap, spec.lanes_per_add, spec.max_bound), (99, 1, u128::MAX));
    let steps = float_dense_steps(32);
    assert_eq!((steps.table, steps.dense, steps.dense_rows), (32, 1, 1));
}

#[test]
fn the_largest_significands_give_the_exact_step() {
    let edge = f32::from_bits(0x3fff_ffff);
    let (scale, census) = scale_of(&[edge], &[edge]);
    assert_eq!(scale.per_step, PRODUCT_BOUND);
    assert_eq!(census.decodes, 2, "one activation and one book symbol");
    assert_eq!((scale.base_a, scale.base_b), (-23, -23));
}

#[test]
fn a_word_that_is_no_number_and_a_span_past_the_ceiling_leave_single_products() {
    let (scale, census) = scale_of(&[f32::NAN], &[1.0]);
    assert_eq!(scale.per_step, u128::from(CEILING) + 1);
    assert_eq!(census.decodes, 2);
    let extremes = [f32::from_bits(1), f32::MAX];
    let (scale, census) = scale_of(&extremes, &extremes);
    assert_eq!(scale.per_step, u128::from(CEILING) + 1);
    assert_eq!(census.decodes, 4);
}

#[test]
fn a_projected_word_counts_grades_from_its_base() {
    let one = 1.0f32.to_bits();
    assert_eq!(project_f32_q(one, -23), 1 << 23);
    assert_eq!(project_f32_q(one, -30), 8 << 23);
    let minus = (-1.5f32).to_bits();
    assert_eq!(project_f32_q(minus, -23), 0x8000_0000 | (1 << 23) | (1 << 22));
    assert_eq!(project_f32_q(0, 0), 0);
    assert_eq!(project_f32_q(f32::NAN.to_bits(), 0), f32::NAN.to_bits());
    let least = 1u32;
    for base in [-149, 0, i32::MIN, i32::MAX] {
        assert_eq!(project_f32_q(least, base), least, "the least exponent field stays");
        assert_eq!(project_f32_q(f32::NEG_INFINITY.to_bits(), base), f32::NEG_INFINITY.to_bits());
    }
}

#[test]
fn doubling_and_bounds_have_closed_forms() {
    assert_eq!(f32_q_build_presentations(1, 1, 1), 1);
    assert_eq!(f32_q_build_presentations(3, 5, 7), 105);
    assert_eq!(atlas_power_of_two_u32(31), 1 << 31);
    assert_eq!(atlas_power_of_two_u32(32), 0);
    assert_eq!(atlas_double_u32(3, 4), 48);
    assert_eq!(f32_q_step_bound(0, CEILING), PRODUCT_BOUND);
    assert_eq!(f32_q_step_bound(2, CEILING), PRODUCT_BOUND * 4);
    assert_eq!(f32_q_step_bound(5, CEILING), u128::from(CEILING) + 1);
}

#[test]
fn an_envelope_is_regraded_by_the_distance_of_the_bases() {
    let local = LaneScale { base_a: -3, base_b: 1, per_step: 10 };
    let call = LaneScale { base_a: -5, base_b: 0, per_step: 99 };
    assert_eq!(regrade_envelope(local, call, 1000), 80);
    assert_eq!(regrade_envelope(local, call, 79), 80);
    assert_eq!(regrade_envelope(call, local, 1000), 1001);
    assert_eq!(LaneScale::integral(7).per_step, 49);
    assert_eq!(local.exponent(), -2);
}

/// The number that a regraded word counts, in units of its base.
fn counted(word: u32) -> i128 {
    let magnitude = word & 0x7fff_ffff;
    let (field, fraction) = (magnitude >> 23, magnitude & 0x7f_ffff);
    let units = if field == 0 {
        i128::from(fraction)
    } else {
        i128::from(0x80_0000 + fraction) << (field - 1)
    };
    if word >> 31 == 1 {
        -units
    } else {
        units
    }
}

#[test]
fn regraded_products_are_the_products_at_the_sum_of_the_bases() {
    let values = [1.0f32, -1.0, 1.75, -2.5, 96.0, f32::from_bits(0x3fff_ffff)];
    for &a in &values {
        for &b in &values {
            let (x, y) = (project_f32_q(a.to_bits(), -30), project_f32_q(b.to_bits(), -28));
            let product = counted(x) * counted(y);
            assert_eq!(product as f64 * 2f64.powi(-58), f64::from(a) * f64::from(b));
        }
    }
}
