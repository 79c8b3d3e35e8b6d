use tabulated_gemm::blocking;
use tabulated_gemm::books::Book;
use tabulated_gemm::codec::{CodedMatrix, Enumerable};
use tabulated_gemm::columns::{column_hash, distinct_columns};
use tabulated_gemm::element::{Alphabet, Full};
use tabulated_gemm::entries::{EntryInsert, EntrySet};
use tabulated_gemm::gemm::{suggested_tabulation, suggested_tabulation_lanes};
use tabulated_gemm::plan::Plan;
use tabulated_gemm::selection::tabulation_pays_for_spec;
use tabulated_gemm::sequence::{portable_table, Sequence};
use tabulated_gemm::sizing::{
    column_group, slab_codes, suggested_tabulation_index, table_words, tabulation_depth,
    tabulation_fits, tabulation_pays, tabulation_rows, CostProduct, Shape, Steps, ROW_TILES,
};
use tabulated_gemm::table::Table;
use tabulated_gemm::tile::run_requires_place;
use tabulated_gemm::workspace::column_workspace;

#[test]
fn slab_rounding_is_total_for_every_representable_code_space_ct_01() {
    let largest_power = usize::MAX / 2 + 1;
    assert_eq!(slab_codes(0), 0);
    assert_eq!(slab_codes(largest_power), largest_power);
    assert_eq!(slab_codes(largest_power + 1), 0);
    assert_eq!(slab_codes(usize::MAX), 0);
    assert_eq!(table_words(usize::MAX, 1, 1), usize::MAX);
    assert_eq!(suggested_tabulation_index(Shape { m: 1, k: 1, n: usize::MAX }), usize::MAX);

    let mut no_words: [i32; 0] = [];
    assert!(Table::new(&mut no_words, usize::MAX, 1, 1).is_none());
    assert_eq!(tabulation_rows(usize::MAX, blocking::L1_BYTES, core::mem::size_of::<i32>()), 0);
    assert!(Plan::select(
        usize::MAX,
        Shape { m: 1, k: 1, n: 1 },
        core::mem::size_of::<i32>(),
        usize::MAX,
        usize::MAX,
        1,
        None,
    )
    .is_none());

    assert!(!tabulation_fits(3, 1, 6, 1));
    assert!(tabulation_fits(3, 1, 8, 1));
    assert_eq!(tabulation_rows(3, 24, 1), 3);
    assert_eq!(tabulation_depth(3, 1, 1, None, 24, 1), 3);
    assert!(!tabulation_fits(largest_power, 2, usize::MAX, 2));
    assert_eq!(column_group(0), 0);
}

#[test]
fn table_padding_is_zeroed_once_and_reused_at_the_same_geometry_cd_13() {
    let (space, rows, depth) = (3usize, 2usize, 2usize);
    let slab = slab_codes(space) * rows;
    let live = space * rows;
    let mut words = vec![-1i32; slab * depth];
    {
        let table = Table::new(&mut words, space, rows, depth).expect("the stack fits");
        for slot in 0..depth {
            assert!(table.stack()[slot * slab..slot * slab + live].iter().all(|&word| word == -1));
            assert!(table.stack()[slot * slab + live..(slot + 1) * slab]
                .iter()
                .all(|&word| word == 0));
        }
    }
    for slot in 0..depth {
        for (at, word) in words[slot * slab..slot * slab + live].iter_mut().enumerate() {
            *word = (slot * live + at + 1) as i32;
        }
    }
    let table = Table::reuse_zeroed(&mut words, space, rows, depth)
        .expect("the same resident geometry reborrows");
    for slot in 0..depth {
        assert!(table.stack()[slot * slab..slot * slab + live].iter().all(|&word| word != 0));
        assert!(table.stack()[slot * slab + live..(slot + 1) * slab].iter().all(|&word| word == 0));
    }
}

#[test]
fn a_short_final_chunk_is_not_split_or_placed_twice_cd_20() {
    assert!(!run_requires_place(0, 3, 5));
    assert!(!run_requires_place(3, 2, 5));
    assert!(run_requires_place(3, 3, 5));
    assert!(!run_requires_place(usize::MAX - 1, 1, usize::MAX));
    assert!(run_requires_place(usize::MAX - 1, 2, usize::MAX));
}

#[test]
fn non_pointwise_books_do_not_construct_an_unused_entry_set_cg_16() {
    let (n, cols) = (3usize, 2usize);
    let table = (2 * n).next_power_of_two();
    let words = n + 2 * table;
    let marker = usize::MAX - 7;

    let mut distinct = vec![marker; words];
    let snapshot = distinct.clone();
    let (map, entries) = column_workspace(&mut distinct, n, cols, false, false);
    assert!(map.is_none() && entries.is_none());
    assert_eq!(distinct, snapshot, "no-repeat/non-entry work touches no dictionary word");

    let mut repeated = vec![marker; words];
    repeated[..n].copy_from_slice(&[0, 0, 2]);
    let untouched_probe = n + table - 1;
    let (map, entries) = column_workspace(&mut repeated, n, cols, true, false);
    assert!(map.is_some() && entries.is_none());
    assert_eq!(
        repeated[untouched_probe], marker,
        "column-map derivation must not end with the unused set's clear"
    );
}

type Symbols<const D: usize> = Book<'static, i8, Full<i8>, D, 1, u8>;

#[test]
fn ternary_radix_hash_retains_early_sites_and_collisions_are_exact_cu_11() {
    type A32 = Symbols<32>;
    let formerly_reduced = |run: &[u8], modulus: usize| {
        let mut hash = (run.len() % modulus) as u128;
        for &code in &run[..run.len().min(blocking::COLUMN_HASH_PREFIX)] {
            let doubled = hash + hash;
            hash = doubled + hash + <A32 as Enumerable<i8, Full<i8>>>::index_of(code) as u128;
        }
        (hash % modulus as u128) as usize
    };
    for length in [0usize, 1, 15, 16, 17, 64, 256] {
        let run = (0..length)
            .map(|at| u8::try_from((at * 17 + length * 29) % 32).unwrap())
            .collect::<Vec<_>>();
        for table in [2usize, 4, 8, 16, 1024] {
            assert_eq!(
                column_hash::<i8, Full<i8>, A32>(&run, table),
                formerly_reduced(&run, table),
                "removing the initial remainder changed length {length} modulo {table}"
            );
        }
    }
    for table in [2usize, 4, 8, 16] {
        let left = [0u8; 17];
        let mut right = left;
        right[0] = 1;
        assert_ne!(
            column_hash::<i8, Full<i8>, A32>(&left, table),
            column_hash::<i8, Full<i8>, A32>(&right, table),
            "the earliest unit coordinate survives modulo {table}"
        );
    }

    let codes = [0u8, 0, 8, 8];
    let n = codes.len();
    let table = (2 * n).next_power_of_two();
    let mut index = vec![0usize; n + 2 * table];
    assert_eq!(distinct_columns::<i8, Full<i8>, A32>(&codes, 1, n, &mut index), Some(2));
    assert_eq!(&index[..n], &[0, 0, 2, 2]);

    let head = [0u8; 17];
    let mut tail = head;
    tail[16] = 1;
    assert_eq!(
        column_hash::<i8, Full<i8>, A32>(&head, 8),
        column_hash::<i8, Full<i8>, A32>(&tail, 8)
    );
    let mut codes = Vec::new();
    for column in [&head, &head, &tail, &tail] {
        codes.extend_from_slice(column);
    }
    let n = 4usize;
    let table = (2 * n).next_power_of_two();
    let mut index = vec![0usize; n + 2 * table];
    assert_eq!(distinct_columns::<i8, Full<i8>, A32>(&codes, head.len(), n, &mut index), Some(2));
    assert_eq!(&index[..n], &[0, 0, 2, 2]);
}

#[test]
fn addressed_entry_set_overflow_collision_and_reuse_are_exact_cg_16() {
    let mut seen = [0usize; 4];
    let mut occupied = [0usize; 2];
    let mut set = EntrySet { seen: &mut seen, occupied: &mut occupied, used: 0 };
    assert!(
        set.collect::<i8, Full<i8>, Symbols<8>>(&[0, 1, 2]).is_none(),
        "the third distinct coordinate exceeds the offered occupied run"
    );
    assert!(set.seen.iter().all(|&entry| entry == 0));
    let count = set
        .collect::<i8, Full<i8>, Symbols<8>>(&[3, 3])
        .expect("the cleared set is immediately reusable");
    assert_eq!(set.collected(count), &[3]);
    set.release_collected();

    let mut colliding_seen = [0usize; 8];
    let mut colliding_occupied = [0usize; 4];
    let mut colliding =
        EntrySet { seen: &mut colliding_seen, occupied: &mut colliding_occupied, used: 0 };
    assert!(matches!(colliding.insert(1), EntryInsert::New));
    assert!(matches!(colliding.insert(9), EntryInsert::New));
    assert!(matches!(colliding.insert(17), EntryInsert::New));
    assert!(matches!(colliding.insert(9), EntryInsert::Present));
    assert_eq!(
        (0..colliding.len()).map(|at| colliding.index(at)).collect::<Vec<_>>(),
        [1, 9, 17]
    );
    colliding.clear();
    assert!(colliding.seen.iter().all(|&entry| entry == 0));
}

#[test]
fn the_predicate_is_the_derivation_cm_04() {
    let lane = core::mem::size_of::<i32>();
    let l1 = blocking::L1_BYTES;
    let rows = ROW_TILES
        .into_iter()
        .find(|&r| r <= tabulation_rows(256, l1, lane))
        .expect("a 256-entry table fits L1 at some tile");
    let steps = |block: usize| Steps {
        table: block * (256 / 8 / core::mem::size_of::<i32>()),
        dense: blocking::KERNEL_PRODUCTS_PER_STEP,
        dense_rows: blocking::KERNEL_ROWS,
    };
    assert!(tabulation_pays(256, 8, 683, rows, steps(8), l1, lane));
    assert!(!tabulation_pays(256, 8, 682, rows, steps(8), l1, lane));
    assert_eq!(steps(2).table, blocking::KERNEL_PRODUCTS_PER_STEP);
    assert!(!tabulation_pays(256, 2, usize::MAX, rows, steps(2), l1, lane));
    assert!(!tabulation_pays(16, 1, usize::MAX, rows, steps(1), l1, lane));
    assert!(!tabulation_pays(1 << 16, 8, usize::MAX, 1, steps(8), l1, lane));
    assert_eq!(tabulation_rows(1 << 16, l1, lane), 0);
    assert!(!tabulation_fits(0, 1, l1, lane));

    let reference = Steps {
        table: 8,
        dense: blocking::KERNEL_PRODUCTS_PER_STEP,
        dense_rows: blocking::KERNEL_ROWS,
    };
    assert!(!tabulation_pays(256, 8, usize::MAX, rows, reference, l1, lane));
    let vnni = Steps {
        table: 8 * 8,
        dense: 4 * blocking::KERNEL_PRODUCTS_PER_STEP,
        dense_rows: blocking::KERNEL_ROWS,
    };
    assert!(!tabulation_pays(256, 8, usize::MAX, rows, vnni, l1, lane));
}

#[test]
fn the_private_planner_prices_build_density_without_saturation_cm_04() {
    for a in [0usize, 1, 2, 7, 16] {
        for b in [0usize, 1, 2, 7, 16] {
            for c in [0usize, 1, 2, 7, 16] {
                for x in [0usize, 1, 2, 7, 16] {
                    for y in [0usize, 1, 2, 7, 16] {
                        for z in [0usize, 1, 2, 7, 16] {
                            assert_eq!(
                                CostProduct::of(a, b, c).greater_than(CostProduct::of(x, y, z)),
                                (a as u128) * (b as u128) * (c as u128)
                                    > (x as u128) * (y as u128) * (z as u128)
                            );
                        }
                    }
                }
            }
        }
    }
    assert!(CostProduct::of(usize::MAX, usize::MAX, usize::MAX).greater_than(CostProduct::of(
        usize::MAX,
        usize::MAX,
        usize::MAX - 1
    )));
    assert!(!CostProduct::of(usize::MAX, usize::MAX - 1, usize::MAX)
        .greater_than(CostProduct::of(usize::MAX, usize::MAX, usize::MAX)));

    let mut spec = portable_table(1, 1, i32::MAX as u128, Sequence::Lookup);
    let steps = Steps { table: 4, dense: 1, dense_rows: 1 };
    let lane = core::mem::size_of::<i32>();
    spec.build_products_per_step = 1;
    assert!(
        !tabulation_pays_for_spec(16, 4, 11, 1, steps, usize::MAX, lane, &spec),
        "3*11 does not repay a 16-code build at q=1"
    );
    spec.build_products_per_step = 2;
    assert!(
        tabulation_pays_for_spec(16, 4, 11, 1, steps, usize::MAX, lane, &spec),
        "6*11 repays the same build at q=2"
    );
    spec.build_products_per_step = 0;
    assert!(!tabulation_pays_for_spec(16, 4, usize::MAX, 1, steps, usize::MAX, lane, &spec));
}

#[test]
fn a_coded_matrix_is_refused_where_its_codes_do_not_describe_it() {
    let cells = [[Alphabet::of(1i8), Alphabet::of(-2i8)]; 4];
    let book: Book<'_, i8, Full<i8>, 4, 2, u16> = Book::new(&cells);
    assert!(CodedMatrix::new(book, 2, 4, &[0u16, 1, 2, 3]).is_some());
    assert!(CodedMatrix::new(book, 2, 3, &[0u16, 1, 2]).is_none());
    assert!(CodedMatrix::new(book, 2, 4, &[0u16, 1, 2]).is_none());
}

#[test]
fn accumulators_ignore_the_depth_and_lanes_settle() {
    let shape = |k: usize| Shape { m: 16, k, n: 100 };
    let totals = |k: usize| suggested_tabulation::<i8, Full<i8>>(shape(k), 256, 8);
    let lanes = |k: usize| suggested_tabulation_lanes::<i8, Full<i8>>(shape(k), 256, 8);
    assert_eq!(totals(8), 16 * 100);
    assert_eq!(totals(8), totals(4096));
    assert!(lanes(8) < lanes(4096));
    assert_eq!(lanes(4096), lanes(1 << 20));
    assert_eq!(suggested_tabulation_lanes::<i64, Full<i64>>(shape(64), 16, 4), 0);
    assert_eq!(suggested_tabulation::<i8, Full<i8>>(shape(64), 0, 8), 0);
}

#[test]
fn the_break_even_is_one() {
    let steps = Steps { table: 64, dense: 16, dense_rows: 4 };
    let paying: Vec<bool> = (0..2000)
        .map(|cols| tabulation_pays(256, 8, cols, 16, steps, blocking::L1_BYTES, 4))
        .collect();
    let first = paying.iter().position(|&p| p).expect("it pays somewhere");
    assert!(paying[first..].iter().all(|&p| p));
    assert_eq!(first, 683);
    for (cols, &pays) in paying.iter().enumerate() {
        assert_eq!(pays, (256 * 8 + cols) * 16 < cols * 64);
    }
}
