use tabulated_gemm::blocking;
use tabulated_gemm::books::Book;
use tabulated_gemm::census::{Census, Ledger};
use tabulated_gemm::codec::{AddressedCodec, CodedMatrix, Enumerable, ScalarCodec};
use tabulated_gemm::collapse::{compact, distinct_rows, suggested_collapse_index};
use tabulated_gemm::element::{Alphabet, Bnd, Bound, Full, Whole};
use tabulated_gemm::epilogue::{EncodeMode, Linear};
use tabulated_gemm::family::Tabulated;
use tabulated_gemm::gemm::{
    gemm_tabulated, gemm_tabulated_counted, suggested_tabulation, suggested_tabulation_lanes,
};
use tabulated_gemm::lane::Lane;
use tabulated_gemm::scratch::{Collapse, Scratch, Tabulation};
use tabulated_gemm::sequence::{Backend, Host};
use tabulated_gemm::sizing::{suggested_tabulation_index, suggested_tabulation_panel, Shape};
use tabulated_gemm::triple::{GemmOptions, NotAProduct, TabulatedTriple, Traversal};
use tabulated_gemm::view::{MatView, MatViewMut, Strides};

/// Four symbols, one per code.
fn grid<Bd: Bound>() -> [[Alphabet<i8, Bd>; 1]; 4] {
    [-3, 2, 5, -7].map(|x| [Alphabet::new(x).unwrap()])
}

fn drawn<Bd: Bound>(values: &[i8]) -> Vec<Alphabet<i8, Bd>> {
    values.iter().map(|&x| Alphabet::new(x).unwrap()).collect()
}

#[test]
fn a_declined_first_partial_preserves_the_ordinary_stream_cd_20() {
    let table = grid::<Whole<i8>>();
    let codec: Book<'_, i8, Whole<i8>, 4, 1, u16> = Book::new(&table);
    let (m, k, n) = (1usize, 3usize, 2usize);
    let codes = [0u16, 1, 2, 3, 0, 1];
    let weights = CodedMatrix::new(codec, n, k, &codes).unwrap();
    let activations = drawn::<Whole<i8>>(&[4, -2, 3]);
    let mut c = [11i32, -13];
    let mut one = [0i8; 1];
    let mut census = Census::default();
    {
        let a = MatView::row_major(&activations, m, k).unwrap();
        let out = MatViewMut::row_major(&mut c, m, n).unwrap();
        let mut triple = TabulatedTriple::new(a, weights, out).ok().unwrap();
        gemm_tabulated_counted(
            &mut triple,
            &Linear::Accumulate,
            GemmOptions { traversal: Traversal::Tabulated, ..Default::default() },
            &mut Scratch::new(&mut one),
            &mut Tabulation::none(),
            &mut Collapse::none(),
            &mut census,
        );
    }
    assert_eq!(c, [11 + 4 * -3 + -2 * 2 + 3 * 5, -13 + 4 * -7 + -2 * -3 + 3 * 2]);
    assert_eq!(census.kernel_calls, 1, "the one call that was declined is counted");
    assert_eq!(census.multiplies, (m * k * n) as u64);
}

/// A product of one row and one column, streamed.
fn streamed<Bd: Bound>(c: &mut [i32], epilogue: Linear) -> Census {
    let table = grid::<Bd>();
    let codec: Book<'_, i8, Bd, 4, 1, u16> = Book::new(&table);
    let weights = CodedMatrix::new(codec, 1, 3, &[0u16, 1, 2]).unwrap();
    let activations = drawn::<Bd>(&[4, -2, 3]);
    let mut census = Census::default();
    let a = MatView::row_major(&activations, 1, 3).unwrap();
    let out = MatViewMut::row_major(c, 1, 1).unwrap();
    let mut triple = TabulatedTriple::new(a, weights, out).ok().unwrap();
    gemm_tabulated_counted(
        &mut triple,
        &epilogue,
        GemmOptions { traversal: Traversal::OutputMajor, ..Default::default() },
        &mut Scratch::none(),
        &mut Tabulation::none(),
        &mut Collapse::none(),
        &mut census,
    );
    census
}

#[test]
fn a_finite_integer_bound_does_not_pay_dense_acceptance_cd_20() {
    let mut c = [11i32];
    let census = streamed::<Full<i8>>(&mut c, Linear::Accumulate);
    assert_eq!(c, [11 + 4 * -3 + -2 * 2 + 3 * 5]);
    assert_eq!(census.kernel_calls, 0);
    assert_eq!(census.multiplies, 3);
}

#[test]
fn a_zero_capacity_public_stream_lane_is_total_ct_01() {
    assert_eq!(<i32 as Lane<i8>>::capacity(65536), Some(0));
    let mut c = [0i32];
    let census = streamed::<Bnd<65536>>(&mut c, Linear::Overwrite);
    assert_eq!(c, [4 * -3 + -2 * 2 + 3 * 5]);
    assert_eq!(census.multiplies, 3);
    assert_eq!(census.kernel_calls, 0);

    let table = grid::<Bnd<65536>>();
    let codec: Book<'_, i8, Bnd<65536>, 4, 1, u16> = Book::new(&table);
    let empty_weights = CodedMatrix::new(codec, 1, 0, &[]).unwrap();
    let mut empty = [17i32];
    let mut empty_census = Census::default();
    {
        let none: [Alphabet<i8, Bnd<65536>>; 0] = [];
        let a = MatView::row_major(&none, 1, 0).unwrap();
        let output = MatViewMut::row_major(&mut empty, 1, 1).unwrap();
        let mut triple = TabulatedTriple::new(a, empty_weights, output).ok().unwrap();
        gemm_tabulated_counted(
            &mut triple,
            &Linear::Accumulate,
            GemmOptions { traversal: Traversal::OutputMajor, ..Default::default() },
            &mut Scratch::none(),
            &mut Tabulation::none(),
            &mut Collapse::none(),
            &mut empty_census,
        );
    }
    assert_eq!(empty, [17]);
    assert_eq!(empty_census.multiplies, 0);
    assert_eq!(empty_census.kernel_calls, 0);
}

#[test]
fn an_integer_family_declines_an_empty_rest_and_writes_nothing() {
    let a8 = [Alphabet::<i8, Full<i8>>::of(2i8)];
    let b8 = [3i8];
    let mut c8 = [41i32];
    let mut out = MatViewMut::row_major(&mut c8, 1, 1).unwrap();
    assert!(!<i8 as Tabulated>::dense_gemm(
        &MatView::row_major(&a8, 1, 1).unwrap(),
        &MatView::row_major(&b8, 1, 1).unwrap(),
        &mut out,
        &Linear::Overwrite,
        GemmOptions::default(),
        &mut [],
    ));
    assert_eq!(c8, [41]);
    let mut out = MatViewMut::row_major(&mut c8, 1, 1).unwrap();
    assert!(<i8 as Tabulated>::dense_gemm(
        &MatView::row_major(&a8, 1, 1).unwrap(),
        &MatView::row_major(&b8, 1, 1).unwrap(),
        &mut out,
        &Linear::Overwrite,
        GemmOptions::default(),
        &mut [0i8],
    ));
    assert_eq!(c8, [6]);
}

#[test]
fn operands_that_are_no_product_are_told_apart() {
    let cells = drawn::<Full<i8>>(&[1, 2, 3, 4]);
    let table = [[Alphabet::<i8, Full<i8>>::of(1i8)]; 2];
    let book: Book<'_, i8, Full<i8>, 2, 1, u8> = Book::new(&table);
    let w = CodedMatrix::new(book, 2, 2, &[0u8, 1, 1, 0]).unwrap();
    let mut c = [0i16; 9];
    let a = MatView::row_major(&cells, 2, 2).unwrap();
    let out = MatViewMut::row_major(&mut c, 3, 2).unwrap();
    assert_eq!(
        TabulatedTriple::new(a, w, out).err().unwrap(),
        NotAProduct::Nonconformant { a: (2, 2), b: (2, 2) }
    );
    let out = MatViewMut::new(&mut c, 2, 2, Strides { rs: 1, cs: 1 }).unwrap();
    assert_eq!(
        TabulatedTriple::new(a, w, out).err().unwrap(),
        NotAProduct::OutputAliasesItself { m: 2, n: 2, rs: 1, cs: 1 }
    );
    let out = MatViewMut::row_major(&mut c, 2, 2).unwrap();
    assert!(TabulatedTriple::new(a, w, out).is_ok());
}

/// A product of blocks of one, by tables, with and without words of index.
fn blocks_of_one(codes: &[u8], m: usize, k: usize, n: usize, index: usize) -> (Vec<i64>, Census) {
    let table: Vec<[Alphabet<i16, Full<i16>>; 1]> =
        (0..256).map(|c| [Alphabet::of((c * 97 % 30011) as i16 - 15000)]).collect();
    let table: &[[Alphabet<i16, Full<i16>>; 1]; 256] = table.as_slice().try_into().unwrap();
    let book: Book<'_, i16, Full<i16>, 256, 1, u8> = Book::new(table);
    let w = CodedMatrix::new(book, n, k, codes).unwrap();
    let cells: Vec<Alphabet<i16, Full<i16>>> =
        (0..m * k).map(|x| Alphabet::of((x * 211 % 32749) as i16 - 16000)).collect();
    let shape = Shape { m, k, n };
    let mut totals = vec![0i128; suggested_tabulation::<i16, Full<i16>>(shape, 256, 1)];
    let mut lanes = vec![0i64; suggested_tabulation_lanes::<i16, Full<i16>>(shape, 256, 1)];
    let mut ids = vec![0usize; index];
    let mut panel = vec![0i16; suggested_tabulation_panel(256, 1)];
    let mut c = vec![0i64; m * n];
    let mut census = Census::default();
    let mut want = vec![0i64; m * n];
    for i in 0..m {
        for j in 0..n {
            for p in 0..k {
                want[i * n + j] +=
                    i64::from(cells[i * k + p].get()) * i64::from(w.at(j, p).get());
            }
        }
    }
    {
        let a = MatView::row_major(&cells, m, k).unwrap();
        let out = MatViewMut::row_major(&mut c, m, n).unwrap();
        let mut triple = TabulatedTriple::new(a, w, out).ok().unwrap();
        gemm_tabulated_counted(
            &mut triple,
            &Linear::Overwrite,
            GemmOptions { traversal: Traversal::Tabulated, ..Default::default() },
            &mut Scratch::with_accumulators(&mut panel, &mut totals),
            &mut Tabulation::with_index(&mut lanes, &mut ids),
            &mut Collapse::none(),
            &mut census,
        );
    }
    assert_eq!(c, want, "{census:?}");
    (c, census)
}

#[test]
fn blocks_of_one_build_the_entries_that_are_named_and_no_others() {
    let (_, census) = blocks_of_one(&[231], 1, 1, 1, 0);
    assert_eq!((census.multiplies, census.adds, census.table_reads, census.decodes), (1, 1, 1, 1));

    let codes = [9u8, 9, 9, 9];
    let (_, without) = blocks_of_one(&codes, 1, 1, 4, 0);
    assert_eq!((without.multiplies, without.table_reads, without.decodes), (4, 4, 4));
    let index = suggested_tabulation_index(Shape { m: 1, k: 1, n: 4 });
    let (_, with) = blocks_of_one(&codes, 1, 1, 4, index);
    assert_eq!((with.multiplies, with.table_reads, with.decodes), (1, 1, 1));
    let (_, short) = blocks_of_one(&codes, 1, 1, 4, 1);
    assert_eq!((short.multiplies, short.table_reads), (4, 4));
}

#[test]
fn entries_shared_between_columns_are_built_once_in_each_slot() {
    let codes = [1u8, 2, 1, 3, 1, 2, 4, 2];
    let (m, k, n) = (2usize, 2usize, 4usize);
    let index = suggested_tabulation_index(Shape { m, k, n });
    let (_, census) = blocks_of_one(&codes, m, k, n, index);
    assert_eq!(census.table_reads, (m * k * 3) as u64, "one column of the four repeats");
    assert_eq!(census.multiplies, (m * (2 + 2)) as u64, "two entries named in each slot");
    assert_eq!(census.decodes, 4, "four entries named in all");
}

#[test]
fn equal_rows_are_numbered_by_first_occurrence_and_kept_once() {
    let cells = drawn::<Full<i8>>(&[1, 2, 3, 4, 1, 2, 5, 6, 3, 4]);
    let a = MatView::row_major(&cells, 5, 2).unwrap();
    let mut index = vec![0usize; suggested_collapse_index(5)];
    assert_eq!(distinct_rows(&a, &mut index), Some(3));
    assert_eq!(&index[..5], &[0, 1, 0, 2, 1]);
    let mut rows = drawn::<Full<i8>>(&[0; 6]);
    assert!(!compact(&a, &index, &mut rows[..5], 3));
    assert!(compact(&a, &index, &mut rows, 3));
    let kept: Vec<i8> = rows.iter().map(|x| x.get()).collect();
    assert_eq!(kept, [1, 2, 3, 4, 5, 6]);
    let mut short = vec![0usize; suggested_collapse_index(5) - 1];
    assert_eq!(distinct_rows(&a, &mut short), None);
}

#[test]
fn addressed_and_scalar_views_of_a_book_decode_its_entries() {
    let table: [[Alphabet<i8, Full<i8>>; 2]; 3] =
        [[1, 2], [3, 4], [5, 6]].map(|e| e.map(Alphabet::of));
    let book: Book<'_, i8, Full<i8>, 3, 2, u8> = Book::new(&table);
    let addressed = AddressedCodec(book);
    type Addressed<'t> = AddressedCodec<Book<'t, i8, Full<i8>, 3, 2, u8>>;
    assert_eq!(addressed.decode_element(2, 0).get(), 5);
    assert_eq!(<Addressed<'_> as Enumerable<i8, Full<i8>>>::index_of(2), 2);
    let second = ScalarCodec { codec: &book, coordinate: 1 };
    assert_eq!(second.decode_element(1, 0).get(), 4);
    assert_eq!(book.decode_element(4, 1).get(), 4, "codes wrap around the book");
}

#[test]
fn modes_clamp_or_wrap_and_nothing_else_moves_the_result() {
    let cells = drawn::<Full<i8>>(&[127; 4]);
    let table = [[Alphabet::<i8, Full<i8>>::of(127i8), Alphabet::of(126i8)]; 2];
    let book: Book<'_, i8, Full<i8>, 2, 2, u16> = Book::new(&table);
    let w = CodedMatrix::new(book, 1, 4, &[0u16, 1]).unwrap();
    let total = 127i32 * (127 + 126 + 127 + 126);
    for (mode, want) in [
        (EncodeMode::Nearest, 127i8),
        (EncodeMode::TowardZero, 127),
        (EncodeMode::Saturating, 127),
        (EncodeMode::Wrapping, total as i8),
    ] {
        for traversal in [Traversal::Tabulated, Traversal::Blocked, Traversal::OutputMajor] {
            let mut c = [0i8];
            let a = MatView::row_major(&cells, 1, 4).unwrap();
            let out = MatViewMut::row_major(&mut c, 1, 1).unwrap();
            let mut triple = TabulatedTriple::new(a, w, out).ok().unwrap();
            gemm_tabulated(
                &mut triple,
                &Linear::Overwrite,
                GemmOptions { traversal, encode: mode, ..Default::default() },
                &mut Scratch::with_accumulators(&mut [0i8; 64], &mut [0i128; 8]),
                &mut Tabulation::new(&mut [0i64; 64]),
                &mut Collapse::none(),
            );
            assert_eq!(c, [want], "{mode:?} {traversal:?}");
        }
    }
}

#[test]
fn a_census_saturates_and_the_empty_ledger_holds_nothing() {
    let mut census = Census { adds: u64::MAX - 1, ..Default::default() };
    census.added(1);
    census.added(5);
    census.multiplied(2);
    census.read(3);
    census.decoded(4);
    census.kernelled();
    assert_eq!(census.adds, u64::MAX);
    assert_eq!(
        (census.multiplies, census.table_reads, census.decodes, census.kernel_calls),
        (2, 3, 4, 1)
    );
    let mut nothing = ();
    nothing.multiplied(7);
    assert_eq!(nothing, ());
}

#[test]
fn each_family_declares_the_dense_step_that_its_own_sequence_covers() {
    let plain = Host::plain();
    let neon = Host { neon: true, ..plain };
    let dot = Host { dotprod: true, ..neon };
    fn dense<E: Tabulated>(backend: Backend, host: Host) -> usize {
        let steps = E::dense_steps(backend, host, 7, 4, 32);
        assert_eq!((steps.table, steps.dense_rows), (32, blocking::KERNEL_ROWS));
        steps.dense
    }
    let auto = Backend::Auto;
    assert_eq!([plain, neon, dot].map(|host| dense::<i8>(auto, host)), [1, 8, 16]);
    assert_eq!([plain, neon, dot].map(|host| dense::<i16>(auto, host)), [1, 1, 1]);
    assert_eq!([plain, neon, dot].map(|host| dense::<i32>(auto, host)), [1, 2, 2]);
    assert_eq!([plain, neon, dot].map(|host| dense::<i64>(auto, host)), [1, 1, 1]);
    assert_eq!(dense::<i8>(Backend::Neon, dot), 8);
    assert_eq!(dense::<i32>(Backend::Portable, dot), 1);
    assert_eq!(dense::<i32>(Backend::NeonDotprod, dot), 1);
    let avx2 = Host { avx2: true, ..plain };
    assert_eq!(dense::<i8>(auto, avx2), blocking::KERNEL_PRODUCTS_PER_STEP);
}
