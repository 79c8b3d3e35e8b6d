use tabulated_gemm::book::decode_book;
use tabulated_gemm::books::Book;
use tabulated_gemm::census::Census;
use tabulated_gemm::codec::CodedMatrix;
use tabulated_gemm::element::{Alphabet, Full};
use tabulated_gemm::epilogue::{EncodeMode, Linear};
use tabulated_gemm::plan::Plan;
use tabulated_gemm::rows::row_tile;
use tabulated_gemm::scale::LaneScale;
use tabulated_gemm::scratch::Scratch;
use tabulated_gemm::sequence::{portable_table, Sequence};
use tabulated_gemm::table::Table;
use tabulated_gemm::tabulate::{tabulate, Direct};
use tabulated_gemm::tile::Tile;
use tabulated_gemm::triple::{GemmOptions, TabulatedTriple};
use tabulated_gemm::view::{MatView, MatViewMut};
use tabulated_gemm::workspace::{column_workspace, ColumnMap};

type A8 = Alphabet<i8, Full<i8>>;

fn drawn(values: &[i8]) -> Vec<A8> {
    values.iter().map(|&x| Alphabet::of(x)).collect()
}

#[test]
fn a_row_tile_leaves_the_totals_of_its_last_block_of_columns() {
    let table = [1i8, 2, 3, 4].map(|x| [Alphabet::<i8, Full<i8>>::of(x)]);
    let grid: Book<'_, i8, Full<i8>, 4, 1, u16> = Book::new(&table);
    let codes = [0u16, 1, 2, 3, 1, 0, 1, 0];
    let w = CodedMatrix::new(grid, 4, 2, &codes).unwrap();
    let cells = drawn(&[5, 7]);
    let a = MatView::row_major(&cells, 1, 2).unwrap();
    let mut c = [0i32; 4];
    let (mut exact, mut lane, mut words) = ([99i128; 2], [0i32; 2], [0i32; 4]);
    let mut acts = [0i8];
    let mut census = Census::default();
    let spec = portable_table(1, 1, 0x7fff_ffff, Sequence::Lookup);
    {
        let out = MatViewMut::row_major(&mut c, 1, 4).unwrap();
        let mut triple = TabulatedTriple::new(a, w, out).ok().unwrap();
        let tile = Tile {
            a,
            w,
            scale: LaneScale::integral(128),
            row0: 0,
            rows: 1,
            book: &[1i8, 2, 3, 4],
            projected: &[],
            projected_rows: 0,
        };
        row_tile(
            &mut triple,
            &Linear::Overwrite,
            EncodeMode::Nearest,
            &mut exact,
            &mut lane,
            &mut Table::new(&mut words, 4, 1, 1).unwrap(),
            &tile,
            &spec,
            &spec,
            &mut acts,
            Some(ColumnMap { first: &[0, 1, 0, 0], identity: &[1, 0] }),
            &mut None,
            Plan { rows: 1, cols: 2, depth: 1 },
            false,
            1,
            &mut census,
        );
    }
    assert_eq!(c, [19, 43, 17, 17]);
    assert_eq!(exact, [17, 17]);
    assert_eq!(census.table_reads, 6);
}

#[test]
fn a_map_of_columns_writes_its_own_words_and_marks_and_no_others() {
    let marker = usize::MAX - 7;
    let mut index = vec![marker; 19];
    index[..3].copy_from_slice(&[0, 0, 2]);
    {
        let (map, entries) = column_workspace(&mut index, 3, 2, true, false);
        let map = map.unwrap();
        assert_eq!(map.first, [0, 0, 0]);
        assert_eq!(map.identity, [0, 1]);
        assert!(entries.is_none());
    }
    assert_eq!(index[..3], [0, 0, 0]);
    assert!(index[6..11].iter().all(|&word| word == marker));
    assert_eq!(index[11..13], [0, 1]);
    assert!(index[13..].iter().all(|&word| word == marker));
}

#[test]
fn words_without_repeats_need_no_width_and_marks_may_be_any_slot() {
    let mut index = [9usize; 19];
    let (map, entries) = column_workspace(&mut index, 3, 0, false, true);
    assert!(map.is_none() && entries.is_some());
    let mut few = [9usize; 3];
    let (map, entries) = column_workspace(&mut few, 3, 0, true, true);
    assert!(map.is_none() && entries.is_none());
    assert_eq!(few, [9; 3]);

    let mut index = [9usize; 19];
    index[..3].copy_from_slice(&[7, 4, 7]);
    {
        let (map, _) = column_workspace(&mut index, 3, 3, true, false);
        let map = map.unwrap();
        assert_eq!((map.first, map.identity), (&[0usize, 1, 0][..], &[0usize][..]));
    }
    assert!([3, 4, 5, 6, 8, 9].iter().all(|&q| index[q] == 9), "only marked slots are written");
}

fn pairs() -> [[A8; 2]; 4] {
    [[1i8, -2], [3, -4], [5, -6], [7, -8]].map(|entry| entry.map(Alphabet::of))
}

#[test]
fn a_whole_book_is_decoded_and_the_cells_past_it_are_kept() {
    let table = pairs();
    let book: Book<'_, i8, Full<i8>, 4, 2, u16> = Book::new(&table);
    let codes = [2u16];
    let w = CodedMatrix::new(book, 1, 2, &codes).unwrap();
    let want = [1i8, -2, 3, -4, 5, -6, 7, -8];
    for (twice, decodes) in [(false, 8u64), (true, 16)] {
        let mut panel = [99i8; 43];
        let mut census = Census::default();
        assert!(decode_book(&w, &mut panel, 0, None, twice, &mut census));
        assert_eq!(panel[..8], want);
        assert!(panel[8..].iter().all(|&cell| cell == 99));
        assert_eq!(census, Census { decodes, ..Census::default() });
    }
    let mut panel = [99i8; 39];
    let mut census = Census::default();
    assert!(!decode_book(&w, &mut panel, 0, None, true, &mut census));
    assert_eq!(panel, [99i8; 39]);
    assert_eq!(census, Census::default());
}

#[test]
fn a_sparse_book_is_decoded_only_where_it_is_named() {
    let table = [10i8, 11, 12, 13, 14, 15, 16, 17].map(|x| [Alphabet::<i8, Full<i8>>::of(x)]);
    let book: Book<'_, i8, Full<i8>, 8, 1, u8> = Book::new(&table);
    let codes = [6u8, 1];
    let w = CodedMatrix::new(book, 1, 2, &codes).unwrap();
    let mut panel = [99i8; 24];
    let mut census = Census::default();
    assert!(decode_book(&w, &mut panel, 0, None, false, &mut census));
    assert_eq!(panel[..8], [99, 11, 99, 99, 99, 99, 16, 99]);
    assert!(panel[8..].iter().all(|&cell| cell == 99));
    assert_eq!(census.decodes, 2);

    let mut panel = [99i8; 24];
    let mut census = Census::default();
    assert!(decode_book(&w, &mut panel, 0, Some(&[1, 6, 3]), true, &mut census));
    assert_eq!(panel[..8], [99, 11, 99, 13, 99, 99, 16, 99]);
    assert!(panel[8..].iter().all(|&cell| cell == 99));
    assert_eq!(census.decodes, 6);
}

/// A product of three rows in three blocks of columns, with `lent` cells past
/// the book and a tile.
fn projected(lent: usize) -> ([i32; 15], Census) {
    let table = pairs();
    let book: Book<'_, i8, Full<i8>, 4, 2, u16> = Book::new(&table);
    let codes = [0u16, 1, 2, 3, 1, 1, 3, 0, 2, 2];
    let w = CodedMatrix::new(book, 5, 4, &codes).unwrap();
    let cells = drawn(&[1, 2, 3, 4, -5, 6, -7, 8, 9, -10, 11, -12]);
    let a = MatView::row_major(&cells, 3, 4).unwrap();
    let mut c = [0i32; 15];
    let mut panel = vec![0i8; 40 + lent];
    let scale = LaneScale::integral(128);
    assert!(decode_book(&w, &mut panel, scale.base_b, None, false, &mut ()));
    let mut census = Census::default();
    {
        let out = MatViewMut::row_major(&mut c, 3, 5).unwrap();
        let mut triple = TabulatedTriple::new(a, w, out).ok().unwrap();
        tabulate::<_, _, _, _, _, _, Direct, _>(
            &mut triple,
            &Linear::Overwrite,
            GemmOptions::default(),
            &mut [0i128; 4],
            &mut [0i32; 12],
            &mut panel,
            None,
            &mut None,
            Plan { rows: 2, cols: 2, depth: 1 },
            scale,
            true,
            false,
            &mut census,
        );
    }
    (c, census)
}

#[test]
fn lent_rows_are_graded_once_for_the_call() {
    let (bare, lent) = (projected(0), projected(12));
    assert_eq!(bare.0, lent.0);
    // The first row is 1 2 3 4, and the first column 1 -2 3 -4.
    assert_eq!(bare.0[0], 1 - 4 + 9 - 16);
    assert_eq!(lent.1.decodes, 12);
    assert_eq!(bare.1.decodes, 12 + 12 * 2);
    assert_eq!(bare.1.table_reads, 3 * 5 * 2);
    assert_eq!(Census { decodes: 0, ..bare.1 }, Census { decodes: 0, ..lent.1 });
}

#[test]
fn scratch_lends_the_cells_it_holds() {
    let mut cells = [1i8, 2, 3, 4, 5];
    let mut scratch: Scratch<'_, i8> = Scratch::new(&mut cells);
    assert_eq!(*scratch.take(2), [1, 2]);
    assert_eq!(*scratch.take(9), [1, 2, 3, 4, 5]);
    let (head, rest) = scratch.split_panel(3);
    assert_eq!((&*head, &*rest), (&[1i8, 2, 3][..], &[4i8, 5][..]));
    rest[1] = 9;
    assert_eq!(cells, [1, 2, 3, 4, 9]);
}
