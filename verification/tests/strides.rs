use tabulated_gemm::books::Book;
use tabulated_gemm::codec::CodedMatrix;
use tabulated_gemm::element::{Alphabet, Full};
use tabulated_gemm::epilogue::Linear;
use tabulated_gemm::gemm::gemm_tabulated;
use tabulated_gemm::scratch::{Collapse, Scratch, Tabulation};
use tabulated_gemm::triple::{GemmOptions, NotAProduct, TabulatedTriple, Traversal};
use tabulated_gemm::view::{MatView, MatViewMut, Strides};

type A8 = Alphabet<i8, Full<i8>>;

const TRAVERSALS: [Traversal; 3] =
    [Traversal::Tabulated, Traversal::Blocked, Traversal::OutputMajor];

fn drawn(values: &[i8]) -> Vec<A8> {
    values.iter().map(|&x| Alphabet::of(x)).collect()
}

/// The cells of a view, row after row.
fn cells(view: &MatView<'_, i8>) -> Vec<i8> {
    (0..view.rows).flat_map(|i| (0..view.cols).map(move |j| *view.at(i, j))).collect()
}

#[test]
fn strides_lead_up_down_and_nowhere() {
    let data = [1i8, 2, 3, 4, 5, 6];
    let view = |rows, cols, rs, cs| MatView::new(&data, rows, cols, Strides { rs, cs });
    assert_eq!(cells(&view(2, 3, 3, 1).unwrap()), [1, 2, 3, 4, 5, 6]);
    assert_eq!(cells(&view(2, 3, 3, -1).unwrap()), [3, 2, 1, 6, 5, 4]);
    assert_eq!(cells(&view(2, 3, -3, 1).unwrap()), [4, 5, 6, 1, 2, 3]);
    assert_eq!(cells(&view(2, 3, -3, -1).unwrap()), [6, 5, 4, 3, 2, 1]);
    assert_eq!(cells(&view(3, 2, 1, 3).unwrap()), [1, 4, 2, 5, 3, 6]);
    assert_eq!(cells(&view(3, 2, 0, -1).unwrap()), [2, 1, 2, 1, 2, 1]);
    assert!(view(2, 4, -3, 1).is_none());
    assert!(view(2, 1, isize::MIN, 1).is_none());
    assert!(view(isize::MAX as usize, 3, -2, -2).is_none());
    assert!(view(0, 9, isize::MIN, isize::MIN).is_some());
}

#[test]
fn rectangles_and_rows_of_a_reversed_view_are_its_own() {
    let data = [1i8, 2, 3, 4, 5, 6];
    let view = MatView::new(&data, 2, 3, Strides { rs: -3, cs: -1 }).unwrap();
    let part = view.subview(1, 1, 1, 2).unwrap();
    assert_eq!(cells(&part), [2, 1]);
    assert!(part.row_slice(0).is_none());
    assert!(view.subview(1, 1, 1, 3).is_none());
    let flipped = MatView::new(&data, 2, 3, Strides { rs: -3, cs: 1 }).unwrap();
    assert_eq!(flipped.row_slice(0).unwrap(), [4, 5, 6]);
    assert_eq!(flipped.row_slice(1).unwrap(), [1, 2, 3]);
}

#[test]
fn cells_that_share_a_place_are_found_in_every_direction() {
    let shares = |rs, cs| Strides { rs, cs }.self_aliases(2, 3);
    assert!(!shares(3, 1) && !shares(-3, 1) && !shares(3, -1) && !shares(-3, -1));
    assert!(shares(2, 1) && shares(-2, 1) && shares(2, -1) && shares(-2, -1));
    assert!(shares(0, 1) && shares(3, 0));
    assert!(!shares(isize::MIN, isize::MAX) && shares(isize::MIN, isize::MIN));

    let table = [[Alphabet::<i8, Full<i8>>::of(1i8)]];
    let book: Book<'_, i8, Full<i8>, 1, 1, u8> = Book::new(&table);
    let w = CodedMatrix::new(book, 3, 1, &[0u8; 3]).unwrap();
    let activations = drawn(&[1, 2]);
    let a = MatView::row_major(&activations, 2, 1).unwrap();
    let mut c = [0i32; 6];
    let out = MatViewMut::new(&mut c, 2, 3, Strides { rs: 2, cs: -1 }).unwrap();
    assert_eq!(
        TabulatedTriple::new(a, w, out).err(),
        Some(NotAProduct::OutputAliasesItself { m: 2, n: 3, rs: 2, cs: -1 })
    );
}

/// The product of two activation rows with two columns, `out` cells apart.
fn product(a: MatView<'_, A8>, out: Strides, traversal: Traversal) -> [i32; 6] {
    let table = [[1i8, 2, 3], [-4, 5, -6]].map(|entry| entry.map(Alphabet::of));
    let book: Book<'_, i8, Full<i8>, 2, 3, u8> = Book::new(&table);
    let w = CodedMatrix::new(book, 2, 3, &[0u8, 1]).unwrap();
    let mut c = [77i32; 6];
    let view = MatViewMut::new(&mut c, 2, 2, out).unwrap();
    let mut triple = TabulatedTriple::new(a, w, view).ok().unwrap();
    gemm_tabulated(
        &mut triple,
        &Linear::Overwrite,
        GemmOptions { traversal, ..Default::default() },
        &mut Scratch::with_accumulators(&mut [0i8; 128], &mut [0i128; 16]),
        &mut Tabulation::new(&mut [0i64; 64]),
        &mut Collapse::none(),
    );
    c
}

#[test]
fn a_product_reads_and_writes_through_any_strides() {
    let data = drawn(&[1, 2, 3, 4, 5, 6]);
    for traversal in TRAVERSALS {
        let out = Strides { rs: 2, cs: 1 };
        let forward = MatView::row_major(&data, 2, 3).unwrap();
        assert_eq!(product(forward, out, traversal), [14, -12, 32, -27, 77, 77]);
        let reversed = MatView::new(&data, 2, 3, Strides { rs: 3, cs: -1 }).unwrap();
        assert_eq!(product(reversed, out, traversal), [10, -8, 28, -23, 77, 77]);
        let broadcast = MatView::new(&data[..3], 2, 3, Strides { rs: 0, cs: 1 }).unwrap();
        assert_eq!(product(broadcast, out, traversal), [14, -12, 14, -12, 77, 77]);
        let transposed = MatView::new(&data, 2, 3, Strides { rs: 1, cs: 2 }).unwrap();
        assert_eq!(product(transposed, out, traversal), [22, -19, 28, -24, 77, 77]);
        let down = Strides { rs: -3, cs: -1 };
        assert_eq!(product(forward, down, traversal), [-27, 32, 77, -12, 14, 77]);
    }
}
