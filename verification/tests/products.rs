use tabulated_gemm::books::{Book, Digits};
use tabulated_gemm::census::Census;
use tabulated_gemm::codec::{CodedMatrix, Enumerable};
use tabulated_gemm::collapse::suggested_collapse_index;
use tabulated_gemm::element::{Alphabet, Bound, Full};
use tabulated_gemm::epilogue::{EncodeMode, Linear};
use tabulated_gemm::gemm::{
    gemm_tabulated_counted, suggested_tabulation, suggested_tabulation_lanes,
};
use tabulated_gemm::scratch::{Collapse, Scratch, Tabulation};
use tabulated_gemm::sizing::{
    suggested_tabulation_index, suggested_tabulation_panel, tabulation_rows, Shape,
};
use tabulated_gemm::triple::{GemmOptions, TabulatedTriple, Traversal};
use tabulated_gemm::view::{MatView, MatViewMut};

type A8 = Alphabet<i8, Full<i8>>;

/// A recorded generator, so any failure reproduces from the seed alone.
fn fill<T, F: Fn(u64) -> T>(len: usize, salt: u64, map: F) -> Vec<T> {
    let mut s = 0x243F_6A88_85A3_08D3u64 ^ salt;
    (0..len)
        .map(|_| {
            s ^= s << 13;
            s ^= s >> 7;
            s ^= s << 17;
            map(s >> 33)
        })
        .collect()
}

/// Two hundred and fifty-six distinct entries of eight elements.
fn wide_table() -> Vec<[A8; 8]> {
    (0..256)
        .map(|c: usize| {
            let mut entry = [Alphabet::of(0i8); 8];
            for (t, cell) in entry.iter_mut().enumerate() {
                *cell = Alphabet::of((((c * 37 + t * 11 + (c >> t)) % 251) as i64 - 125) as i8);
            }
            entry
        })
        .collect()
}

fn options(traversal: Traversal) -> GemmOptions {
    GemmOptions { traversal, encode: EncodeMode::Wrapping, ..Default::default() }
}

fn drawn<Bd: Bound>(a: &[i8]) -> Vec<Alphabet<i8, Bd>> {
    a.iter().map(|&x| Alphabet::new(x).expect("the activations fit the declared bound")).collect()
}

/// The product of the decoded operands, product by product.
fn reference<Bd: Bound, C: Enumerable<i8, Bd>>(
    w: &CodedMatrix<'_, i8, Bd, C>,
    a: &[i8],
    m: usize,
    k: usize,
    n: usize,
) -> Vec<i32> {
    let mut b = vec![0i32; k * n];
    for j in 0..n {
        for p in 0..k {
            b[j * k + p] = i32::from(w.at(j, p).get());
        }
    }
    let mut c = vec![0i32; m * n];
    for i in 0..m {
        for j in 0..n {
            let mut total = 0i32;
            for p in 0..k {
                total = total.wrapping_add(i32::from(a[i * k + p]) * b[j * k + p]);
            }
            c[i * n + j] = total;
        }
    }
    c
}

/// Fractions of the suggested offer that are tried. `OFFER_STEPS` is exactly the
/// suggested amount; below it is a fraction, above it a multiple.
const OFFER_STEPS: usize = 8;

fn scale(want: usize, offer: usize) -> usize {
    if offer >= OFFER_STEPS {
        want.saturating_mul(offer - OFFER_STEPS + 1)
    } else {
        want * offer / OFFER_STEPS
    }
}

/// One product at one traversal and one set of offers.
#[allow(clippy::too_many_arguments)]
fn tabulated<Bd: Bound, C: Enumerable<i8, Bd>>(
    w: &CodedMatrix<'_, i8, Bd, C>,
    a: &[i8],
    m: usize,
    n: usize,
    traversal: Traversal,
    acc_offer: usize,
    aux_offer: usize,
    collapse_offer: usize,
) -> (Vec<i32>, Census) {
    let k = w.cols;
    let shape = Shape { m, k, n };
    let (space, block) = (C::code_space(), C::max_block());
    let want_acc = suggested_tabulation::<i8, Bd>(shape, space, block).max(1);
    let want_lanes = suggested_tabulation_lanes::<i8, Bd>(shape, space, block).max(1);
    let mut accumulators = vec![0i128; scale(want_acc, acc_offer)];
    let mut lane_words = vec![0i64; scale(want_lanes, aux_offer)];
    let mut ids = vec![0usize; scale(suggested_tabulation_index(shape), aux_offer)];
    let want_panel = suggested_tabulation_panel(space, block).max(n * k + k);
    let mut panel = vec![0i8; scale(want_panel, aux_offer)];
    let index_words = if collapse_offer == 0 { 0 } else { suggested_collapse_index(m) };
    let mut collapse_index = vec![0usize; index_words];
    let mut collapse_rows: Vec<Alphabet<i8, Bd>> = drawn(&vec![0i8; collapse_offer]);
    let mut c = vec![0i32; m * n];
    let mut census = Census::default();
    {
        let cells = drawn::<Bd>(a);
        let av = MatView::row_major(&cells, m, k).unwrap();
        let cv = MatViewMut::row_major(&mut c, m, n).unwrap();
        let mut triple = TabulatedTriple::new(av, *w, cv).ok().unwrap();
        let mut collapse = if collapse_offer == 0 {
            Collapse::none()
        } else {
            Collapse::new(&mut collapse_index, &mut collapse_rows)
        };
        gemm_tabulated_counted(
            &mut triple,
            &Linear::Overwrite,
            options(traversal),
            &mut Scratch::with_accumulators(&mut panel, &mut accumulators),
            &mut Tabulation::with_index(&mut lane_words, &mut ids),
            &mut collapse,
            &mut census,
        );
    }
    (c, census)
}

/// Every traversal at every offer.
fn every_traversal_agrees<C: Enumerable<i8, Full<i8>>>(
    label: &str,
    codec: C,
    stream: &[C::Code],
    m: usize,
    k: usize,
    n: usize,
) {
    let w = CodedMatrix::new(codec, n, k, stream).expect("the codes describe n x k");
    let a: Vec<i8> = fill(m * k, 0xa11, |x| ((x % 255) as i64 - 127) as i8);
    let want = reference(&w, &a, m, k, n);
    let offers = [0, 1, 2, OFFER_STEPS - 1, OFFER_STEPS, OFFER_STEPS + 2];
    for traversal in [Traversal::Tabulated, Traversal::Blocked, Traversal::OutputMajor] {
        for offer in offers {
            let (got, census) = tabulated(&w, &a, m, n, traversal, offer, offer, 0);
            assert_eq!(
                got, want,
                "{label} {m}x{k}x{n}: {traversal:?} at an offer of {offer} ({census:?})"
            );
            assert!(census.table_reads == 0 || census.kernel_calls == 0, "{census:?}");
        }
    }
    for acc_offer in 1..=OFFER_STEPS {
        for aux_offer in 1..=OFFER_STEPS {
            let (got, census) =
                tabulated(&w, &a, m, n, Traversal::Tabulated, acc_offer, aux_offer, 0);
            assert_eq!(
                got, want,
                "{label} {m}x{k}x{n}: accumulators at {acc_offer}, lanes at {aux_offer} \
                 ({census:?})"
            );
        }
    }
    let (_, full) =
        tabulated(&w, &a, m, n, Traversal::Tabulated, OFFER_STEPS, OFFER_STEPS, 0);
    assert!(full.table_reads > 0 || full.kernel_calls > 0);
    assert!(full.table_reads > 0, "{label} {m}x{k}x{n}: sized for a table and none was read");
    let (_, without) = tabulated(&w, &a, m, n, Traversal::Tabulated, 0, 0, 0);
    assert_eq!(without.table_reads, 0, "{label} {m}x{k}x{n}: nothing on offer, no table");
    let (_, streamed) =
        tabulated(&w, &a, m, n, Traversal::OutputMajor, OFFER_STEPS, OFFER_STEPS, 0);
    assert_eq!(streamed.table_reads, 0);
    assert_eq!(streamed.multiplies, (m * k * n) as u64);
}

#[test]
fn every_traversal_gives_the_same_bytes_cd_13() {
    let entries = wide_table();
    let table: &[[A8; 8]; 256] = entries.as_slice().try_into().unwrap();
    let book: Book<'_, i8, Full<i8>, 256, 8, u16> = Book::new(table);
    for &(m, k, n) in &[
        (1usize, 8usize, 1usize),
        (4, 16, 8),
        (5, 24, 320),
        (8, 32, 512),
        (3, 8, 293),
        (3, 8, 292),
        (7, 40, 7),
    ] {
        let stream: Vec<u16> = fill(n * (k / 8), 0xb00c, |x| (x % 400) as u16);
        every_traversal_agrees("Book<256,8>", book, &stream, m, k, n);
        for d in [1usize, 3, n] {
            let d = d.min(n);
            let base: Vec<u16> = fill(d * (k / 8), 0xd0b, |x| (x % 400) as u16);
            let repeated: Vec<u16> = (0..n * (k / 8))
                .map(|x| base[(x / (k / 8) % d) * (k / 8) + x % (k / 8)])
                .collect();
            every_traversal_agrees("Book<256,8> repeated", book, &repeated, m, k, n);
        }
    }

    let odd: [[A8; 3]; 64] = core::array::from_fn(|c| {
        core::array::from_fn(|t| Alphabet::of(((c * 7 + t * 13) % 200) as i64 as i8))
    });
    let odd_book: Book<'_, i8, Full<i8>, 64, 3, u16> = Book::new(&odd);
    for &(m, k, n) in &[(1usize, 3usize, 1usize), (16, 24, 32), (5, 9, 37)] {
        let stream: Vec<u16> = fill(n * (k / 3), 0x0dd, |x| (x % 64) as u16);
        every_traversal_agrees("Book<64,3>", odd_book, &stream, m, k, n);
    }

    let i4: [A8; 16] = core::array::from_fn(|i| Alphabet::of((i as i8) - 8));
    let packed: Digits<'_, i8, Full<i8>, 16, 2, u8, false> = Digits::new(&i4);
    for &(m, k, n) in &[(1usize, 2usize, 1usize), (4, 6, 600), (6, 10, 13)] {
        let stream: Vec<u8> = fill(n * (k / 2), 0xd0e, |x| x as u8);
        every_traversal_agrees("Digits<16,2>", packed, &stream, m, k, n);
    }
}

/// A book of the wide table.
fn wide_book(entries: &[[A8; 8]]) -> Book<'_, i8, Full<i8>, 256, 8, u16> {
    let table: &[[A8; 8]; 256] = entries.try_into().unwrap();
    Book::new(table)
}

fn activation_salt() -> u64 {
    0x5a17
}

#[test]
fn collapsing_equal_columns_at_any_block_width_cannot_change_a_byte_cd_16() {
    let entries = wide_table();
    let book = wide_book(&entries);
    let block = 8usize;
    for &(m, k, n) in &[(16usize, 64usize, 512usize), (8, 32, 512), (16, 64, 293)] {
        let a: Vec<i8> = fill(m * k, activation_salt(), |x| ((x % 255) as i64 - 127) as i8);
        let uncollapsed = (m * n * (k / block)) as u64;
        for d in [1usize, 3, n] {
            let d = d.min(n);
            let base: Vec<u16> = fill(d * (k / 8), 0xd0b, |x| (x % 400) as u16);
            let repeated: Vec<u16> = (0..n * (k / 8))
                .map(|x| base[(x / (k / 8) % d) * (k / 8) + x % (k / 8)])
                .collect();
            let w = CodedMatrix::new(book, n, k, &repeated).expect("the codes describe n x k");
            let want = reference(&w, &a, m, k, n);
            for acc_offer in [OFFER_STEPS / 2, OFFER_STEPS / 4] {
                let (got, census) =
                    tabulated(&w, &a, m, n, Traversal::Tabulated, acc_offer, OFFER_STEPS, 0);
                assert_eq!(got, want, "{m}x{k}x{n} d={d}: a narrower column block ({census:?})");
                assert!(census.table_reads > 0, "{m}x{k}x{n} d={d}: no table was read");
                if d < n {
                    assert!(
                        census.table_reads < uncollapsed,
                        "{m}x{k}x{n} d={d} at {acc_offer}: a repeated column charged twice within \
                         its block ({census:?} against {uncollapsed})"
                    );
                } else {
                    assert_eq!(census.table_reads, uncollapsed, "{m}x{k}x{n} d={d}");
                }
            }
        }
    }
}

#[test]
fn collapsing_equal_rows_of_a_cannot_change_a_byte_cd_15() {
    let entries = wide_table();
    let book = wide_book(&entries);
    let space = 256usize;
    let block = 8usize;
    for &(m, k, n) in &[(8usize, 32usize, 64usize), (16, 64, 512), (7, 24, 40)] {
        let stream: Vec<u16> = fill(n * (k / block), 0xb00c, |x| (x % 400) as u16);
        let w = CodedMatrix::new(book, n, k, &stream).expect("the codes describe n x k");
        for d in [1usize, 2, m / 2, m] {
            let d = d.max(1).min(m);
            let a: Vec<i8> = (0..m * k)
                .map(|x| {
                    let (row, col) = (x / k, x % k);
                    (((row % d) * 31 + col * 17) % 251) as i8
                })
                .collect();
            let want = reference(&w, &a, m, k, n);
            for rows_offer in [0usize, k / 2, d * k, m * k] {
                let (got, census) = tabulated(
                    &w,
                    &a,
                    m,
                    n,
                    Traversal::Tabulated,
                    OFFER_STEPS,
                    OFFER_STEPS,
                    rows_offer,
                );
                assert_eq!(got, want, "{m}x{k}x{n} d={d} rows offer {rows_offer} ({census:?})");
                assert!(census.table_reads > 0, "{m}x{k}x{n} d={d}: no table was read");
                let charged = if rows_offer >= d * k && d < m { d } else { m };
                assert_eq!(census.multiplies, 0, "{m}x{k}x{n} d={d} ({census:?})");
                assert_eq!(
                    census.adds - census.table_reads,
                    (charged * k * space) as u64,
                    "{m}x{k}x{n} d={d} rows offer {rows_offer} ({census:?})"
                );
            }
        }
    }

    let (m, k, n) = (16usize, 64usize, 512usize);
    let (rows_d, cols_d) = (2usize, 4usize);
    let a: Vec<i8> = (0..m * k)
        .map(|x| {
            let (row, col) = (x / k, x % k);
            (((row % rows_d) * 31 + col * 17) % 251) as i8
        })
        .collect();
    let base: Vec<u16> = fill(cols_d * (k / block), 0xd0b, |x| (x % 400) as u16);
    let stream: Vec<u16> = (0..n * (k / block))
        .map(|x| base[(x / (k / block) % cols_d) * (k / block) + x % (k / block)])
        .collect();
    let w = CodedMatrix::new(book, n, k, &stream).expect("the codes describe n x k");
    let want = reference(&w, &a, m, k, n);
    let (got, census) =
        tabulated(&w, &a, m, n, Traversal::Tabulated, OFFER_STEPS, OFFER_STEPS, rows_d * k);
    assert_eq!(got, want, "both axes ({census:?})");
    assert_eq!(census.multiplies, 0, "both axes ({census:?})");
    assert_eq!(census.adds - census.table_reads, (rows_d * k * space) as u64, "both ({census:?})");
    assert_eq!(
        census.table_reads,
        (rows_d * cols_d * (k / block)) as u64,
        "both axes: the column loop charges per distinct column ({census:?})"
    );
}

#[test]
fn every_code_indexes_a_live_entry_ct_07() {
    let entries = wide_table();
    let book = wide_book(&entries);
    let (k, n) = (8usize, 1usize << 16);
    let stream: Vec<u16> = (0..=u16::MAX).collect();
    let w = CodedMatrix::new(book, n, k, &stream).expect("65536 rows of one code");
    let a: Vec<i8> = fill(k, 0xfeed, |x| ((x % 255) as i64 - 127) as i8);
    let (got, census) =
        tabulated(&w, &a, 1, n, Traversal::Tabulated, OFFER_STEPS, OFFER_STEPS, 0);
    assert!(census.table_reads > 0, "the table must have been read");
    assert_eq!(got, reference(&w, &a, 1, k, n));
    for j in 0..256usize {
        assert_eq!(got[j], got[j + 256], "code {j} and code {} decode alike", j + 256);
    }
}

#[test]
fn the_tabulated_column_loop_has_no_multiply_cu_06() {
    let entries = wide_table();
    let book = wide_book(&entries);
    let space = 256usize;
    let block = 8usize;
    let (m, k, n) = (8usize, 32usize, 4096usize);
    let blocks = k / block;
    let l1 = tabulated_gemm::blocking::L1_BYTES;
    let rows = tabulation_rows(space, l1, core::mem::size_of::<i64>()).min(m);
    assert!(rows >= 1 && m % rows == 0, "an exact tiling, so the closed forms are exact");

    let stream: Vec<u16> = fill(n * blocks, 0xc0de, |x| (x % 256) as u16);
    let w = CodedMatrix::new(book, n, k, &stream).expect("the codes describe n x k");
    let a: Vec<i8> = fill(m * k, activation_salt(), |x| ((x % 255) as i64 - 127) as i8);
    let (got, census) =
        tabulated(&w, &a, m, n, Traversal::Tabulated, OFFER_STEPS, OFFER_STEPS, 0);
    assert_eq!(got, reference(&w, &a, m, k, n), "and it is still the product");
    assert_eq!(census.adds, (m * n * blocks + m * k * space) as u64, "{census:?}");
    assert_eq!(census.adds - census.table_reads, (m * k * space) as u64, "{census:?}");
    assert_eq!(census.decodes, (space * block) as u64, "{census:?}");
    assert_eq!(census.multiplies, 0, "{census:?}");

    let dense = (m * k * n) as u64;
    let tabulated_ops = census.multiplies + census.adds;
    assert!(tabulated_ops * 4 <= dense, "{tabulated_ops} against {dense}");
    assert!(census.multiplies * 8 <= dense, "{} against {dense}", census.multiplies);

    let (streamed, plain) =
        tabulated(&w, &a, m, n, Traversal::OutputMajor, OFFER_STEPS, OFFER_STEPS, 0);
    assert_eq!(streamed, got);
    assert_eq!(plain.multiplies, dense);
    assert_eq!(plain.table_reads, 0);
}
