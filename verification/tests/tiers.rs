use tabulated_gemm::books::{Book, Digits};
use tabulated_gemm::census::Census;
use tabulated_gemm::codec::{CodedMatrix, Enumerable, IndexStream};
use tabulated_gemm::collapse::suggested_collapse_index;
use tabulated_gemm::element::{Alphabet, Bnd, Bound, Full};
use tabulated_gemm::epilogue::{EncodeMode, Linear};
use tabulated_gemm::gemm::{
    gemm_tabulated_counted, suggested_tabulation, suggested_tabulation_lanes,
};
use tabulated_gemm::scratch::{Collapse, Scratch, Tabulation};
use tabulated_gemm::blocking;
use tabulated_gemm::family::Tabulated;
use tabulated_gemm::plan::Plan;
use tabulated_gemm::selection::tabulation_pays_for_spec;
use tabulated_gemm::sizing::{
    column_group, suggested_tabulation_index, suggested_tabulation_panel, tabulation_pays,
    tabulation_rows, Shape, ROW_TILES,
};
use tabulated_gemm::triple::{GemmOptions, NotAProduct, TabulatedTriple, Traversal};
use tabulated_gemm::sequence::Host;
use tabulated_gemm::view::{MatView, MatViewMut};

type A8 = Alphabet<i8, Full<i8>>;

/// A recorded generator, so any failure reproduces from the seed alone.
fn fill<T, F: Fn(u64) -> T>(len: usize, salt: u64, map: F) -> Vec<T> {
    let mut s = 0x243F_6A88_85A3_08D3u64 ^ salt;
    (0..len)
        .map(|_| {
            s ^= s << 13;
            s ^= s >> 7;
            s ^= s << 17;
            map(s >> 33)
        })
        .collect()
}

/// Two hundred and fifty-six distinct entries of eight elements.
fn wide_table() -> Vec<[A8; 8]> {
    (0..256)
        .map(|c: usize| {
            let mut entry = [Alphabet::of(0i8); 8];
            for (t, cell) in entry.iter_mut().enumerate() {
                *cell = Alphabet::of((((c * 37 + t * 11 + (c >> t)) % 251) as i64 - 125) as i8);
            }
            entry
        })
        .collect()
}

fn options(traversal: Traversal) -> GemmOptions {
    GemmOptions { traversal, encode: EncodeMode::Wrapping, ..Default::default() }
}

fn drawn<Bd: Bound>(a: &[i8]) -> Vec<Alphabet<i8, Bd>> {
    a.iter().map(|&x| Alphabet::new(x).expect("the activations fit the declared bound")).collect()
}

/// The product of the decoded operands, product by product.
fn reference<Bd: Bound, C: Enumerable<i8, Bd>>(
    w: &CodedMatrix<'_, i8, Bd, C>,
    a: &[i8],
    m: usize,
    k: usize,
    n: usize,
) -> Vec<i32> {
    let mut b = vec![0i32; k * n];
    for j in 0..n {
        for p in 0..k {
            b[j * k + p] = i32::from(w.at(j, p).get());
        }
    }
    let mut c = vec![0i32; m * n];
    for i in 0..m {
        for j in 0..n {
            let mut total = 0i32;
            for p in 0..k {
                total = total.wrapping_add(i32::from(a[i * k + p]) * b[j * k + p]);
            }
            c[i * n + j] = total;
        }
    }
    c
}

/// Fractions of the suggested offer that are tried. `OFFER_STEPS` is exactly the
/// suggested amount; below it is a fraction, above it a multiple.
const OFFER_STEPS: usize = 8;

fn scale(want: usize, offer: usize) -> usize {
    if offer >= OFFER_STEPS {
        want.saturating_mul(offer - OFFER_STEPS + 1)
    } else {
        want * offer / OFFER_STEPS
    }
}

/// One product at one traversal and one set of offers.
#[allow(clippy::too_many_arguments)]
fn tabulated<Bd: Bound, C: Enumerable<i8, Bd>>(
    w: &CodedMatrix<'_, i8, Bd, C>,
    a: &[i8],
    m: usize,
    n: usize,
    traversal: Traversal,
    acc_offer: usize,
    aux_offer: usize,
    collapse_offer: usize,
) -> (Vec<i32>, Census) {
    let k = w.cols;
    let shape = Shape { m, k, n };
    let (space, block) = (C::code_space(), C::max_block());
    let want_acc = suggested_tabulation::<i8, Bd>(shape, space, block).max(1);
    let want_lanes = suggested_tabulation_lanes::<i8, Bd>(shape, space, block).max(1);
    let mut accumulators = vec![0i128; scale(want_acc, acc_offer)];
    let mut lane_words = vec![0i64; scale(want_lanes, aux_offer)];
    let mut ids = vec![0usize; scale(suggested_tabulation_index(shape), aux_offer)];
    let want_panel = suggested_tabulation_panel(space, block).max(n * k + k);
    let mut panel = vec![0i8; scale(want_panel, aux_offer)];
    let index_words = if collapse_offer == 0 { 0 } else { suggested_collapse_index(m) };
    let mut collapse_index = vec![0usize; index_words];
    let mut collapse_rows: Vec<Alphabet<i8, Bd>> = drawn(&vec![0i8; collapse_offer]);
    let mut c = vec![0i32; m * n];
    let mut census = Census::default();
    {
        let cells = drawn::<Bd>(a);
        let av = MatView::row_major(&cells, m, k).unwrap();
        let cv = MatViewMut::row_major(&mut c, m, n).unwrap();
        let mut triple = TabulatedTriple::new(av, *w, cv).ok().unwrap();
        let mut collapse = if collapse_offer == 0 {
            Collapse::none()
        } else {
            Collapse::new(&mut collapse_index, &mut collapse_rows)
        };
        gemm_tabulated_counted(
            &mut triple,
            &Linear::Overwrite,
            options(traversal),
            &mut Scratch::with_accumulators(&mut panel, &mut accumulators),
            &mut Tabulation::with_index(&mut lane_words, &mut ids),
            &mut collapse,
            &mut census,
        );
    }
    (c, census)
}

/// Every traversal at every offer.
fn every_traversal_agrees<C: Enumerable<i8, Full<i8>>>(
    label: &str,
    codec: C,
    stream: &[C::Code],
    m: usize,
    k: usize,
    n: usize,
) {
    let w = CodedMatrix::new(codec, n, k, stream).expect("the codes describe n x k");
    let a: Vec<i8> = fill(m * k, 0xa11, |x| ((x % 255) as i64 - 127) as i8);
    let want = reference(&w, &a, m, k, n);
    let offers = [0, 1, 2, OFFER_STEPS - 1, OFFER_STEPS, OFFER_STEPS + 2];
    for traversal in [Traversal::Tabulated, Traversal::Blocked, Traversal::OutputMajor] {
        for offer in offers {
            let (got, census) = tabulated(&w, &a, m, n, traversal, offer, offer, 0);
            assert_eq!(
                got, want,
                "{label} {m}x{k}x{n}: {traversal:?} at an offer of {offer} ({census:?})"
            );
        }
    }
    for acc_offer in 1..=OFFER_STEPS {
        for aux_offer in 1..=OFFER_STEPS {
            let (got, census) =
                tabulated(&w, &a, m, n, Traversal::Tabulated, acc_offer, aux_offer, 0);
            assert_eq!(
                got, want,
                "{label} {m}x{k}x{n}: accumulators at {acc_offer}, lanes at {aux_offer} \
                 ({census:?})"
            );
        }
    }
    let (_, full) =
        tabulated(&w, &a, m, n, Traversal::Tabulated, OFFER_STEPS, OFFER_STEPS, 0);
    assert!(full.table_reads > 0 || full.kernel_calls > 0);
    assert!(full.table_reads > 0, "{label} {m}x{k}x{n}: sized for a table and none was read");
    let (_, without) = tabulated(&w, &a, m, n, Traversal::Tabulated, 0, 0, 0);
    assert_eq!(without.table_reads, 0, "{label} {m}x{k}x{n}: nothing on offer, no table");
    let (_, streamed) =
        tabulated(&w, &a, m, n, Traversal::OutputMajor, OFFER_STEPS, OFFER_STEPS, 0);
    assert_eq!(streamed.table_reads, 0);
    assert_eq!(streamed.multiplies, (m * k * n) as u64);
}

/// A book of the wide table.
fn wide_book(entries: &[[A8; 8]]) -> Book<'_, i8, Full<i8>, 256, 8, u16> {
    let table: &[[A8; 8]; 256] = entries.try_into().unwrap();
    Book::new(table)
}


type Packed<'t, Bd, const N: usize, const B: usize> = Digits<'t, i8, Bd, N, B, u8, false>;
type Signs<'t, Bd, K> = Digits<'t, i8, Bd, 2, 8, K, true>;
type Ternaries<'t, Bd, K> = Digits<'t, i8, Bd, 4, 4, K, false>;

fn check_bound_one<C: Enumerable<i8, Bnd<1>>>(
    label: &str,
    w: &CodedMatrix<'_, i8, Bnd<1>, C>,
    m: usize,
    n: usize,
) {
    let k = w.cols;
    let a: Vec<i8> = fill(m * k, 0xac7, |x| if x & 1 == 0 { -1 } else { 1 });
    let want = reference(w, &a, m, k, n);
    let (packed, _) = tabulated(w, &a, m, n, Traversal::Blocked, OFFER_STEPS, OFFER_STEPS, 0);
    let (tabled, census) =
        tabulated(w, &a, m, n, Traversal::Tabulated, OFFER_STEPS, OFFER_STEPS, 0);
    assert_eq!(packed, want, "{label} {m}x{k}x{n}: the packed route");
    assert_eq!(tabled, want, "{label} {m}x{k}x{n}: the tabulated route");
    assert!(census.table_reads > 0, "{label} {m}x{k}x{n}: sized for a table and none was read");
}

#[test]
fn sign_and_ternary_spellings_match_the_dense_spelling_ck_13() {
    let sign_table: [A8; 2] = [Alphabet::of(-1), Alphabet::of(1)];
    let sign: Packed<'_, Full<i8>, 2, 8> = Digits::new(&sign_table);
    for &(m, k, n) in &[(1usize, 8usize, 1usize), (5, 24, 683), (3, 8, 684), (4, 16, 700)] {
        let stream: Vec<u8> = fill(n * (k / 8), 0x516, |x| x as u8);
        every_traversal_agrees("signs", sign, &stream, m, k, n);
    }

    let ternary_table: [A8; 4] =
        [Alphabet::of(-1), Alphabet::of(0), Alphabet::of(1), Alphabet::of(0)];
    let ternary: Packed<'_, Full<i8>, 4, 4> = Digits::new(&ternary_table);
    for &(m, k, n) in &[(1usize, 4usize, 1usize), (5, 12, 1025), (4, 16, 1100)] {
        let stream: Vec<u8> = fill(n * (k / 4), 0x7e7, |x| x as u8);
        every_traversal_agrees("ternary with the dead entry", ternary, &stream, m, k, n);
        let live: Vec<u8> = fill(n * (k / 4), 0x11e, |x| {
            (0..4).fold(0u8, |b, s| b | (((x >> (2 * s)) % 3) as u8) << (2 * s))
        });
        every_traversal_agrees("ternary", ternary, &live, m, k, n);
    }

    let sign_one: [Alphabet<i8, Bnd<1>>; 2] =
        [Alphabet::new(-1).expect("|-1| <= 1"), Alphabet::new(1).expect("|1| <= 1")];
    let sign_b1: Packed<'_, Bnd<1>, 2, 8> = Digits::new(&sign_one);
    for &(m, k, n) in &[(4usize, 16usize, 700), (3, 8, 96)] {
        let stream: Vec<u8> = fill(n * (k / 8), 0xb1d, |x| x as u8);
        let w = CodedMatrix::new(sign_b1, n, k, &stream).expect("the codes describe n x k");
        check_bound_one("signs at bound one", &w, m, n);
    }

    let ternary_one: [Alphabet<i8, Bnd<1>>; 4] = [
        Alphabet::new(-1).expect("|-1| <= 1"),
        Alphabet::new(0).expect("|0| <= 1"),
        Alphabet::new(1).expect("|1| <= 1"),
        Alphabet::new(0).expect("|0| <= 1"),
    ];
    let ternary_b1: Packed<'_, Bnd<1>, 4, 4> = Digits::new(&ternary_one);
    for &(m, k, n) in &[(4usize, 16usize, 1100), (3, 8, 96)] {
        let stream: Vec<u8> = fill(n * (k / 4), 0x7e9, |x| x as u8);
        let w = CodedMatrix::new(ternary_b1, n, k, &stream).expect("the codes describe n x k");
        check_bound_one("ternary at bound one", &w, m, n);
    }
}

/// Two spellings of one decode.
#[allow(clippy::too_many_arguments)]
fn spellings_agree<P: Enumerable<i8, Full<i8>>, T: Enumerable<i8, Full<i8>>>(
    label: &str,
    one: P,
    one_codes: &[P::Code],
    other: T,
    other_codes: &[T::Code],
    m: usize,
    k: usize,
    n: usize,
) {
    let a: Vec<i8> = fill(m * k, 0xa11, |x| ((x % 255) as i64 - 127) as i8);
    let w_one = CodedMatrix::new(one, n, k, one_codes).expect("the codes describe n x k");
    let w_other = CodedMatrix::new(other, n, k, other_codes).expect("the codes describe n x k");
    for traversal in [Traversal::Tabulated, Traversal::Blocked] {
        let (from_one, _) = tabulated(&w_one, &a, m, n, traversal, OFFER_STEPS, OFFER_STEPS, 0);
        let (from_other, census) =
            tabulated(&w_other, &a, m, n, traversal, OFFER_STEPS, OFFER_STEPS, 0);
        assert_eq!(from_one, from_other, "{label} {m}x{k}x{n} at {traversal:?}");
        if traversal == Traversal::Tabulated {
            assert!(census.table_reads > 0, "{label} {m}x{k}x{n}: no table was read ({census:?})");
        }
    }
}

#[test]
fn the_sign_tier_matches_the_composition_byte_for_byte_ck_11() {
    let sign_table: [A8; 2] = [Alphabet::of(-1), Alphabet::of(1)];
    let composition: Packed<'_, Full<i8>, 2, 8> = Digits::new(&sign_table);
    let tier: Signs<'_, Full<i8>, u16> = Digits::new(&sign_table);
    for &(m, k, n) in &[(1usize, 8usize, 1usize), (5, 24, 683), (3, 8, 684), (4, 16, 700)] {
        let bytes: Vec<u8> = fill(n * (k / 8), 0x516, |x| x as u8);
        let codes: Vec<u16> = bytes.iter().map(|&b| u16::from(b)).collect();
        every_traversal_agrees("Sign<8>", tier, &codes, m, k, n);
        spellings_agree("Sign<8>", composition, &bytes, tier, &codes, m, k, n);
    }
}

#[test]
fn the_ternary_tier_matches_the_composition_byte_for_byte_ck_12() {
    let ternary_table: [A8; 4] =
        [Alphabet::of(-1), Alphabet::of(0), Alphabet::of(1), Alphabet::of(0)];
    let composition: Packed<'_, Full<i8>, 4, 4> = Digits::new(&ternary_table);
    let tier: Ternaries<'_, Full<i8>, u16> = Digits::new(&ternary_table);
    for &(m, k, n) in &[(1usize, 4usize, 1usize), (3, 8, 1024), (5, 12, 1025), (4, 16, 1100)] {
        let bytes: Vec<u8> = fill(n * (k / 4), 0x7e7, |x| x as u8);
        let codes: Vec<u16> = bytes.iter().map(|&b| u16::from(b)).collect();
        every_traversal_agrees("Ternary<4>", tier, &codes, m, k, n);
        spellings_agree("Ternary<4>", composition, &bytes, tier, &codes, m, k, n);
    }
}

fn both_widths_agree<C16, C8>(label: &str, tier16: C16, tier8: C8, m: usize, k: usize, n: usize)
where
    C16: Enumerable<i8, Full<i8>, Code = u16>,
    C8: Enumerable<i8, Full<i8>, Code = u8>,
{
    let block = C8::max_block();
    let bytes8: Vec<u8> = fill(n * (k / block), 0xc15, |x| x as u8);
    let codes16: Vec<u16> = bytes8.iter().map(|&b| u16::from(b)).collect();
    assert_eq!(
        core::mem::size_of_val(&*bytes8) * 2,
        core::mem::size_of_val(&*codes16),
        "{label}: the narrow stream is half the bytes"
    );
    let Some(IndexStream::U8(borrowed)) = C8::as_index_stream(&bytes8) else {
        panic!("{label}: a 256-entry space borrows its byte stream")
    };
    assert!(core::ptr::eq(borrowed.as_ptr(), bytes8.as_ptr()), "{label}: borrowed, not built");
    every_traversal_agrees(label, tier8, &bytes8, m, k, n);
    spellings_agree(label, tier8, &bytes8, tier16, &codes16, m, k, n);
}

#[test]
fn the_u8_spelling_halves_the_stream_and_matches_byte_for_byte_ck_15() {
    let entries = wide_table();
    let table: &[[A8; 8]; 256] = entries.as_slice().try_into().unwrap();
    let book16: Book<'_, i8, Full<i8>, 256, 8, u16> = Book::new(table);
    let book8: Book<'_, i8, Full<i8>, 256, 8, u8> = Book::new(table);
    let sign_table: [A8; 2] = [Alphabet::of(-1), Alphabet::of(1)];
    let sign16: Signs<'_, Full<i8>, u16> = Digits::new(&sign_table);
    let sign8: Signs<'_, Full<i8>, u8> = Digits::new(&sign_table);
    let ternary_table: [A8; 4] =
        [Alphabet::of(-1), Alphabet::of(0), Alphabet::of(1), Alphabet::of(0)];
    let tern16: Ternaries<'_, Full<i8>, u16> = Digits::new(&ternary_table);
    let tern8: Ternaries<'_, Full<i8>, u8> = Digits::new(&ternary_table);

    for c in 0..=u8::MAX {
        for t in 0..8 {
            assert_eq!(
                book16.decode_element(u16::from(c), t).get(),
                book8.decode_element(c, t).get()
            );
            assert_eq!(
                sign16.decode_element(u16::from(c), t).get(),
                sign8.decode_element(c, t).get()
            );
        }
        for t in 0..4 {
            assert_eq!(
                tern16.decode_element(u16::from(c), t).get(),
                tern8.decode_element(c, t).get()
            );
        }
    }
    assert_eq!(
        <Book<'_, i8, Full<i8>, 256, 8, u8> as Enumerable<i8, Full<i8>>>::code_space(),
        256
    );
    for c in 0..=u8::MAX {
        assert_eq!(
            <Book<'_, i8, Full<i8>, 256, 8, u8> as Enumerable<i8, Full<i8>>>::index_of(c),
            c as usize
        );
        assert_eq!(<Signs<'_, Full<i8>, u8> as Enumerable<i8, Full<i8>>>::index_of(c), c as usize);
        assert_eq!(
            <Ternaries<'_, Full<i8>, u8> as Enumerable<i8, Full<i8>>>::index_of(c),
            c as usize
        );
    }
    for &(m, k, n) in &[(1usize, 8usize, 1usize), (5, 24, 683), (3, 8, 684), (4, 16, 700)] {
        both_widths_agree("Book<256,8>", book16, book8, m, k, n);
        both_widths_agree("Sign<8>", sign16, sign8, m, k, n);
        both_widths_agree("Ternary<4>", tern16, tern8, m, k, n);
    }
}

/// A product at bound one: no multiplication, and the closed forms of the rest.
fn adds_only<C: Enumerable<i8, Bnd<1>>>(
    w: &CodedMatrix<'_, i8, Bnd<1>, C>,
    a: &[i8],
    m: usize,
    n: usize,
) -> Census {
    let k = w.cols;
    let (got, census) =
        tabulated(w, a, m, n, Traversal::Tabulated, OFFER_STEPS, OFFER_STEPS, 0);
    assert_eq!(got, reference(w, a, m, k, n), "and it is still the product");
    assert_eq!(census.multiplies, 0, "at bound 1 the build is adds and subtracts: {census:?}");
    census
}

#[test]
fn the_ternary_tier_at_bound_one_builds_with_adds_only_ck_12() {
    let symbols: [Alphabet<i8, Bnd<1>>; 4] = [
        Alphabet::new(-1).unwrap(),
        Alphabet::new(0).unwrap(),
        Alphabet::new(1).unwrap(),
        Alphabet::new(0).unwrap(),
    ];
    let tier: Ternaries<'_, Bnd<1>, u16> = Digits::new(&symbols);
    let (m, k, n) = (1usize, 4usize, 1usize);
    let space = 256usize;
    let codes: Vec<u16> = fill(n * (k / 4), 0xc12, |x| x as u16);
    let w = CodedMatrix::new(tier, n, k, &codes).expect("the codes describe n x k");
    let a: Vec<i8> = fill(m * k, 0xa12, |x| if x & 1 == 0 { -1 } else { 1 });
    let census = adds_only(&w, &a, m, n);
    assert_eq!(census.table_reads, 1, "one read per code per row: {census:?}");
    assert_eq!(census.adds, 1 + (m * k * space) as u64, "{census:?}");

    let (m, k, n) = (16usize, 32usize, 3usize);
    let codes: Vec<u16> = fill(n * (k / 4), 0xc13, |x| x as u16);
    let w = CodedMatrix::new(tier, n, k, &codes).expect("the codes describe n x k");
    let a: Vec<i8> = fill(m * k, 0xa13, |x| if x & 1 == 0 { -1 } else { 1 });
    let census = adds_only(&w, &a, m, n);
    assert!(census.table_reads > 0, "{census:?}");
}

#[test]
fn the_bound1_table_build_issues_no_multiply_cb_10() {
    let sign_one: [Alphabet<i8, Bnd<1>>; 2] =
        [Alphabet::new(-1).expect("|-1| <= 1"), Alphabet::new(1).expect("|1| <= 1")];
    let sign: Packed<'_, Bnd<1>, 2, 8> = Digits::new(&sign_one);
    let (m, k, n) = (1usize, 8usize, 1usize);
    let space = 256usize;
    let stream: Vec<u8> = fill(n * (k / 8), 0xc10, |x| x as u8);
    let w = CodedMatrix::new(sign, n, k, &stream).expect("the codes describe n x k");
    let a: Vec<i8> = fill(m * k, 0xa10, |x| if x & 1 == 0 { -1 } else { 1 });
    let census = adds_only(&w, &a, m, n);
    assert_eq!(census.table_reads, 1, "one read per code per row: {census:?}");
    assert_eq!(census.adds, 1 + (m * k * space) as u64, "{census:?}");

    let (m, k, n) = (16usize, 64usize, 3usize);
    let stream: Vec<u8> = fill(n * (k / 8), 0xc11, |x| x as u8);
    let w = CodedMatrix::new(sign, n, k, &stream).expect("the codes describe n x k");
    let a: Vec<i8> = fill(m * k, 0xa11, |x| if x & 1 == 0 { -1 } else { 1 });
    let census = adds_only(&w, &a, m, n);
    assert!(census.table_reads > 0, "{census:?}");
}

/// The first column width at which the table pays, at the declarations of the
/// sequences that run.
fn break_even_at(space: usize, block: usize, m: usize) -> (usize, usize) {
    let lane = core::mem::size_of::<<i8 as Tabulated>::Lane>();
    let l1 = blocking::L1_BYTES;
    let bound = <Full<i8> as Bound>::value();
    let options = GemmOptions::default();
    let rows = ROW_TILES
        .into_iter()
        .find(|&r| r <= tabulation_rows(space, l1, lane).min(m))
        .expect("a 256-entry table fits L1 at some tile");
    let spec = <i8 as Tabulated>::table_spec(
        options.backend,
        options.host,
        bound,
        false,
        rows,
        column_group(rows),
    );
    let steps = <i8 as Tabulated>::dense_steps(
        options.backend,
        options.host,
        bound,
        rows,
        block * spec.lanes_per_add,
    );
    let first = (1..)
        .find(|&cols| tabulation_pays_for_spec(space, block, cols, rows, steps, l1, lane, &spec))
        .expect("the table pays at some column width");
    assert!(
        !tabulation_pays_for_spec(space, block, first - 1, rows, steps, l1, lane, &spec),
        "the first paying width is a boundary, not a plateau"
    );
    (first, rows)
}

#[test]
fn selection_is_the_derivation_and_the_gather_never_multiplies_cg_18() {
    let entries = wide_table();
    let table: &[[A8; 8]; 256] = entries.as_slice().try_into().unwrap();
    let book: Book<'_, i8, Full<i8>, 256, 8, u16> = Book::new(table);
    let book8: Book<'_, i8, Full<i8>, 256, 8, u8> = Book::new(table);
    let space = 256usize;
    let block = 8usize;
    let (m, k) = (16usize, 16usize);
    let blocks = k / block;
    let lane = core::mem::size_of::<<i8 as Tabulated>::Lane>();
    let bound = <Full<i8> as Bound>::value();
    let (break_even, rows) = break_even_at(space, block, m);
    let a: Vec<i8> = (0..m * k).map(|i| ((i % 255) as i64 - 127) as i8).collect();

    for n in [break_even - 1, break_even, break_even + 1] {
        let stream: Vec<u16> = (0..n * blocks)
            .map(|i| {
                let (j, p) = (i / blocks, i % blocks);
                let shifted = (0..p).fold(j, |acc, _| acc / space);
                (shifted % space) as u16
            })
            .collect();
        let w = CodedMatrix::new(book, n, k, &stream).expect("the codes describe n x k");
        let (got, census) =
            tabulated(&w, &a, m, n, Traversal::Blocked, OFFER_STEPS, OFFER_STEPS, 0);
        assert_eq!(got, reference(&w, &a, m, k, n), "whichever factorization ran ({census:?})");

        let shape = Shape { m, k, n };
        let plan = Plan::select(
            space,
            shape,
            lane,
            suggested_tabulation::<i8, Full<i8>>(shape, space, block).max(1),
            suggested_tabulation_lanes::<i8, Full<i8>>(shape, space, block).max(1) * 8 / lane,
            block,
            <i8 as Tabulated>::probe_capacity::<<i8 as Tabulated>::Lane>(bound),
        )
        .expect("the suggested offers hold a plan");
        assert_eq!(plan.cols, n, "the amortization axis is n itself");
        assert_eq!(plan.rows, rows, "the tile the derivation priced");

        if n < break_even {
            assert_eq!(census.table_reads, 0, "below the break-even at n = {n}: {census:?}");
            assert!(census.kernel_calls > 0, "the dense route ran at n = {n}: {census:?}");
        } else {
            assert!(census.table_reads > 0, "the table runs at n = {n}: {census:?}");
            assert_eq!(census.kernel_calls, 0, "no dense route at n = {n}: {census:?}");
            assert_eq!(census.table_reads, (m * n * blocks) as u64, "n = {n}: {census:?}");
            assert_eq!(
                census.adds - census.table_reads,
                (m * k * space) as u64,
                "n = {n}: {census:?}"
            );
            assert_eq!(census.multiplies, 0, "n = {n}: {census:?}");
        }

        let stream8: Vec<u8> = stream.iter().map(|&c| c as u8).collect();
        let w8 = CodedMatrix::new(book8, n, k, &stream8).expect("the codes describe n x k");
        let (got8, census8) =
            tabulated(&w8, &a, m, n, Traversal::Blocked, OFFER_STEPS, OFFER_STEPS, 0);
        assert_eq!(got8, got, "the narrow spelling's bytes at n = {n}");
        assert_eq!(census8, census, "the census is width-independent at n = {n}");
    }

    let i4: [[A8; 1]; 16] = core::array::from_fn(|i| [Alphabet::of((i as i8) - 8)]);
    let grid: Book<'_, i8, Full<i8>, 16, 1, u16> = Book::new(&i4);
    for n in [1usize, break_even - 1, break_even, break_even + 1] {
        let stream: Vec<u16> = fill(n * k, 0x61d, |x| (x % 16) as u16);
        let w = CodedMatrix::new(grid, n, k, &stream).expect("the codes describe n x k");
        let (got, census) =
            tabulated(&w, &a, m, n, Traversal::Blocked, OFFER_STEPS, OFFER_STEPS, 0);
        assert_eq!(got, reference(&w, &a, m, k, n));
        assert_eq!(census.table_reads, 0, "blocks of one are declined at n={n}: {census:?}");
        assert!(census.kernel_calls > 0, "the dense route ran at n = {n}: {census:?}");
    }
}

/// Which factorization ran.
fn ran(census: &Census) -> Traversal {
    if census.table_reads > 0 {
        Traversal::Tabulated
    } else if census.kernel_calls > 0 {
        Traversal::Blocked
    } else {
        Traversal::OutputMajor
    }
}

#[test]
fn traversal_selection_reads_the_declaration_and_never_the_operand_cs_10() {
    let entries = wide_table();
    let book = wide_book(&entries);
    let space = 256usize;
    let block = 8usize;
    let (m, k) = (16usize, 64usize);
    let blocks = k / block;
    let (break_even, _) = break_even_at(space, block, m);

    for n in [8usize, break_even] {
        let codes = n * blocks;
        let operands: Vec<(&str, Vec<u16>, Vec<i8>)> = vec![
            ("one code and one activation, repeated", vec![0u16; codes], vec![0i8; m * k]),
            (
                "the top of the code space against the bottom of the alphabet",
                vec![(space - 1) as u16; codes],
                vec![-128i8; m * k],
            ),
            (
                "the two ends of the code space, alternating, against the top of the alphabet",
                (0..codes).map(|i| if i % 2 == 0 { 0 } else { (space - 1) as u16 }).collect(),
                vec![127i8; m * k],
            ),
            (
                "no two columns alike",
                (0..codes)
                    .map(|i| {
                        let (j, p) = (i / blocks, i % blocks);
                        ((0..p).fold(j, |acc, _| acc / space) % space) as u16
                    })
                    .collect(),
                (0..m * k).map(|i| ((i % 255) as i64 - 127) as i8).collect(),
            ),
            (
                "a recorded pseudorandom fill",
                fill(codes, 0xc510, |x| (x % space as u64) as u16),
                fill(m * k, 0xc511, |x| ((x % 255) as i64 - 127) as i8),
            ),
        ];
        let mut selected: Option<(&str, Traversal)> = None;
        for (label, stream, a) in &operands {
            let w = CodedMatrix::new(book, n, k, stream).expect("the codes describe n x k");
            let (got, census) =
                tabulated(&w, a, m, n, Traversal::Blocked, OFFER_STEPS, OFFER_STEPS, 0);
            assert_eq!(got, reference(&w, a, m, k, n), "n = {n}, {label} ({census:?})");
            match selected {
                None => selected = Some((label, ran(&census))),
                Some((first, want)) => assert_eq!(
                    ran(&census),
                    want,
                    "at n = {n} the selection moved from {first} to {label}: {census:?}"
                ),
            }
        }
    }

    let n = 8usize;
    let stream: Vec<u16> = fill(n * blocks, 0xc512, |x| (x % space as u64) as u16);
    let a: Vec<i8> = fill(m * k, 0xc513, |x| ((x % 255) as i64 - 127) as i8);
    let along = CodedMatrix::new(book, n, k, &stream).expect("the codes describe n x k");
    let across = CodedMatrix::new(book, k, n, &stream).expect("the same codes describe k x n");
    let cells = drawn::<Full<i8>>(&a);
    let av = MatView::row_major(&cells, m, k).unwrap();
    let mut c = vec![0i32; m * n];
    {
        let cv = MatViewMut::row_major(&mut c, m, n).unwrap();
        assert!(TabulatedTriple::new(av, along, cv).is_ok(), "n x k is the orientation");
    }
    {
        let cv = MatViewMut::row_major(&mut c, m, n).unwrap();
        assert!(
            matches!(
                TabulatedTriple::new(av, across, cv),
                Err(NotAProduct::Nonconformant { .. })
            ),
            "and k x n is not"
        );
    }

    // One decoded operand under two declarations that differ in the block alone.
    let vals: [A8; 16] = core::array::from_fn(|i| Alphabet::of((i as i8) - 8));
    let cells: [[A8; 1]; 16] = core::array::from_fn(|c| [vals[c]]);
    let grid: Book<'_, i8, Full<i8>, 16, 1, u16> = Book::new(&cells);
    let words: [[A8; 8]; 16] = core::array::from_fn(|c| [vals[c]; 8]);
    let runs: Book<'_, i8, Full<i8>, 16, 8, u16> = Book::new(&words);
    let small = 16usize;
    let lane = core::mem::size_of::<<i8 as Tabulated>::Lane>();
    let l1 = blocking::L1_BYTES;
    let bound = <Full<i8> as Bound>::value();
    let (pays_at, rows16) = break_even_at(small, 8, m);
    let auto = GemmOptions::default();
    let spec1 = <i8 as Tabulated>::table_spec(
        auto.backend,
        auto.host,
        bound,
        false,
        rows16,
        column_group(rows16),
    );
    let steps1 = <i8 as Tabulated>::dense_steps(
        auto.backend,
        auto.host,
        bound,
        rows16,
        spec1.lanes_per_add,
    );
    assert!(
        !tabulation_pays(small, 1, usize::MAX, rows16, steps1, l1, lane),
        "one element per code repays no build at any width"
    );

    let n = pays_at;
    let shape = Shape { m, k, n };
    let a: Vec<i8> = fill(m * k, 0xc514, |x| ((x % 255) as i64 - 127) as i8);
    let coarse: Vec<u16> = fill(n * blocks, 0xc515, |x| (x % 16) as u16);
    let fine: Vec<u16> = (0..n * k).map(|i| coarse[i / block]).collect();
    let wb = CodedMatrix::new(runs, n, k, &coarse).expect("n x k at a block of eight");
    let wg = CodedMatrix::new(grid, n, k, &fine).expect("n x k at a block of one");
    for j in 0..n {
        for t in 0..k {
            assert_eq!(
                runs.decode_element(coarse[j * blocks + t / block], t % block).get(),
                grid.decode_element(fine[j * k + t], 0).get(),
                "one operand, two declarations, at ({j}, {t})"
            );
        }
    }
    let plan = Plan::select(
        small,
        shape,
        lane,
        suggested_tabulation::<i8, Full<i8>>(shape, small, 8).max(1),
        suggested_tabulation_lanes::<i8, Full<i8>>(shape, small, 8).max(1) * 8 / lane,
        8,
        <i8 as Tabulated>::probe_capacity::<<i8 as Tabulated>::Lane>(bound),
    )
    .expect("the suggested offers admit a plan");
    assert_eq!(plan.cols, n, "the amortization axis is `n` itself");
    assert_eq!(plan.rows, rows16, "the tile the derivation priced");

    let (got_b, cen_b) =
        tabulated(&wb, &a, m, n, Traversal::Blocked, OFFER_STEPS, OFFER_STEPS, 0);
    let (got_g, cen_g) =
        tabulated(&wg, &a, m, n, Traversal::Blocked, OFFER_STEPS, OFFER_STEPS, 0);
    assert_eq!(got_b, reference(&wb, &a, m, k, n));
    assert_eq!(got_b, got_g, "the declaration moved the factorization and not the answer");
    assert_eq!(
        ran(&cen_b),
        Traversal::Tabulated,
        "a block of eight is tabulated at n = {n}: {cen_b:?}"
    );
    assert_eq!(
        ran(&cen_g),
        Traversal::Blocked,
        "and a block of one is not, on the same decoded operand: {cen_g:?}"
    );
}

#[test]
fn every_backend_and_host_gives_the_same_bytes() {
    let entries = wide_table();
    let book = wide_book(&entries);
    let (m, k, n) = (19usize, 40usize, 70usize);
    let stream: Vec<u16> = fill(n * (k / 8), 0xb00c, |x| (x % 400) as u16);
    let w = CodedMatrix::new(book, n, k, &stream).expect("the codes describe n x k");
    let a: Vec<i8> = fill(m * k, 0xa11, |x| ((x % 255) as i64 - 127) as i8);
    let want = reference(&w, &a, m, k, n);
    let arm = Host { neon: true, dotprod: true, ..Host::plain() };
    let x86 = Host {
        avx2: true,
        avx512f: true,
        avx512bw: true,
        avx512vnni: true,
        ..Host::plain()
    };
    for host in [Host::plain(), arm, x86] {
        for traversal in [Traversal::Tabulated, Traversal::Blocked] {
            let shape = Shape { m, k, n };
            let mut accumulators = vec![0i128; suggested_tabulation::<i8, Full<i8>>(shape, 256, 8)];
            let mut lanes =
                vec![0i64; suggested_tabulation_lanes::<i8, Full<i8>>(shape, 256, 8)];
            let mut panel = vec![0i8; n * k + k];
            let mut c = vec![0i32; m * n];
            let cells = drawn::<Full<i8>>(&a);
            let av = MatView::row_major(&cells, m, k).unwrap();
            let cv = MatViewMut::row_major(&mut c, m, n).unwrap();
            let mut triple = TabulatedTriple::new(av, w, cv).ok().unwrap();
            let mut census = Census::default();
            gemm_tabulated_counted(
                &mut triple,
                &Linear::Overwrite,
                GemmOptions { host, ..options(traversal) },
                &mut Scratch::with_accumulators(&mut panel, &mut accumulators),
                &mut Tabulation::new(&mut lanes),
                &mut Collapse::none(),
                &mut census,
            );
            assert_eq!(c, want, "{host:?} {traversal:?}: {census:?}");
        }
    }
}
