use tabulated_gemm::blocking;
use tabulated_gemm::books::Book;
use tabulated_gemm::census::Census;
use tabulated_gemm::codec::{CodedMatrix, Enumerable};
use tabulated_gemm::element::{Alphabet, Full};
use tabulated_gemm::epilogue::{EncodeMode, Linear};
use tabulated_gemm::family::Tabulated;
use tabulated_gemm::gemm::{gemm_tabulated_counted, suggested_tabulation};
use tabulated_gemm::lane::Lane;
use tabulated_gemm::scratch::{Collapse, Scratch, Tabulation};
use tabulated_gemm::sizing::{slab_codes, suggested_tabulation_panel, tabulation_rows, Shape};
use tabulated_gemm::triple::{GemmOptions, TabulatedTriple, Traversal};
use tabulated_gemm::view::{MatView, MatViewMut};

type A32 = Alphabet<i32, Full<i32>>;
type A64 = Alphabet<i64, Full<i64>>;

/// A recorded generator, so any failure reproduces from the seed alone.
fn fill<T, F: Fn(u64) -> T>(len: usize, salt: u64, map: F) -> Vec<T> {
    let mut s = 0x243F_6A88_85A3_08D3u64 ^ salt;
    (0..len)
        .map(|_| {
            s ^= s << 13;
            s ^= s >> 7;
            s ^= s << 17;
            map(s >> 33)
        })
        .collect()
}

fn tabulated_i32<C: Enumerable<i32, Full<i32>>>(
    w: &CodedMatrix<'_, i32, Full<i32>, C>,
    a: &[i32],
    m: usize,
    n: usize,
    encode: EncodeMode,
    acc_offer: usize,
) -> (Vec<i32>, Census) {
    let k = w.cols;
    let mut panel = vec![0i32; suggested_tabulation_panel(C::code_space(), C::max_block())];
    let mut accumulators = vec![0i128; acc_offer];
    let mut c = vec![0i32; m * n];
    let mut census = Census::default();
    {
        let cells: Vec<A32> = a.iter().map(|&x| Alphabet::of(x)).collect();
        let av = MatView::row_major(&cells, m, k).unwrap();
        let cv = MatViewMut::row_major(&mut c, m, n).unwrap();
        let mut triple = TabulatedTriple::new(av, *w, cv).ok().unwrap();
        gemm_tabulated_counted(
            &mut triple,
            &Linear::Overwrite,
            GemmOptions { traversal: Traversal::Tabulated, encode, ..Default::default() },
            &mut Scratch::with_accumulators(&mut panel, &mut accumulators),
            &mut Tabulation::none(),
            &mut Collapse::none(),
            &mut census,
        );
    }
    (c, census)
}

fn encoded_i32(total: i128, encode: EncodeMode) -> i32 {
    match encode {
        EncodeMode::Wrapping => total as i32,
        _ => total.clamp(i128::from(i32::MIN), i128::from(i32::MAX)) as i32,
    }
}

fn reference_i32<C: Enumerable<i32, Full<i32>>>(
    w: &CodedMatrix<'_, i32, Full<i32>, C>,
    a: &[i32],
    m: usize,
    k: usize,
    n: usize,
    encode: EncodeMode,
) -> Vec<i32> {
    let mut c = vec![0i32; m * n];
    for i in 0..m {
        for j in 0..n {
            let mut total = 0i128;
            for p in 0..k {
                total += i128::from(a[i * k + p]) * i128::from(w.at(j, p).get());
            }
            c[i * n + j] = encoded_i32(total, encode);
        }
    }
    c
}

#[allow(clippy::type_complexity)]
fn modular_i32_fixture() -> ([[A32; 4]; 16], Vec<u16>, Vec<i32>, usize) {
    let (m, k, n) = (16usize, 8usize, 64usize);
    let (space, block) = (16usize, 4usize);
    let rows = 16usize;
    assert!(
        tabulation_rows(space, blocking::L1_BYTES, core::mem::size_of::<i32>()) >= rows
            && tabulation_rows(space, blocking::L1_BYTES, core::mem::size_of::<i128>()) >= rows,
        "the fixture's row tile fits L1 in either lane"
    );
    let slab = slab_codes(space);
    let offer = 1 + (1 + slab).div_ceil(4);
    assert!(offer < 1 + 1 + slab, "the exact lane's smallest plan cannot fit");
    let flat: Vec<i32> =
        fill(space * block, 0xb32c, |x| (x as i32).wrapping_mul(0x9E37_79B9u32 as i32));
    let cells: [[A32; 4]; 16] =
        core::array::from_fn(|c| core::array::from_fn(|t| Alphabet::of(flat[c * block + t])));
    let a: Vec<i32> = fill(m * k, 0xa32c, |x| (x as i32).wrapping_mul(0x85EB_CA6Bu32 as i32));
    let stream: Vec<u16> = fill(n * (k / block), 0xc32c, |x| (x % 16) as u16);
    (cells, stream, a, offer)
}

#[test]
fn the_modular_table_lane_runs_exactly_when_the_encode_admits_it_cu_08() {
    for bound in [0u128, 1, 1 << 10, 1 << 31, u128::MAX] {
        assert_eq!(<i32 as Lane<i32>>::capacity(bound), None);
    }
    for bound in [0u128, 1, 1 << 10, 1 << 63, u128::MAX] {
        assert_eq!(<i64 as Lane<i64>>::capacity(bound), None);
    }
    assert!(<i32 as Tabulated>::modular_table_admitted(8));
    assert!(<i32 as Tabulated>::modular_table_admitted(16));
    assert!(<i32 as Tabulated>::modular_table_admitted(32));
    assert!(!<i32 as Tabulated>::modular_table_admitted(64));
    assert!(<i64 as Tabulated>::modular_table_admitted(32));
    assert!(<i64 as Tabulated>::modular_table_admitted(64));
    assert!(!<i64 as Tabulated>::modular_table_admitted(128));
    assert!(!<i8 as Tabulated>::modular_table_admitted(32));
    assert!(!<i16 as Tabulated>::modular_table_admitted(32));

    let (m, k, n) = (16usize, 8usize, 64usize);
    let (cells, stream, a, offer) = modular_i32_fixture();
    let book: Book<'_, i32, Full<i32>, 16, 4, u16> = Book::new(&cells);
    let w = CodedMatrix::new(book, n, k, &stream).expect("the codes describe n x k");
    let (wrapped, wrap_census) = tabulated_i32(&w, &a, m, n, EncodeMode::Wrapping, offer);
    assert_eq!(
        wrapped,
        reference_i32(&w, &a, m, k, n, EncodeMode::Wrapping),
        "the modular table must give the product's bytes"
    );
    assert_eq!(
        wrap_census.table_reads,
        (m * n * (k / 4)) as u64,
        "under wrapping the modular table ran: {wrap_census:?}"
    );
    for mode in [EncodeMode::Nearest, EncodeMode::Saturating] {
        let (got, census) = tabulated_i32(&w, &a, m, n, mode, offer);
        assert_eq!(got, reference_i32(&w, &a, m, k, n, mode), "under {mode:?}");
        assert_eq!(census.table_reads, 0, "under {mode:?} the call streams: {census:?}");
    }
}

#[test]
fn the_modular_table_lane_gives_the_dense_drivers_bytes_cb_09() {
    let (m, k, n) = (16usize, 8usize, 64usize);
    let (cells, stream, a, offer) = modular_i32_fixture();
    let book: Book<'_, i32, Full<i32>, 16, 4, u16> = Book::new(&cells);
    let w = CodedMatrix::new(book, n, k, &stream).expect("the codes describe n x k");
    let want = reference_i32(&w, &a, m, k, n, EncodeMode::Wrapping);
    for offer in [0usize, offer / 2, offer, offer * 2] {
        let (got, census) = tabulated_i32(&w, &a, m, n, EncodeMode::Wrapping, offer);
        assert_eq!(got, want, "an accumulator offer of {offer} ({census:?})");
    }
    let (_, census) = tabulated_i32(&w, &a, m, n, EncodeMode::Wrapping, offer);
    assert_eq!(census.table_reads, (m * n * (k / 4)) as u64, "{census:?}");
}

#[test]
fn the_modular_i64_table_lane_gives_the_dense_drivers_bytes_cb_09() {
    let (m, k, n) = (16usize, 8usize, 64usize);
    let (space, block) = (16usize, 4usize);
    let rows = 16usize;
    assert!(
        tabulation_rows(space, blocking::L1_BYTES, core::mem::size_of::<i64>()) >= rows
            && tabulation_rows(space, blocking::L1_BYTES, core::mem::size_of::<[u64; 3]>())
                >= rows,
        "the fixture's row tile fits L1 in either lane"
    );
    let slab = slab_codes(space);
    let tile = rows * n;
    let offer = tile + (tile + slab * rows * (k / block)).div_ceil(3);
    let flat: Vec<i64> = fill(space * block, 0xb64c, |x| {
        (x as i64).wrapping_mul(0x9E37_79B9_7F4A_7C15u64 as i64)
    });
    let cells: [[A64; 4]; 16] =
        core::array::from_fn(|c| core::array::from_fn(|t| Alphabet::of(flat[c * block + t])));
    let a: Vec<i64> = fill(m * k, 0xa64c, |x| {
        (x as i64).wrapping_mul(0x2545_F491_4F6C_DD1Du64 as i64)
    });
    let stream: Vec<u16> = fill(n * (k / block), 0xc64c, |x| (x % 16) as u16);
    let book: Book<'_, i64, Full<i64>, 16, 4, u16> = Book::new(&cells);
    let w = CodedMatrix::new(book, n, k, &stream).expect("the codes describe n x k");

    let mut want = vec![0i64; m * n];
    for i in 0..m {
        for j in 0..n {
            for p in 0..k {
                want[i * n + j] = want[i * n + j]
                    .wrapping_add(a[i * k + p].wrapping_mul(w.at(j, p).get()));
            }
        }
    }

    let mut panel = vec![0i64; suggested_tabulation_panel(space, block)];
    let mut accumulators = vec![[0u64; 3]; offer];
    let mut c = vec![0i64; m * n];
    let mut census = Census::default();
    {
        let activations: Vec<A64> = a.iter().map(|&x| Alphabet::of(x)).collect();
        let av = MatView::row_major(&activations, m, k).unwrap();
        let cv = MatViewMut::row_major(&mut c, m, n).unwrap();
        let mut triple = TabulatedTriple::new(av, w, cv).ok().unwrap();
        gemm_tabulated_counted(
            &mut triple,
            &Linear::Overwrite,
            GemmOptions {
                traversal: Traversal::Tabulated,
                encode: EncodeMode::Wrapping,
                ..Default::default()
            },
            &mut Scratch::with_accumulators(&mut panel, &mut accumulators),
            &mut Tabulation::none(),
            &mut Collapse::none(),
            &mut census,
        );
    }
    assert_eq!(c, want, "the modular table must give the product's bytes ({census:?})");
    assert_eq!(census.table_reads, (m * n * (k / block)) as u64, "{census:?}");
}

#[test]
fn exact_lanes_of_the_wide_families_hold_the_whole_sum() {
    let (m, k, n) = (5usize, 8usize, 9usize);
    let (space, block) = (16usize, 4usize);
    let shape = Shape { m, k, n };
    let flat: Vec<i32> = fill(space * block, 0xb32c, |x| {
        (x as i32).wrapping_mul(0x9E37_79B9u32 as i32)
    });
    let cells: [[A32; 4]; 16] =
        core::array::from_fn(|c| core::array::from_fn(|t| Alphabet::of(flat[c * block + t])));
    let book: Book<'_, i32, Full<i32>, 16, 4, u16> = Book::new(&cells);
    let stream: Vec<u16> = fill(n * (k / block), 0xc32c, |x| (x % 16) as u16);
    let w = CodedMatrix::new(book, n, k, &stream).unwrap();
    let a: Vec<i32> = fill(m * k, 0xa32c, |x| (x as i32).wrapping_mul(0x85EB_CA6Bu32 as i32));
    let offer = suggested_tabulation::<i32, Full<i32>>(shape, space, block);
    for mode in [EncodeMode::Nearest, EncodeMode::Saturating, EncodeMode::Wrapping] {
        let (got, census) = tabulated_i32(&w, &a, m, n, mode, offer);
        assert_eq!(got, reference_i32(&w, &a, m, k, n, mode), "{mode:?}");
        assert_eq!(census.table_reads, (m * n * (k / block)) as u64, "{mode:?}: {census:?}");
        assert_eq!(census.multiplies, (m * k * space) as u64, "{mode:?}: {census:?}");
    }

    let wide: [[A64; 4]; 16] = core::array::from_fn(|c| {
        core::array::from_fn(|t| Alphabet::of(i64::from(flat[c * block + t]) << 31))
    });
    let book: Book<'_, i64, Full<i64>, 16, 4, u16> = Book::new(&wide);
    let w = CodedMatrix::new(book, n, k, &stream).unwrap();
    let acts: Vec<A64> = a.iter().map(|&x| Alphabet::of(i64::from(x) << 30)).collect();
    let mut totals = vec![[0u64; 3]; suggested_tabulation::<i64, Full<i64>>(shape, space, block)];
    let mut panel = vec![0i64; suggested_tabulation_panel(space, block)];
    let mut c = vec![7i64; m * n];
    let mut census = Census::default();
    {
        let av = MatView::row_major(&acts, m, k).unwrap();
        let cv = MatViewMut::row_major(&mut c, m, n).unwrap();
        let mut triple = TabulatedTriple::new(av, w, cv).ok().unwrap();
        gemm_tabulated_counted(
            &mut triple,
            &Linear::Accumulate,
            GemmOptions { traversal: Traversal::Tabulated, ..Default::default() },
            &mut Scratch::with_accumulators(&mut panel, &mut totals),
            &mut Tabulation::none(),
            &mut Collapse::none(),
            &mut census,
        );
    }
    assert_eq!(census.table_reads, (m * n * (k / block)) as u64, "{census:?}");
    for i in 0..m {
        for j in 0..n {
            let mut total = 0i128;
            for p in 0..k {
                total += i128::from(a[i * k + p]) * i128::from(w.at(j, p).get() >> 31);
            }
            let want = if total == 0 {
                7
            } else if total > 0 {
                i64::MAX
            } else {
                i64::MIN
            };
            assert_eq!(c[i * n + j], want, "past every 64-bit output, the result clamps");
        }
    }
}
