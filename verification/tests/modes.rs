use tabulated_gemm::books::Book;
use tabulated_gemm::codec::CodedMatrix;
use tabulated_gemm::element::{Alphabet, Full};
use tabulated_gemm::epilogue::{EncodeMode, Linear};
use tabulated_gemm::gemm::gemm_tabulated;
use tabulated_gemm::scratch::{Collapse, Scratch, Tabulation};
use tabulated_gemm::sequence::Backend;
use tabulated_gemm::sizing::{suggested_tabulation_index, suggested_tabulation_panel, Shape};
use tabulated_gemm::triple::{GemmOptions, TabulatedTriple, Traversal};
use tabulated_gemm::view::{MatView, MatViewMut, Strides};

type A8 = Alphabet<i8, Full<i8>>;

fn fill<T, F: Fn(u64) -> T>(len: usize, salt: u64, map: F) -> Vec<T> {
    let mut s = 0x243F_6A88_85A3_08D3u64 ^ salt;
    (0..len)
        .map(|_| {
            s ^= s << 13;
            s ^= s >> 7;
            s ^= s << 17;
            map(s >> 33)
        })
        .collect()
}

/// Every knob but the mode: the traversal, the backend, the panel on offer and
/// the rectangles that the output is written in. Gives the one answer.
fn one_answer(a: &[i8], b: &[i8], shape: Shape, encode: EncodeMode) -> Vec<i8> {
    let Shape { m, k, n } = shape;
    let symbols: Vec<[A8; 1]> = (0..256usize).map(|x| [Alphabet::of(x as u8 as i8)]).collect();
    let symbols: [[A8; 1]; 256] = symbols.try_into().ok().unwrap();
    let book: Book<'_, i8, Full<i8>, 256, 1, u8> = Book::new(&symbols);
    let codes: Vec<u8> = (0..n * k).map(|x| b[(x % k) * n + x / k] as u8).collect();
    let cells: Vec<A8> = a.iter().map(|&x| Alphabet::of(x)).collect();
    let mut answer: Option<Vec<i8>> = None;
    for traversal in [Traversal::OutputMajor, Traversal::Blocked, Traversal::Tabulated] {
        for backend in [
            Backend::Auto,
            Backend::Portable,
            Backend::Avx2,
            Backend::Avx512Vnni,
            Backend::Neon,
            Backend::NeonDotprod,
        ] {
            for panel in [0usize, 1, k, n * k + k, suggested_tabulation_panel(256, 1)] {
                for (tr, tc) in [(m, n), (1, 1), (2, 3), (m, 1), (1, n)] {
                    let mut c = vec![0i8; m * n];
                    let mut buf = vec![0i8; panel];
                    for row in (0..m).step_by(tr) {
                        for col in (0..n).step_by(tc) {
                            let (rows, cols) = (tr.min(m - row), tc.min(n - col));
                            let av =
                                MatView::new(&cells[row * k..], rows, k, Strides::row_major(k));
                            let w = CodedMatrix::new(
                                book,
                                cols,
                                k,
                                &codes[col * k..(col + cols) * k],
                            );
                            let cv = MatViewMut::new(
                                &mut c[row * n + col..],
                                rows,
                                cols,
                                Strides { rs: n as isize, cs: 1 },
                            );
                            let mut triple =
                                TabulatedTriple::new(av.unwrap(), w.unwrap(), cv.unwrap())
                                    .ok()
                                    .unwrap();
                            let mut index = vec![0usize; suggested_tabulation_index(shape)];
                            gemm_tabulated(
                                &mut triple,
                                &Linear::Overwrite,
                                GemmOptions { traversal, backend, encode, ..Default::default() },
                                &mut Scratch::with_accumulators(&mut buf, &mut [0i128; 256]),
                                &mut Tabulation::with_index(&mut [0i64; 4096], &mut index),
                                &mut Collapse::none(),
                            );
                        }
                    }
                    match &answer {
                        None => answer = Some(c),
                        Some(want) => {
                            assert_eq!(&c, want, "{traversal:?} {backend:?} {panel} {tr}x{tc}")
                        }
                    }
                }
            }
        }
    }
    answer.unwrap()
}

#[test]
fn within_one_element_type_the_encode_mode_is_the_only_mover_cd_28() {
    let (m, k, n) = (5usize, 7usize, 6usize);
    let shape = Shape { m, k, n };
    let modes = [
        EncodeMode::Nearest,
        EncodeMode::TowardZero,
        EncodeMode::Saturating,
        EncodeMode::Wrapping,
    ];
    let mut ring_a: Vec<i8> = fill(m * k, 0xcd28, |x| ((x % 255) as i64 - 127) as i8);
    let mut ring_b: Vec<i8> = fill(k * n, 0xcd29, |x| ((x % 255) as i64 - 127) as i8);
    for x in ring_a.iter_mut().take(k) {
        *x = 127;
    }
    for p in 0..k {
        ring_b[p * n] = 127;
    }
    let ring: Vec<Vec<i8>> =
        modes.iter().map(|&mode| one_answer(&ring_a, &ring_b, shape, mode)).collect();
    assert_eq!(ring[0], ring[1], "the ring clamps under TowardZero");
    assert_eq!(ring[0], ring[2], "the ring clamps under Saturating");
    assert_ne!(ring[0], ring[3], "and Wrapping moves the bytes, so the mode is not inert");
    assert_eq!(ring[0][0], 127, "seven products of the largest element are clamped");
    assert_eq!(ring[3][0], (7 * 127 * 127i32) as i8);
}
