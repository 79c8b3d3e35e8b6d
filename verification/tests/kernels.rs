use tabulated_gemm::codec::IndexStream;
use tabulated_gemm::isa::kernel::{Factorization, LaneLayout};
use tabulated_gemm::isa::{
    absent_arm, absent_wasm, absent_x86, arm, avx2, avx512vnni, neon, neon_dotprod, nibble,
    packed, portable, reduce, tables, tropical,
};
use tabulated_gemm::sequence::{Backend, Host, Sequence};

fn octets(len: usize, salt: u64) -> Vec<i8> {
    let mut s = 0x243F_6A88_85A3_08D3u64 ^ salt;
    (0..len)
        .map(|_| {
            s ^= s << 13;
            s ^= s >> 7;
            s ^= s << 17;
            (s >> 40) as i8
        })
        .collect()
}

fn tile(kc: usize, mr: usize, nr: usize, pa: &[i8], pb: &[i8]) -> Vec<i32> {
    let mut acc = vec![0i32; mr * nr];
    for i in 0..mr {
        for j in 0..nr {
            for p in 0..kc {
                acc[i * nr + j] += i32::from(pa[p * mr + i]) * i32::from(pb[p * nr + j]);
            }
        }
    }
    acc
}

#[test]
fn every_octet_kernel_gives_the_reference_tile() {
    for kc in [0usize, 1, 2, 3, 4, 7, 8, 13] {
        let kernels: [(&str, usize, usize, fn(usize, &[i8], &[i8], &mut [i32])); 8] = [
            ("portable", 4, 4, portable::mac_i8_i32),
            ("avx2", 6, 16, avx2::mac_tile),
            ("dpwssd", 8, 16, avx512vnni::mac_tile_dpwssd),
            ("dpbusd", 8, 16, avx512vnni::mac_tile_dpbusd),
            ("neon", 4, 8, neon::mac_tile),
            ("neon_i8", 4, 8, arm::neon_i8),
            ("dotprod", 8, 12, neon_dotprod::mac_tile),
            ("lookup", 8, 12, nibble::neon_lookup_i8::<8, 12>),
        ];
        for (name, mr, nr, kernel) in kernels {
            let (pa, pb) = (octets(mr * kc, 1), octets(nr * kc, 2));
            let mut acc = vec![77i32; mr * nr];
            kernel(kc, &pa, &pb, &mut acc);
            assert_eq!(acc, tile(kc, mr, nr, &pa, &pb), "{name} at depth {kc}");
        }
        let (pa, pb) = (vec![-128i8; 8 * kc], vec![-128i8; 16 * kc]);
        let mut acc = vec![0i32; 128];
        avx512vnni::dpbusd(kc, &pa, &pb, &mut acc);
        assert!(acc.iter().all(|&x| x == 16384 * kc as i32), "the corner of the alphabet");
    }
}

#[test]
fn wider_reference_kernels_are_exact_or_wrap() {
    let (pa, pb) = ([i32::MIN; 8], [i32::MIN; 8]);
    let mut exact = [0i64; 16];
    portable::mac_i32_i64(1, &pa, &pb, &mut exact);
    assert!(exact.iter().all(|&x| x == 1i64 << 62));
    let mut wrapped = [1i32; 16];
    portable::mac_i32_mod(2, &pa, &pb, &mut wrapped);
    assert!(wrapped.iter().all(|&x| x == 0));
    let (qa, qb) = ([i64::MIN; 4], [i64::MAX; 4]);
    let mut wide = [0i128; 16];
    portable::mac_i64_i128(1, &qa, &qb, &mut wide);
    assert!(wide.iter().all(|&x| x == i128::from(i64::MIN) * i128::from(i64::MAX)));
    let mut low = [0i64; 16];
    portable::mac_i64_mod(1, &qa, &qb, &mut low);
    assert!(low.iter().all(|&x| x == i64::MIN.wrapping_mul(i64::MAX)));
    let (ha, hb) = ([i16::MIN; 4], [i16::MIN; 4]);
    let mut halves = [0i64; 16];
    portable::mac_i16_i64(1, &ha, &hb, &mut halves);
    assert!(halves.iter().all(|&x| x == 1 << 30));
    let mut narrow = [0i32; 16];
    portable::mac_i16_mod(1, &ha, &hb, &mut narrow);
    assert!(narrow.iter().all(|&x| x == 1 << 30));
    let (wa, wb) = ([3i32, -4, 5, -6], [7i32, -8, 9, -10, 11, -12, 13, -14]);
    let mut acc = [0i64; 32];
    arm::neon_i32_exact(1, &wa, &wb, &mut acc);
    assert_eq!(acc[0], 21);
    assert_eq!(acc[3 * 8 + 7], 84);
    let mut one = [0i64; 8];
    arm::neon_i32_exact_one(1, &wa[1..2], &wb, &mut one);
    assert_eq!(one[1], 32);
}

#[test]
fn packed_panels_give_the_tile_of_their_steps() {
    let kc = 8usize;
    let (pa, pb) = (octets(8 * kc, 3), octets(12 * kc, 4));
    let mut acc = vec![0i32; 96];
    packed::neon_dotprod_i8(kc, &pa, &pb, &mut acc);
    for i in 0..8 {
        for j in 0..12 {
            let mut want = 0i32;
            for q in 0..kc / 4 {
                for g in 0..4 {
                    want += i32::from(pa[(q * 8 + i) * 4 + g]) * i32::from(pb[(q * 12 + j) * 4 + g]);
                }
            }
            assert_eq!(acc[i * 12 + j], want);
        }
    }
}

#[test]
fn reductions_give_the_dot_product_of_each_row() {
    let kc = 32usize;
    let (pa, pb) = (octets(4 * kc, 5), octets(kc, 6));
    let want: Vec<i32> = (0..4)
        .map(|i| (0..kc).map(|p| i32::from(pa[i * kc + p]) * i32::from(pb[p])).sum())
        .collect();
    let mut acc = [0i32; 4];
    arm::neon_r_i8(kc, &pa, &pb, &mut acc);
    assert_eq!(acc, want[..]);
    arm::neon_dotprod_r_i8(kc, &pa, &pb, &mut acc);
    assert_eq!(acc, want[..]);
    reduce::neon_lookup_reduce_i8::<4>(kc, &pa, &pb, &mut acc);
    assert_eq!(acc, want[..]);
    let mut one = [0i32; 1];
    arm::neon_r_i8_one(kc, &pa[kc..2 * kc], &pb, &mut one);
    assert_eq!(one[0], want[1]);
    arm::neon_dotprod_r_i8_one(kc, &pa[kc..2 * kc], &pb, &mut one);
    assert_eq!(one[0], want[1]);
    reduce::neon_lookup_reduce_i8::<1>(kc, &pa[kc..2 * kc], &pb, &mut one);
    assert_eq!(one[0], want[1]);
}

#[test]
fn every_product_of_octets_is_looked_up_exactly() {
    for a in i8::MIN..=i8::MAX {
        for b in i8::MIN..=i8::MAX {
            assert_eq!(nibble::i8_product(a, b), i32::from(a) * i32::from(b));
        }
    }
}

#[test]
fn the_greatest_saturated_sum_wins() {
    let pa = [1i16, i16::MAX, -5, i16::MIN, 2, 3, 4, 5];
    let pb = [10i16, 20, 30, 40, 50, 60, 70, i16::MIN, 1, 1, 1, 1, 1, 1, 1, 1];
    let mut acc = [0i16; 32];
    tropical::neon_trop_i16(2, &pa, &pb, &mut acc);
    assert_eq!(acc[0], 11);
    assert_eq!(acc[8], i16::MAX);
    assert_eq!(acc[3 * 8 + 7], 6);
    tropical::neon_trop_i16(0, &[], &[], &mut acc);
    assert!(acc.iter().all(|&x| x == i16::MIN));
}

#[test]
fn table_builds_and_gathers_agree_with_their_sums() {
    let (rows, space, block) = (8usize, 4usize, 3usize);
    let (book, acts) = (octets(space * block, 7), octets(block * rows, 8));
    let mut out = vec![0i32; space * rows];
    tables::neon_table_build_lookup(rows, space, block, &book, &acts, &mut out);
    for c in 0..space {
        for i in 0..rows {
            let want: i32 = (0..block)
                .map(|t| i32::from(acts[t * rows + i]) * i32::from(book[c * block + t]))
                .sum();
            assert_eq!(out[c * rows + i], want);
        }
    }
    let signs: Vec<i8> = (0..space * block).map(|x| (x % 3) as i8 - 1).collect();
    let mut signed = vec![0i32; space * rows];
    tables::neon_table_build_bound1(rows, space, block, &signs, &acts, &mut signed);
    for c in 0..space {
        for i in 0..rows {
            let want: i32 = (0..block)
                .map(|t| i32::from(acts[t * rows + i]) * i32::from(signs[c * block + t]))
                .sum();
            assert_eq!(signed[c * rows + i], want);
        }
    }
    let wide_book: Vec<i16> = book.iter().map(|&x| i16::from(x) * 200).collect();
    let wide_acts: Vec<i16> = acts.iter().map(|&x| i16::from(x) * 200).collect();
    let mut wide = vec![0i64; space * rows];
    tables::neon_build16(rows, space, block, &wide_book, &wide_acts, &mut wide);
    for (w, n) in wide.iter().zip(&out) {
        assert_eq!(*w, i64::from(*n) * 40000);
    }

    let slab = space * rows;
    let stack: Vec<i32> = out.iter().chain(&signed).copied().collect();
    let off = [8u32, 16, 3, 24 + 1024];
    let mut lane = vec![5i32; 2 * rows];
    tables::neon_gather::<i8, i32>(rows, 2, 2, slab, &stack, &off, &mut lane);
    for i in 0..rows {
        assert_eq!(lane[i], 5 + stack[8 + i] + stack[slab + i]);
        assert_eq!(lane[rows + i], 5 + stack[16 + i] + stack[slab + 24 + i]);
    }
    let codes = [1u8, 4, 9, 2, 7, 9];
    let mut coded = vec![0i32; 2 * rows];
    let stream = IndexStream::U8(&codes);
    tables::neon_codes::<i8, i32>(rows, 2, 2, slab, &stack, &stream, 3, &mut coded);
    for i in 0..rows {
        assert_eq!(coded[i], stack[rows + i] + stack[slab + i]);
        assert_eq!(coded[rows + i], stack[2 * rows + i] + stack[slab + 3 * rows + i]);
    }
}

#[test]
fn declarations_follow_the_host() {
    let plain = Host::plain();
    let arm_host = Host { neon: true, dotprod: true, ..plain };
    let vnni = Host { avx512f: true, avx512bw: true, avx512vnni: true, ..plain };
    assert!(!avx2::is_available(&plain) && avx2::is_available(&Host { avx2: true, ..plain }));
    assert!(avx512vnni::is_available(&vnni));
    assert!(!avx512vnni::is_available(&Host { avx512bw: false, ..vnni }));
    assert!(neon::is_available() && arm::neon_available());
    assert!(neon_dotprod::is_available(&arm_host) && arm::dotprod_available(&arm_host));
    assert!(!neon_dotprod::is_available(&plain) && !arm::dotprod_available(&plain));
    assert!(!absent_arm::neon_available() && !absent_arm::dotprod_available());
    assert!(!absent_x86::avx2_available() && !absent_x86::avx512vnni_available());
    assert!(!absent_wasm::simd128_available());
    assert!(absent_wasm::simd128_table_i8_i32(16, 1).is_none());
    assert!(absent_wasm::simd128_table_i16_i64(16, 1).is_none());

    assert_eq!(avx512vnni::spec_dpbusd().lane_cap, i32::MAX as u128 / 255 * 128);
    assert_eq!(avx512vnni::spec_dpwssd().lane_cap, i32::MAX as u128);
    assert_eq!((avx2::spec().mr, avx2::spec().nr, avx2::spec().k_group), (6, 16, 2));
    assert_eq!(neon::spec().k_group, 8);
    assert_eq!(neon_dotprod::spec().backend, Backend::NeonDotprod);
    assert_eq!(portable::i64_mod().factorization, Factorization::Modular);
    assert_eq!(portable::i8_i32().lane_cap, i32::MAX as u128);
    assert_eq!(arm::neon_i8_i32().products_per_step, 8);
    assert_eq!(arm::neon_dotprod_i8_i32().kernel.k_group, 4);
    assert_eq!(arm::neon_r_i8_i32().lane_layout, LaneLayout::Contiguous);
    assert_eq!(arm::neon_lookup_spec::<8, 12>(Backend::NeonDotprod).products_per_step, 12);
    assert_eq!(arm::neon_lookup_reduce_spec::<4>(Backend::Neon).kernel.nr, 1);

    for (rows, group) in [(16usize, 1usize), (16, 2), (8, 1), (8, 2)] {
        let spec = arm::neon_table_i8_i32(rows, group).unwrap();
        assert_eq!((spec.rows, spec.group, spec.lanes_per_add), (rows, group, 4));
        assert_eq!(spec.sequence, Sequence::Lookup);
        let bound1 = arm::neon_table_i8_i32_bound1(rows, group).unwrap();
        assert_eq!((bound1.max_bound, bound1.build_products_per_step), (1, 4));
        let wide = arm::neon_table_i16_i64(rows, group).unwrap();
        assert_eq!((wide.lanes_per_add, wide.lane_cap), (2, i64::MAX as u128));
    }
    assert!(arm::neon_table_i8_i32(4, 1).is_none());
    assert!(arm::neon_table_i8_i32_bound1(16, 3).is_none());
    assert!(arm::neon_table_i16_i64(2, 2).is_none());
}
