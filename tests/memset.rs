use std::fmt;
use std::ops::Not;

use edit_simd::dispatch::{Arch, CpuFeatures, MemsetKernel};
use edit_simd::memset::{memset, memset_dispatch, memset_with, MemsetSafe};

const KERNELS: [MemsetKernel; 6] = [
    MemsetKernel::Avx2,
    MemsetKernel::Sse2,
    MemsetKernel::Lasx,
    MemsetKernel::Lsx,
    MemsetKernel::Neon,
    MemsetKernel::Fallback,
];

fn check_memset<T>(val: T, len: usize)
where
    T: MemsetSafe + Not<Output = T> + PartialEq + fmt::Debug,
{
    let mut buf = vec![!val; len];
    memset(&mut buf, val);
    assert!(buf.iter().all(|&x| x == val));
}

fn check_every_kernel<T>(val: T, len: usize)
where
    T: MemsetSafe + Not<Output = T> + PartialEq + fmt::Debug,
{
    for kernel in KERNELS {
        let mut buf = vec![!val; len + 2];
        memset_with(kernel, &mut buf[1..len + 1], val);
        assert_eq!(buf.len(), len + 2);
        assert_eq!(buf[0], !val);
        assert_eq!(buf[len + 1], !val);
        assert!(buf[1..len + 1].iter().all(|&x| x == val), "{kernel:?} {len}");
    }
}

#[test]
fn test_memset_empty() {
    check_memset(0u8, 0);
    check_memset(0u16, 0);
    check_memset(0u32, 0);
    check_memset(0u64, 0);
}

#[test]
fn test_memset_single() {
    check_memset(0u8, 1);
    check_memset(0xFFu8, 1);
    check_memset(0xABu16, 1);
    check_memset(0x12345678u32, 1);
    check_memset(0xDEADBEEFu64, 1);
}

#[test]
fn test_memset_small() {
    for &len in &[2, 3, 4, 5, 7, 8, 9] {
        check_memset(0xAAu8, len);
        check_memset(0xBEEFu16, len);
        check_memset(0xCAFEBABEu32, len);
        check_memset(0x1234567890ABCDEFu64, len);
    }
}

#[test]
fn test_memset_large() {
    check_memset(0u8, 1000);
    check_memset(0xFFu8, 1024);
    check_memset(0xBEEFu16, 512);
    check_memset(0xCAFEBABEu32, 256);
    check_memset(0x1234567890ABCDEFu64, 128);
}

#[test]
fn test_memset_various_values() {
    check_memset(0u8, 17);
    check_memset(0x7Fu8, 17);
    check_memset(0x8001u16, 17);
    check_memset(0xFFFFFFFFu32, 17);
    check_memset(0x8000000000000001u64, 17);
}

#[test]
fn test_memset_signed_types() {
    check_memset(-1i8, 8);
    check_memset(-2i16, 8);
    check_memset(-3i32, 8);
    check_memset(-4i64, 8);
    check_memset(-5isize, 8);
}

#[test]
fn test_memset_usize_isize() {
    check_memset(0usize, 4);
    check_memset(usize::MAX, 4);
    check_memset(0isize, 4);
    check_memset(isize::MIN, 4);
}

#[test]
fn test_memset_alignment() {
    // Check that memset works for slices not aligned to 8 bytes
    let mut buf = [0u8; 15];
    for offset in 0..8 {
        let slice = &mut buf[offset..(offset + 7)];
        memset(slice, 0x5A);
        assert!(slice.iter().all(|&x| x == 0x5A));
    }
}

#[test]
fn every_kernel_fills_every_length_and_width() {
    for len in 0..300 {
        check_every_kernel(0xC3u8, len);
        check_every_kernel(0xBEEFu16, len);
        check_every_kernel(0xCAFEBABEu32, len);
        check_every_kernel(0x0123_4567_89AB_CDEFu64, len);
        check_every_kernel(-7i16, len);
        check_every_kernel(isize::MIN + 3, len);
    }
}

#[test]
fn fill_does_not_depend_on_alignment() {
    for shift in 0..32 {
        for len in [0usize, 1, 7, 16, 31, 33, 100, 130, 257] {
            for kernel in KERNELS {
                let mut bytes = vec![0u8; len + 40];
                memset_with(kernel, &mut bytes[shift..shift + len], 0x5A);
                assert!(bytes[shift..shift + len].iter().all(|&x| x == 0x5A));
                assert!(bytes[..shift].iter().all(|&x| x == 0));
                assert!(bytes[shift + len..].iter().all(|&x| x == 0));

                let mut words = vec![0u16; len + 40];
                memset_with(kernel, &mut words[shift..shift + len], 0x1234);
                assert!(words[shift..shift + len].iter().all(|&x| x == 0x1234));
                assert!(words[..shift].iter().all(|&x| x == 0));
                assert!(words[shift + len..].iter().all(|&x| x == 0));
            }
        }
    }
}

#[test]
fn seven_words_of_cafebabe() {
    for kernel in KERNELS {
        let mut buf = [0u32; 7];
        memset_with(kernel, &mut buf, 0xCAFEBABE);
        assert_eq!(buf, [0xCAFEBABE; 7]);
    }
}

#[test]
fn lanes_keep_each_byte_of_the_value() {
    for kernel in KERNELS {
        let mut buf = [0u16; 11];
        memset_with(kernel, &mut buf, 0xBE01);
        assert_eq!(buf, [0xBE01; 11]);
        let mut buf = [0u32; 5];
        memset_with(kernel, &mut buf, 0x0102_0304);
        assert_eq!(buf, [0x0102_0304; 5]);
    }
}

#[test]
fn fill_dispatch_picks_the_widest_kernel() {
    let cases = [
        (CpuFeatures { arch: Arch::X86_64, avx2: true, lasx: false, lsx: false }, MemsetKernel::Avx2),
        (CpuFeatures { arch: Arch::X86_64, avx2: false, lasx: false, lsx: false }, MemsetKernel::Sse2),
        (CpuFeatures { arch: Arch::X86, avx2: false, lasx: false, lsx: false }, MemsetKernel::Sse2),
        (CpuFeatures { arch: Arch::LoongArch64, avx2: false, lasx: true, lsx: true }, MemsetKernel::Lasx),
        (CpuFeatures { arch: Arch::LoongArch64, avx2: false, lasx: false, lsx: true }, MemsetKernel::Lsx),
        (CpuFeatures { arch: Arch::LoongArch64, avx2: false, lasx: false, lsx: false }, MemsetKernel::Fallback),
        (CpuFeatures { arch: Arch::AArch64, avx2: false, lasx: false, lsx: false }, MemsetKernel::Neon),
        (CpuFeatures { arch: Arch::Other, avx2: true, lasx: true, lsx: true }, MemsetKernel::Fallback),
    ];
    for (features, kernel) in cases {
        assert_eq!(MemsetKernel::select(&features), kernel);
        let mut buf = [0u64; 9];
        assert_eq!(memset_dispatch(&features, &mut buf, 0xFEED_F00D_DEAD_BEEF), kernel);
        assert_eq!(buf, [0xFEED_F00D_DEAD_BEEF; 9]);
    }
}
