use edit_simd::dispatch::{Arch, CpuFeatures, LinesKernel};
use edit_simd::lines_fwd::{lines_fwd, lines_fwd_dispatch, lines_fwd_fallback, lines_fwd_with};
use edit_simd::CoordType;

const KERNELS: [LinesKernel; 5] = [
    LinesKernel::Avx2,
    LinesKernel::Lasx,
    LinesKernel::Lsx,
    LinesKernel::Neon,
    LinesKernel::Fallback,
];

fn make_rng() -> impl FnMut() -> usize {
    let mut state: u64 = 0x2545_f491_4f6c_dd1d;
    move || {
        state ^= state << 13;
        state ^= state >> 7;
        state ^= state << 17;
        state as usize
    }
}

fn generate_random_text(len: usize) -> String {
    const ALPHABET: &[u8; 20] = b"0123456789abcdef \n\n\n";
    let mut rng = make_rng();
    let mut text = String::with_capacity(len);
    for _ in 0..len {
        text.push(ALPHABET[rng() % ALPHABET.len()] as char);
    }
    text
}

fn count_lines(text: &str) -> usize {
    text.bytes().filter(|&b| b == b'\n').count()
}

fn reference_lines_fwd(
    haystack: &[u8],
    mut offset: usize,
    mut line: CoordType,
    line_stop: CoordType,
) -> (usize, CoordType) {
    offset = offset.min(haystack.len());
    if line < line_stop {
        while offset < haystack.len() {
            let c = haystack[offset];
            offset += 1;
            if c == b'\n' {
                line += 1;
                if line == line_stop {
                    break;
                }
            }
        }
    }
    (offset, line)
}

#[test]
fn pseudo_fuzz() {
    let text = generate_random_text(1024);
    let lines = count_lines(&text);
    let mut offset_rng = make_rng();
    let mut line_rng = make_rng();
    let mut line_distance_rng = make_rng();

    for _ in 0..1000 {
        let offset = offset_rng() % (text.len() + 1);
        let line = line_rng() % 100;
        let line_stop = (line + line_distance_rng() % (lines + 1)).saturating_sub(5);

        let line = line as CoordType;
        let line_stop = line_stop as CoordType;

        let expected = reference_lines_fwd(text.as_bytes(), offset, line, line_stop);
        let actual = lines_fwd(text.as_bytes(), offset, line, line_stop);

        assert_eq!(expected, actual);
    }
}

#[test]
fn every_kernel_agrees_with_the_scalar_walk() {
    let text = generate_random_text(700);
    let bytes = text.as_bytes();
    let lines = count_lines(&text) as CoordType;
    for offset in [0usize, 1, 5, 31, 32, 33, 100, 127, 128, 129, 500, 699, 700, 900] {
        for line in [0 as CoordType, 3, 17] {
            for stop in [0 as CoordType, 1, 2, 10, 40, lines, lines + 20] {
                let expected = reference_lines_fwd(bytes, offset, line, stop);
                for kernel in KERNELS {
                    assert_eq!(lines_fwd_with(kernel, bytes, offset, line, stop), expected);
                }
            }
        }
    }
}

#[test]
fn seek_at_or_past_target_moves_nothing() {
    let text = b"a\nb\nc\nd\n";
    for kernel in KERNELS {
        assert_eq!(lines_fwd_with(kernel, text, 2, 5, 5), (2, 5));
        assert_eq!(lines_fwd_with(kernel, text, 3, 9, 4), (3, 9));
        assert_eq!(lines_fwd_with(kernel, text, 50, 9, 4), (8, 9));
    }
}

#[test]
fn too_few_newlines_runs_to_the_end() {
    let mut text = vec![b'x'; 300];
    for at in [10usize, 64, 65, 200, 299] {
        text[at] = b'\n';
    }
    for kernel in KERNELS {
        assert_eq!(lines_fwd_with(kernel, &text, 0, 100, 200), (300, 105));
        assert_eq!(lines_fwd_with(kernel, &text, 65, 0, 10), (300, 3));
        assert_eq!(lines_fwd_with(kernel, &text, 0, 0, 5), (300, 5));
    }
}

#[test]
fn empty_range_and_no_newlines() {
    for kernel in KERNELS {
        assert_eq!(lines_fwd_with(kernel, b"", 0, 0, 3), (0, 0));
        assert_eq!(lines_fwd_with(kernel, b"", 7, 1, 3), (0, 1));
        assert_eq!(lines_fwd_with(kernel, &[b'q'; 200], 0, 4, 9), (200, 4));
        assert_eq!(lines_fwd_with(kernel, &[b'q'; 200], 200, 4, 9), (200, 4));
    }
}

#[test]
fn result_is_monotone_and_bounded() {
    let text = generate_random_text(513);
    let bytes = text.as_bytes();
    let mut rng = make_rng();
    for _ in 0..500 {
        let offset = rng() % 600;
        let line = (rng() % 50) as CoordType;
        let stop = (rng() % 80) as CoordType;
        let (off, ln) = lines_fwd(bytes, offset, line, stop);
        assert!(ln >= line);
        if line <= stop {
            assert!(ln <= stop);
        }
        assert!(off >= offset.min(bytes.len()));
        assert!(off <= bytes.len());
    }
}

#[test]
fn tenth_newline_of_a_known_haystack() {
    let mut rng = make_rng();
    let mut text: Vec<u8> = (0..1024).map(|_| b'a' + (rng() % 26) as u8).collect();
    let positions: Vec<usize> = (0..37).map(|i| 5 + i * 27).collect();
    for &p in &positions {
        text[p] = b'\n';
    }
    let expected = (positions[9] + 1, 10);
    assert_eq!(expected, (249, 10));
    for kernel in KERNELS {
        assert_eq!(lines_fwd_with(kernel, &text, 0, 0, 10), expected);
    }
    assert_eq!(lines_fwd(&text, 0, 0, 10), expected);
}

#[test]
fn result_does_not_depend_on_alignment() {
    let text = generate_random_text(400);
    let mut storage = vec![b'-'; 400 + 64];
    for shift in 0..32 {
        storage[shift..shift + 400].copy_from_slice(text.as_bytes());
        let moved = &storage[shift..shift + 400];
        for stop in [1 as CoordType, 4, 9, 30] {
            let expected = reference_lines_fwd(text.as_bytes(), 3, 0, stop);
            for kernel in KERNELS {
                assert_eq!(lines_fwd_with(kernel, moved, 3, 0, stop), expected);
            }
        }
    }
}

#[test]
fn scalar_kernel_stops_at_the_range_end() {
    let text = b"ab\ncd\nef\ngh\n";
    assert_eq!(lines_fwd_fallback(text, 0, 5, 0, 3), (5, 1));
    assert_eq!(lines_fwd_fallback(text, 0, 6, 0, 3), (6, 2));
    assert_eq!(lines_fwd_fallback(text, 4, 12, 1, 3), (9, 3));
}

#[test]
fn line_seek_dispatch_picks_the_widest_kernel() {
    let text = b"x\ny\nz\n";
    let cases = [
        (CpuFeatures { arch: Arch::X86_64, avx2: true, lasx: false, lsx: false }, LinesKernel::Avx2),
        (CpuFeatures { arch: Arch::X86_64, avx2: false, lasx: false, lsx: false }, LinesKernel::Fallback),
        (CpuFeatures { arch: Arch::X86, avx2: true, lasx: false, lsx: false }, LinesKernel::Fallback),
        (CpuFeatures { arch: Arch::LoongArch64, avx2: false, lasx: true, lsx: true }, LinesKernel::Lasx),
        (CpuFeatures { arch: Arch::LoongArch64, avx2: false, lasx: false, lsx: true }, LinesKernel::Lsx),
        (CpuFeatures { arch: Arch::LoongArch64, avx2: false, lasx: false, lsx: false }, LinesKernel::Fallback),
        (CpuFeatures { arch: Arch::AArch64, avx2: false, lasx: false, lsx: false }, LinesKernel::Neon),
        (CpuFeatures { arch: Arch::Other, avx2: true, lasx: true, lsx: true }, LinesKernel::Fallback),
    ];
    for (features, kernel) in cases {
        assert_eq!(LinesKernel::select(&features), kernel);
        assert_eq!(lines_fwd_dispatch(&features, text, 0, 0, 2), (kernel, (4, 2)));
    }
}
