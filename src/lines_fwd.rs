//! Seeking forward through a byte buffer by a number of lines.
use vstd::prelude::*;

use crate::dispatch::{CpuFeatures, LinesKernel, preferred_lines_kernel};
use crate::{align_offset, CoordType};

verus! {

/// The line feed byte.
pub const LF: u8 = 10;

/// Number of line feeds in `s[lo..hi]`.
pub open spec fn newlines(s: Seq<u8>, lo: int, hi: int) -> nat
    decreases hi - lo,
{
    if hi <= lo {
        0
    } else {
        newlines(s, lo, hi - 1) + if s[hi - 1] == LF {
            1nat
        } else {
            0nat
        }
    }
}

/// `(off, ln)` is what seeking from byte `beg` at line `line` towards line
/// `stop` yields within `s[beg..end]`.
///
/// When `line` is already at or past `stop` nothing moves. Otherwise, when
/// fewer than `stop - line` line feeds follow `beg`, the scan runs to `end`
/// and counts them all; else it ends just past the line feed that brings
/// the line index to `stop`.
pub open spec fn seek_ok(
    s: Seq<u8>,
    beg: int,
    end: int,
    line: int,
    stop: int,
    off: int,
    ln: int,
) -> bool {
    if line >= stop {
        off == beg && ln == line
    } else if newlines(s, beg, end) < stop - line {
        off == end && ln == line + newlines(s, beg, end)
    } else {
        &&& ln == stop
        &&& beg < off <= end
        &&& s[off - 1] == LF
        &&& newlines(s, beg, off) == stop - line
    }
}

/// Line feeds in adjacent ranges add up.
pub proof fn lemma_newlines_split(s: Seq<u8>, a: int, b: int, c: int)
    requires
        a <= b <= c,
    ensures
        newlines(s, a, c) == newlines(s, a, b) + newlines(s, b, c),
    decreases c - b,
{
    if b < c {
        lemma_newlines_split(s, a, b, c - 1);
    }
}

/// A range holds no more line feeds than bytes.
pub proof fn lemma_newlines_bound(s: Seq<u8>, a: int, b: int)
    requires
        a <= b,
    ensures
        newlines(s, a, b) <= b - a,
    decreases b - a,
{
    if a < b {
        lemma_newlines_bound(s, a, b - 1);
    }
}

/// A seek that stopped at `off` also stops at `off` when the range ends there.
proof fn lemma_seek_truncate(
    s: Seq<u8>,
    beg: int,
    end: int,
    line: int,
    stop: int,
    off: int,
    ln: int,
)
    requires
        beg <= end,
        seek_ok(s, beg, end, line, stop, off, ln),
    ensures
        seek_ok(s, beg, off, line, stop, off, ln),
{
}

/// Seeking through `[beg, mid)` and then on through `[mid', end)` from where
/// the first seek stopped is one seek through `[beg, end)`.
proof fn lemma_seek_compose(
    s: Seq<u8>,
    beg: int,
    mid: int,
    end: int,
    line: int,
    stop: int,
    off1: int,
    ln1: int,
    off2: int,
    ln2: int,
)
    requires
        beg <= mid <= end,
        seek_ok(s, beg, mid, line, stop, off1, ln1),
        seek_ok(s, off1, end, ln1, stop, off2, ln2),
    ensures
        seek_ok(s, beg, end, line, stop, off2, ln2),
{
    if line < stop {
        lemma_newlines_split(s, beg, mid, end);
        if newlines(s, beg, mid) < stop - line {
            if newlines(s, mid, end) >= stop - ln1 {
                lemma_newlines_split(s, beg, mid, off2);
            }
        } else {
            lemma_newlines_split(s, beg, off1, end);
        }
    }
}

/// A block of `n` line feeds that does not reach `stop` extends a seek by
/// the whole block.
proof fn lemma_seek_advance(
    s: Seq<u8>,
    beg0: int,
    line0: int,
    beg: int,
    line: int,
    stop: int,
    width: int,
    n: int,
)
    requires
        beg0 <= beg,
        0 <= width,
        line < stop,
        n == newlines(s, beg, beg + width),
        line + n < stop,
        seek_ok(s, beg0, beg, line0, stop, beg, line),
    ensures
        seek_ok(s, beg0, beg + width, line0, stop, beg + width, line + n),
{
    lemma_seek_compose(s, beg0, beg, beg + width, line0, stop, beg, line, beg + width, line + n);
}

/// An empty seek stays where it is.
proof fn lemma_seek_empty(s: Seq<u8>, beg: int, line: int, stop: int)
    ensures
        seek_ok(s, beg, beg, line, stop, beg, line),
{
}

/// Counts the line feeds in `s[at..at + 4 * lane]`, one lane after another,
/// the way the vector kernels accumulate four comparisons before one
/// horizontal sum.
fn count_block4(s: &[u8], at: usize, lane: usize) -> (n: usize)
    requires
        at + 4 * lane <= s@.len(),
    ensures
        n == newlines(s@, at as int, at + 4 * lane),
        n <= 4 * lane,
{
    let len = s.len();
    assert(at + 4 * lane <= len);
    let mut sum = count_lane(s, at, lane);
    sum = sum + count_lane(s, at + lane, lane);
    sum = sum + count_lane(s, at + 2 * lane, lane);
    sum = sum + count_lane(s, at + 3 * lane, lane);
    proof {
        let a = at as int;
        let w = lane as int;
        lemma_newlines_bound(s@, a, a + 4 * w);
        lemma_newlines_split(s@, a, a + w, a + 2 * w);
        lemma_newlines_split(s@, a, a + 2 * w, a + 3 * w);
        lemma_newlines_split(s@, a, a + 3 * w, a + 4 * w);
    }
    sum
}

/// Counts the line feeds in `s[at..at + width]`, one byte at a time.
fn count_lane(s: &[u8], at: usize, width: usize) -> (n: usize)
    requires
        at + width <= s@.len(),
    ensures
        n == newlines(s@, at as int, at + width),
        n <= width,
{
    let len = s.len();
    let mut n: usize = 0;
    let mut i: usize = 0;
    while i < width
        invariant
            i <= width,
            len == s@.len(),
            at + width <= len,
            n == newlines(s@, at as int, at + i),
            n <= i,
        decreases width - i,
    {
        if s[at + i] == LF {
            n = n + 1;
        }
        i = i + 1;
    }
    n
}

/// The scalar kernel: walks `s[beg..end]` byte by byte.
pub fn lines_fwd_fallback(
    s: &[u8],
    beg: usize,
    end: usize,
    line: CoordType,
    line_stop: CoordType,
) -> (r: (usize, CoordType))
    requires
        beg <= end <= s@.len(),
    ensures
        seek_ok(s@, beg as int, end as int, line as int, line_stop as int, r.0 as int, r.1 as int),
{
    let mut pos = beg;
    let mut line = line;
    if line < line_stop {
        let ghost line0 = line;
        while pos < end
            invariant_except_break
                beg <= pos <= end <= s@.len(),
                line0 < line_stop,
                line < line_stop,
                line == line0 + newlines(s@, beg as int, pos as int),
            ensures
                seek_ok(s@, beg as int, end as int, line0 as int, line_stop as int, pos as int, line as int),
            decreases end - pos,
        {
            let c = s[pos];
            pos = pos + 1;
            if c == LF {
                line = line + 1;
                if line == line_stop {
                    proof {
                        lemma_newlines_split(s@, beg as int, pos as int, end as int);
                    }
                    break;
                }
            }
        }
    }
    (pos, line)
}

/// The kernel shaped after AVX2: 32-byte lanes, four to a block.
pub fn lines_fwd_avx2(s: &[u8], beg: usize, line: CoordType, line_stop: CoordType) -> (r: (
    usize,
    CoordType,
))
    requires
        beg <= s@.len(),
    ensures
        seek_ok(s@, beg as int, s@.len() as int, line as int, line_stop as int, r.0 as int, r.1 as int),
{
    let end = s.len();
    let ghost beg0 = beg as int;
    let ghost line0 = line as int;
    let mut beg = beg;
    let mut line = line;
    proof {
        lemma_seek_empty(s@, beg0, line0, line_stop as int);
    }
    let off = align_offset(s, beg, 32);
    if off != 0 && off < end - beg {
        let r = lines_fwd_fallback(s, beg, beg + off, line, line_stop);
        proof {
            lemma_seek_truncate(s@, beg0, beg0 + off, line0, line_stop as int, r.0 as int, r.1 as int);
        }
        beg = r.0;
        line = r.1;
    }
    if line < line_stop {
        while end - beg >= 128
            invariant
                line < line_stop,
                beg0 <= beg <= end,
                end == s@.len(),
                seek_ok(s@, beg0, beg as int, line0, line_stop as int, beg as int, line as int),
            decreases end - beg,
        {
            let sum = count_block4(s, beg, 32);
            let line_next = line as i128 + sum as i128;
            if line_next >= line_stop as i128 {
                break;
            }
            proof {
                lemma_seek_advance(s@, beg0, line0, beg as int, line as int, line_stop as int, 128, sum as int);
            }
            beg = beg + 128;
            line = line_next as CoordType;
        }
        while end - beg >= 32
            invariant
                line < line_stop,
                beg0 <= beg <= end,
                end == s@.len(),
                seek_ok(s@, beg0, beg as int, line0, line_stop as int, beg as int, line as int),
            decreases end - beg,
        {
            let sum = count_lane(s, beg, 32);
            let line_next = line as i128 + sum as i128;
            if line_next >= line_stop as i128 {
                break;
            }
            proof {
                lemma_seek_advance(s@, beg0, line0, beg as int, line as int, line_stop as int, 32, sum as int);
            }
            beg = beg + 32;
            line = line_next as CoordType;
        }
    }
    let r = lines_fwd_fallback(s, beg, end, line, line_stop);
    proof {
        lemma_seek_compose(s@, beg0, beg as int, end as int, line0, line_stop as int, beg as int, line as int, r.0 as int, r.1 as int);
    }
    r
}

/// The kernel shaped after LoongArch LASX: 32-byte lanes, four to a block.
pub fn lines_fwd_lasx(s: &[u8], beg: usize, line: CoordType, line_stop: CoordType) -> (r: (
    usize,
    CoordType,
))
    requires
        beg <= s@.len(),
    ensures
        seek_ok(s@, beg as int, s@.len() as int, line as int, line_stop as int, r.0 as int, r.1 as int),
{
    let end = s.len();
    let ghost beg0 = beg as int;
    let ghost line0 = line as int;
    let mut beg = beg;
    let mut line = line;
    proof {
        lemma_seek_empty(s@, beg0, line0, line_stop as int);
    }
    let off = align_offset(s, beg, 32);
    if off != 0 && off < end - beg {
        let r = lines_fwd_fallback(s, beg, beg + off, line, line_stop);
        proof {
            lemma_seek_truncate(s@, beg0, beg0 + off, line0, line_stop as int, r.0 as int, r.1 as int);
        }
        beg = r.0;
        line = r.1;
    }
    if line < line_stop {
        while end - beg >= 128
            invariant
                line < line_stop,
                beg0 <= beg <= end,
                end == s@.len(),
                seek_ok(s@, beg0, beg as int, line0, line_stop as int, beg as int, line as int),
            decreases end - beg,
        {
            let sum = count_block4(s, beg, 32);
            let line_next = line as i128 + sum as i128;
            if line_next >= line_stop as i128 {
                break;
            }
            proof {
                lemma_seek_advance(s@, beg0, line0, beg as int, line as int, line_stop as int, 128, sum as int);
            }
            beg = beg + 128;
            line = line_next as CoordType;
        }
        while end - beg >= 32
            invariant
                line < line_stop,
                beg0 <= beg <= end,
                end == s@.len(),
                seek_ok(s@, beg0, beg as int, line0, line_stop as int, beg as int, line as int),
            decreases end - beg,
        {
            let sum = count_lane(s, beg, 32);
            let line_next = line as i128 + sum as i128;
            if line_next >= line_stop as i128 {
                break;
            }
            proof {
                lemma_seek_advance(s@, beg0, line0, beg as int, line as int, line_stop as int, 32, sum as int);
            }
            beg = beg + 32;
            line = line_next as CoordType;
        }
    }
    let r = lines_fwd_fallback(s, beg, end, line, line_stop);
    proof {
        lemma_seek_compose(s@, beg0, beg as int, end as int, line0, line_stop as int, beg as int, line as int, r.0 as int, r.1 as int);
    }
    r
}

/// The kernel shaped after LoongArch LSX: 16-byte lanes, four to a block.
pub fn lines_fwd_lsx(s: &[u8], beg: usize, line: CoordType, line_stop: CoordType) -> (r: (
    usize,
    CoordType,
))
    requires
        beg <= s@.len(),
    ensures
        seek_ok(s@, beg as int, s@.len() as int, line as int, line_stop as int, r.0 as int, r.1 as int),
{
    let end = s.len();
    let ghost beg0 = beg as int;
    let ghost line0 = line as int;
    let mut beg = beg;
    let mut line = line;
    proof {
        lemma_seek_empty(s@, beg0, line0, line_stop as int);
    }
    let off = align_offset(s, beg, 16);
    if off != 0 && off < end - beg {
        let r = lines_fwd_fallback(s, beg, beg + off, line, line_stop);
        proof {
            lemma_seek_truncate(s@, beg0, beg0 + off, line0, line_stop as int, r.0 as int, r.1 as int);
        }
        beg = r.0;
        line = r.1;
    }
    if line < line_stop {
        while end - beg >= 64
            invariant
                line < line_stop,
                beg0 <= beg <= end,
                end == s@.len(),
                seek_ok(s@, beg0, beg as int, line0, line_stop as int, beg as int, line as int),
            decreases end - beg,
        {
            let sum = count_block4(s, beg, 16);
            let line_next = line as i128 + sum as i128;
            if line_next >= line_stop as i128 {
                break;
            }
            proof {
                lemma_seek_advance(s@, beg0, line0, beg as int, line as int, line_stop as int, 64, sum as int);
            }
            beg = beg + 64;
            line = line_next as CoordType;
        }
        while end - beg >= 16
            invariant
                line < line_stop,
                beg0 <= beg <= end,
                end == s@.len(),
                seek_ok(s@, beg0, beg as int, line0, line_stop as int, beg as int, line as int),
            decreases end - beg,
        {
            let sum = count_lane(s, beg, 16);
            let line_next = line as i128 + sum as i128;
            if line_next >= line_stop as i128 {
                break;
            }
            proof {
                lemma_seek_advance(s@, beg0, line0, beg as int, line as int, line_stop as int, 16, sum as int);
            }
            beg = beg + 16;
            line = line_next as CoordType;
        }
    }
    let r = lines_fwd_fallback(s, beg, end, line, line_stop);
    proof {
        lemma_seek_compose(s@, beg0, beg as int, end as int, line0, line_stop as int, beg as int, line as int, r.0 as int, r.1 as int);
    }
    r
}

/// The kernel shaped after Arm NEON: 16-byte lanes, four to a block.
pub fn lines_fwd_neon(s: &[u8], beg: usize, line: CoordType, line_stop: CoordType) -> (r: (
    usize,
    CoordType,
))
    requires
        beg <= s@.len(),
    ensures
        seek_ok(s@, beg as int, s@.len() as int, line as int, line_stop as int, r.0 as int, r.1 as int),
{
    let end = s.len();
    let ghost beg0 = beg as int;
    let ghost line0 = line as int;
    let mut beg = beg;
    let mut line = line;
    proof {
        lemma_seek_empty(s@, beg0, line0, line_stop as int);
    }
    let off = align_offset(s, beg, 16);
    if off != 0 && off < end - beg {
        let r = lines_fwd_fallback(s, beg, beg + off, line, line_stop);
        proof {
            lemma_seek_truncate(s@, beg0, beg0 + off, line0, line_stop as int, r.0 as int, r.1 as int);
        }
        beg = r.0;
        line = r.1;
    }
    if line < line_stop {
        while end - beg >= 64
            invariant
                line < line_stop,
                beg0 <= beg <= end,
                end == s@.len(),
                seek_ok(s@, beg0, beg as int, line0, line_stop as int, beg as int, line as int),
            decreases end - beg,
        {
            let sum = count_block4(s, beg, 16);
            let line_next = line as i128 + sum as i128;
            if line_next >= line_stop as i128 {
                break;
            }
            proof {
                lemma_seek_advance(s@, beg0, line0, beg as int, line as int, line_stop as int, 64, sum as int);
            }
            beg = beg + 64;
            line = line_next as CoordType;
        }
        while end - beg >= 16
            invariant
                line < line_stop,
                beg0 <= beg <= end,
                end == s@.len(),
                seek_ok(s@, beg0, beg as int, line0, line_stop as int, beg as int, line as int),
            decreases end - beg,
        {
            let sum = count_lane(s, beg, 16);
            let line_next = line as i128 + sum as i128;
            if line_next >= line_stop as i128 {
                break;
            }
            proof {
                lemma_seek_advance(s@, beg0, line0, beg as int, line as int, line_stop as int, 16, sum as int);
            }
            beg = beg + 16;
            line = line_next as CoordType;
        }
    }
    let r = lines_fwd_fallback(s, beg, end, line, line_stop);
    proof {
        lemma_seek_compose(s@, beg0, beg as int, end as int, line0, line_stop as int, beg as int, line as int, r.0 as int, r.1 as int);
    }
    r
}

/// Where a seek starts: `offset`, clamped to the length of the range.
pub open spec fn clamp_offset(offset: usize, len: nat) -> int {
    if offset <= len {
        offset as int
    } else {
        len as int
    }
}

/// `r` is the answer to a seek from `offset` (clamped to the end of `s`) at
/// line `line` towards line `line_stop`, through to the end of `s`.
pub open spec fn lines_fwd_ok(
    s: Seq<u8>,
    offset: usize,
    line: CoordType,
    line_stop: CoordType,
    r: (usize, CoordType),
) -> bool {
    seek_ok(s, clamp_offset(offset, s.len()), s.len() as int, line as int, line_stop as int, r.0 as int, r.1 as int)
}

/// Starting from `offset` in `haystack` with a current line index of `line`,
/// seeks to line `line_stop` and returns the new offset and the line index
/// there.
///
/// The offset returned lies just past the line feed that reached
/// `line_stop`, or at the end of `haystack` if too few line feeds follow.
/// If `line` is already at or past `line_stop`, nothing moves. An `offset`
/// past the end counts as the end. Runs on the kernel with the widest lanes.
pub fn lines_fwd(
    haystack: &[u8],
    offset: usize,
    line: CoordType,
    line_stop: CoordType,
) -> (r: (usize, CoordType))
    ensures
        lines_fwd_ok(haystack@, offset, line, line_stop, r),
        line >= line_stop ==> r.0 == clamp_offset(offset, haystack@.len()) && r.1 == line,
{
    lines_fwd_with(LinesKernel::Avx2, haystack, offset, line, line_stop)
}

/// `lines_fwd`, run on the kernel `kernel`. Every kernel gives the same
/// answer.
pub fn lines_fwd_with(
    kernel: LinesKernel,
    haystack: &[u8],
    offset: usize,
    line: CoordType,
    line_stop: CoordType,
) -> (r: (usize, CoordType))
    ensures
        lines_fwd_ok(haystack@, offset, line, line_stop, r),
        line >= line_stop ==> r.0 == clamp_offset(offset, haystack@.len()) && r.1 == line,
{
    let len = haystack.len();
    let beg = if offset < len {
        offset
    } else {
        len
    };
    lines_fwd_raw(kernel, haystack, beg, line, line_stop)
}

/// Runs the kernel `kernel` on `s` from byte `beg`.
pub fn lines_fwd_raw(
    kernel: LinesKernel,
    s: &[u8],
    beg: usize,
    line: CoordType,
    line_stop: CoordType,
) -> (r: (usize, CoordType))
    requires
        beg <= s@.len(),
    ensures
        seek_ok(s@, beg as int, s@.len() as int, line as int, line_stop as int, r.0 as int, r.1 as int),
{
    match kernel {
        LinesKernel::Avx2 => lines_fwd_avx2(s, beg, line, line_stop),
        LinesKernel::Lasx => lines_fwd_lasx(s, beg, line, line_stop),
        LinesKernel::Lsx => lines_fwd_lsx(s, beg, line, line_stop),
        LinesKernel::Neon => lines_fwd_neon(s, beg, line, line_stop),
        LinesKernel::Fallback => {
            let end = s.len();
            lines_fwd_fallback(s, beg, end, line, line_stop)
        },
    }
}

/// Picks the kernel for a CPU with `features` and runs it; returns the
/// kernel too, so that the caller can keep it for later calls.
pub fn lines_fwd_dispatch(
    features: &CpuFeatures,
    haystack: &[u8],
    offset: usize,
    line: CoordType,
    line_stop: CoordType,
) -> (r: (LinesKernel, (usize, CoordType)))
    ensures
        r.0 == preferred_lines_kernel(*features),
        lines_fwd_ok(haystack@, offset, line, line_stop, r.1),
{
    let kernel = LinesKernel::select(features);
    (kernel, lines_fwd_with(kernel, haystack, offset, line, line_stop))
}
/// Every kernel agrees with every other, and with the scalar kernel: a
/// seek has one answer, whatever computed it and wherever the bytes lie in
/// memory.
pub proof fn lemma_seek_unique(
    s: Seq<u8>,
    beg: int,
    end: int,
    line: int,
    stop: int,
    off1: int,
    ln1: int,
    off2: int,
    ln2: int,
)
    requires
        beg <= end,
        seek_ok(s, beg, end, line, stop, off1, ln1),
        seek_ok(s, beg, end, line, stop, off2, ln2),
    ensures
        off1 == off2,
        ln1 == ln2,
{
    if line < stop && newlines(s, beg, end) >= stop - line && off1 != off2 {
        let (a, b) = if off1 < off2 {
            (off1, off2)
        } else {
            (off2, off1)
        };
        lemma_newlines_split(s, beg, a, b);
        lemma_newlines_split(s, a, b - 1, b);
    }
}

/// The answers of two kernels to one seek are equal.
pub proof fn lemma_kernels_agree(
    s: Seq<u8>,
    offset: usize,
    line: CoordType,
    line_stop: CoordType,
    r1: (usize, CoordType),
    r2: (usize, CoordType),
)
    requires
        lines_fwd_ok(s, offset, line, line_stop, r1),
        lines_fwd_ok(s, offset, line, line_stop, r2),
    ensures
        r1 == r2,
{
    lemma_seek_unique(
        s,
        clamp_offset(offset, s.len()),
        s.len() as int,
        line as int,
        line_stop as int,
        r1.0 as int,
        r1.1 as int,
        r2.0 as int,
        r2.1 as int,
    );
}

/// A seek that starts at or past its target moves neither the offset nor
/// the line, whatever the bytes.
pub proof fn lemma_seek_noop(
    s: Seq<u8>,
    offset: usize,
    line: CoordType,
    line_stop: CoordType,
    r: (usize, CoordType),
)
    requires
        line >= line_stop,
        lines_fwd_ok(s, offset, line, line_stop, r),
    ensures
        r.0 == clamp_offset(offset, s.len()),
        r.1 == line,
{
}

/// A seek never moves backwards: the line does not decrease and, from
/// below the target, does not pass it; the offset does not decrease and
/// stays within the range.
pub proof fn lemma_seek_monotone(
    s: Seq<u8>,
    offset: usize,
    line: CoordType,
    line_stop: CoordType,
    r: (usize, CoordType),
)
    requires
        lines_fwd_ok(s, offset, line, line_stop, r),
    ensures
        line <= r.1,
        line <= line_stop ==> r.1 <= line_stop,
        clamp_offset(offset, s.len()) <= r.0 <= s.len(),
{
}

/// With `k` line feeds left and more than `k` lines to go, a seek runs to
/// the end of the range and counts all `k`.
pub proof fn lemma_seek_exact_count(
    s: Seq<u8>,
    offset: usize,
    line: CoordType,
    line_stop: CoordType,
    k: nat,
    r: (usize, CoordType),
)
    requires
        newlines(s, clamp_offset(offset, s.len()), s.len() as int) == k,
        k < line_stop - line,
        lines_fwd_ok(s, offset, line, line_stop, r),
    ensures
        r.0 == s.len(),
        r.1 == line + k,
{
}

} // verus!
