//! Filling a slice with one value of one, two, four or eight bytes.
//!
//! Values wider than a byte are copied into every lane of a 64-bit word,
//! so that one set of kernels serves all widths: a kernel only counts bytes
//! and stores that word, or a part of it, and each store puts the word's
//! lanes into the elements it covers.
use vstd::prelude::*;

use crate::align_offset;
use crate::dispatch::{preferred_memset_kernel, CpuFeatures, MemsetKernel};

verus! {

/// Whether `w` is a width in bytes that the fill kernels handle.
pub open spec fn valid_width(w: nat) -> bool {
    w == 1 || w == 2 || w == 4 || w == 8
}

/// The low `w` bytes of a 64-bit word, set.
pub open spec fn low_mask(w: nat) -> u64 {
    if w == 1 {
        0xff
    } else if w == 2 {
        0xffff
    } else if w == 4 {
        0xffff_ffff
    } else {
        0xffff_ffff_ffff_ffff
    }
}

/// The 64-bit word that holds copies of the low `w` bytes of `v` in each of
/// its lanes of `w` bytes.
pub open spec fn broadcast(v: u64, w: nat) -> u64 {
    if w == 1 {
        ((v & 0xff) * 0x0101_0101_0101_0101) as u64
    } else if w == 2 {
        ((v & 0xffff) * 0x0001_0001_0001_0001) as u64
    } else if w == 4 {
        ((v & 0xffff_ffff) * 0x0000_0001_0000_0001) as u64
    } else {
        v
    }
}

/// A type whose values can be written by the fill kernels: a plain integer
/// of one, two, four or eight bytes.
pub trait MemsetSafe: Copy + Sized {
    /// The width of a value in bytes.
    spec fn byte_width() -> nat;

    /// The bytes of the value as an unsigned integer (two's complement for
    /// signed types).
    spec fn bits(self) -> u64;

    /// The width of a value in bytes.
    fn width() -> (w: usize)
        ensures
            w as nat == Self::byte_width(),
            valid_width(w as nat),
    ;

    /// The bytes of the value.
    fn to_bits(self) -> (b: u64)
        ensures
            b == self.bits(),
    ;

    /// The value whose bytes are the low bytes of `b`.
    fn from_bits(b: u64) -> (v: Self)
        ensures
            v.bits() == b & low_mask(Self::byte_width()),
    ;

    /// A value is fixed by its bytes, and has no more of them than its width.
    proof fn lemma_bits(a: Self, b: Self)
        ensures
            valid_width(Self::byte_width()),
            a.bits() & low_mask(Self::byte_width()) == a.bits(),
            a.bits() == b.bits() ==> a == b,
    ;
}

impl MemsetSafe for u8 {
    open spec fn byte_width() -> nat {
        1
    }

    open spec fn bits(self) -> u64 {
        self as u64
    }

    fn width() -> (w: usize) {
        1
    }

    fn to_bits(self) -> (b: u64) {
        self as u64
    }

    fn from_bits(b: u64) -> (v: u8) {
        proof {
            assert((b as u8) as u64 == b & 0xff) by (bit_vector);
        }
        b as u8
    }

    proof fn lemma_bits(a: u8, b: u8) {
        assert((a as u64) & 0xff == a as u64) by (bit_vector);
        assert((a as u64 == b as u64) ==> a == b) by (bit_vector);
    }
}

impl MemsetSafe for u16 {
    open spec fn byte_width() -> nat {
        2
    }

    open spec fn bits(self) -> u64 {
        self as u64
    }

    fn width() -> (w: usize) {
        2
    }

    fn to_bits(self) -> (b: u64) {
        self as u64
    }

    fn from_bits(b: u64) -> (v: u16) {
        proof {
            assert((b as u16) as u64 == b & 0xffff) by (bit_vector);
        }
        b as u16
    }

    proof fn lemma_bits(a: u16, b: u16) {
        assert((a as u64) & 0xffff == a as u64) by (bit_vector);
        assert((a as u64 == b as u64) ==> a == b) by (bit_vector);
    }
}

impl MemsetSafe for u32 {
    open spec fn byte_width() -> nat {
        4
    }

    open spec fn bits(self) -> u64 {
        self as u64
    }

    fn width() -> (w: usize) {
        4
    }

    fn to_bits(self) -> (b: u64) {
        self as u64
    }

    fn from_bits(b: u64) -> (v: u32) {
        proof {
            assert((b as u32) as u64 == b & 0xffff_ffff) by (bit_vector);
        }
        b as u32
    }

    proof fn lemma_bits(a: u32, b: u32) {
        assert((a as u64) & 0xffff_ffff == a as u64) by (bit_vector);
        assert((a as u64 == b as u64) ==> a == b) by (bit_vector);
    }
}

impl MemsetSafe for u64 {
    open spec fn byte_width() -> nat {
        8
    }

    open spec fn bits(self) -> u64 {
        self as u64
    }

    fn width() -> (w: usize) {
        8
    }

    fn to_bits(self) -> (b: u64) {
        self as u64
    }

    fn from_bits(b: u64) -> (v: u64) {
        proof {
            assert((b as u64) as u64 == b & 0xffff_ffff_ffff_ffff) by (bit_vector);
        }
        b as u64
    }

    proof fn lemma_bits(a: u64, b: u64) {
        assert((a as u64) & 0xffff_ffff_ffff_ffff == a as u64) by (bit_vector);
        assert((a as u64 == b as u64) ==> a == b) by (bit_vector);
    }
}

impl MemsetSafe for i8 {
    open spec fn byte_width() -> nat {
        1
    }

    open spec fn bits(self) -> u64 {
        self as u8 as u64
    }

    fn width() -> (w: usize) {
        1
    }

    fn to_bits(self) -> (b: u64) {
        self as u8 as u64
    }

    fn from_bits(b: u64) -> (v: i8) {
        proof {
            assert(((b as u8 as i8) as u8) as u64 == b & 0xff) by (bit_vector);
        }
        b as u8 as i8
    }

    proof fn lemma_bits(a: i8, b: i8) {
        assert(((a as u8) as u64) & 0xff == (a as u8) as u64) by (bit_vector);
        assert(((a as u8) as u64 == (b as u8) as u64) ==> a == b) by (bit_vector);
    }
}

impl MemsetSafe for i16 {
    open spec fn byte_width() -> nat {
        2
    }

    open spec fn bits(self) -> u64 {
        self as u16 as u64
    }

    fn width() -> (w: usize) {
        2
    }

    fn to_bits(self) -> (b: u64) {
        self as u16 as u64
    }

    fn from_bits(b: u64) -> (v: i16) {
        proof {
            assert(((b as u16 as i16) as u16) as u64 == b & 0xffff) by (bit_vector);
        }
        b as u16 as i16
    }

    proof fn lemma_bits(a: i16, b: i16) {
        assert(((a as u16) as u64) & 0xffff == (a as u16) as u64) by (bit_vector);
        assert(((a as u16) as u64 == (b as u16) as u64) ==> a == b) by (bit_vector);
    }
}

impl MemsetSafe for i32 {
    open spec fn byte_width() -> nat {
        4
    }

    open spec fn bits(self) -> u64 {
        self as u32 as u64
    }

    fn width() -> (w: usize) {
        4
    }

    fn to_bits(self) -> (b: u64) {
        self as u32 as u64
    }

    fn from_bits(b: u64) -> (v: i32) {
        proof {
            assert(((b as u32 as i32) as u32) as u64 == b & 0xffff_ffff) by (bit_vector);
        }
        b as u32 as i32
    }

    proof fn lemma_bits(a: i32, b: i32) {
        assert(((a as u32) as u64) & 0xffff_ffff == (a as u32) as u64) by (bit_vector);
        assert(((a as u32) as u64 == (b as u32) as u64) ==> a == b) by (bit_vector);
    }
}

impl MemsetSafe for i64 {
    open spec fn byte_width() -> nat {
        8
    }

    open spec fn bits(self) -> u64 {
        self as u64 as u64
    }

    fn width() -> (w: usize) {
        8
    }

    fn to_bits(self) -> (b: u64) {
        self as u64 as u64
    }

    fn from_bits(b: u64) -> (v: i64) {
        proof {
            assert(((b as u64 as i64) as u64) as u64 == b & 0xffff_ffff_ffff_ffff) by (bit_vector);
        }
        b as u64 as i64
    }

    proof fn lemma_bits(a: i64, b: i64) {
        assert(((a as u64) as u64) & 0xffff_ffff_ffff_ffff == (a as u64) as u64) by (bit_vector);
        assert(((a as u64) as u64 == (b as u64) as u64) ==> a == b) by (bit_vector);
    }
}

impl MemsetSafe for usize {
    open spec fn byte_width() -> nat {
        if usize::BITS == 64 {
            8
        } else {
            4
        }
    }

    open spec fn bits(self) -> u64 {
        self as u64
    }

    fn width() -> (w: usize) {
        if usize::BITS == 64 {
            8
        } else {
            4
        }
    }

    fn to_bits(self) -> (b: u64) {
        self as u64
    }

    fn from_bits(b: u64) -> (v: usize) {
        proof {
            assert((b as usize) as u64 == b & (if usize::BITS == 64 {
                0xffff_ffff_ffff_ffffu64
            } else {
                0xffff_ffffu64
            })) by (bit_vector);
        }
        b as usize
    }

    proof fn lemma_bits(a: usize, b: usize) {
        assert((a as u64) & (if usize::BITS == 64 {
            0xffff_ffff_ffff_ffffu64
        } else {
            0xffff_ffffu64
        }) == a as u64) by (bit_vector);
        assert(a as u64 == b as u64 ==> a == b) by (bit_vector);
    }
}

impl MemsetSafe for isize {
    open spec fn byte_width() -> nat {
        if usize::BITS == 64 {
            8
        } else {
            4
        }
    }

    open spec fn bits(self) -> u64 {
        self as usize as u64
    }

    fn width() -> (w: usize) {
        if usize::BITS == 64 {
            8
        } else {
            4
        }
    }

    fn to_bits(self) -> (b: u64) {
        self as usize as u64
    }

    fn from_bits(b: u64) -> (v: isize) {
        proof {
            assert(((b as usize as isize) as usize) as u64 == b & (if usize::BITS == 64 {
                0xffff_ffff_ffff_ffffu64
            } else {
                0xffff_ffffu64
            })) by (bit_vector);
        }
        b as usize as isize
    }

    proof fn lemma_bits(a: isize, b: isize) {
        assert(((a as usize) as u64) & (if usize::BITS == 64 {
            0xffff_ffff_ffff_ffffu64
        } else {
            0xffff_ffffu64
        }) == (a as usize) as u64) by (bit_vector);
        assert((a as usize) as u64 == (b as usize) as u64 ==> a == b) by (bit_vector);
    }
}

/// Whether every element of `s[lo..hi]` holds the low bytes of `word`.
pub open spec fn filled<T: MemsetSafe>(s: Seq<T>, lo: int, hi: int, word: u64) -> bool {
    forall|i: int| lo <= i < hi ==> #[trigger] s[i].bits() == word & low_mask(T::byte_width())
}

/// What the fill kernels ask of the slice and the word they fill it with.
pub open spec fn fill_word_ok<T: MemsetSafe>(len: nat, word: u64) -> bool {
    &&& valid_width(T::byte_width())
    &&& word == broadcast(word, T::byte_width())
    &&& len * T::byte_width() <= usize::MAX
}

/// Each lane of a broadcast word holds the same bytes; a lane of `w` bytes
/// that starts at byte `lane` is followed by the next one, or by the end of
/// the word.
proof fn lemma_lane(word: u64, w: u64, lane: u64)
    requires
        valid_width(w as nat),
        word == broadcast(word, w as nat),
        lane < 8,
        lane % w == 0,
    ensures
        (word >> ((8 * lane) as u64)) & low_mask(w as nat) == word & low_mask(w as nat),
        lane + w <= 8,
        (lane + w) % (w as int) == 0,
{
    if w == 1 {
        assert(word == ((word & 0xff) * 0x0101_0101_0101_0101) as u64 && lane < 8 ==> (word >> ((8
            * lane) as u64)) & 0xff == word & 0xff) by (bit_vector);
    } else if w == 2 {
        assert(lane % 2 == 0);
        assert(word == ((word & 0xffff) * 0x0001_0001_0001_0001) as u64 && lane < 8 && lane % 2
            == 0 ==> (word >> ((8 * lane) as u64)) & 0xffff == word & 0xffff && lane + 2 <= 8)
            by (bit_vector);
    } else if w == 4 {
        assert(lane % 4 == 0);
        assert(word == ((word & 0xffff_ffff) * 0x0000_0001_0000_0001) as u64 && lane < 8 && lane
            % 4 == 0 ==> (word >> ((8 * lane) as u64)) & 0xffff_ffff == word & 0xffff_ffff && lane
            + 4 <= 8) by (bit_vector);
    } else {
        assert(lane % 8 == 0);
        assert(lane == 0);
        assert(word >> ((8 * 0u64) as u64) == word) by (bit_vector);
    }
}

/// A chunk of `bytes` bytes is a whole number of elements of width `w`.
proof fn lemma_chunk(w: int, bytes: int)
    requires
        0 < w,
        valid_width(w as nat),
        bytes == 8 || bytes == 16 || bytes == 32 || bytes == 128,
    ensures
        (bytes / w) * w == bytes,
        bytes / w >= 1,
{
    if w == 1 {
    } else if w == 2 {
        assert(bytes / w == bytes / 2);
    } else if w == 4 {
        assert(bytes / w == bytes / 4);
    } else {
        assert(bytes / w == bytes / 8);
    }
}

/// Taking a chunk of `e` elements (`bytes` bytes) off `k` elements.
proof fn lemma_step(k: int, w: int, e: int, bytes: int)
    requires
        k >= 0,
        w > 0,
        e >= 0,
        e * w == bytes,
        k * w >= bytes,
    ensures
        e <= k,
        (k - e) * w == k * w - bytes,
{
    assert(e <= k) by (nonlinear_arith)
        requires
            w > 0,
            e * w <= k * w,
    ;
    assert((k - e) * w == k * w - e * w) by (nonlinear_arith);
}

/// When `k` elements of width `w` hold at least `bytes` and fewer than
/// twice as many bytes, two overlapping stores of `bytes / w` elements, one
/// at the start and one at the end, cover them.
proof fn lemma_tail(k: int, w: int, bytes: int)
    requires
        0 < w,
        valid_width(w as nat),
        bytes == 2 || bytes == 4 || bytes == 8 || bytes == 16,
        k >= 0,
        bytes <= k * w < 2 * bytes,
    ensures
        (bytes / w) * w == bytes,
        1 <= bytes / w <= k <= 2 * (bytes / w),
{
    if w == 1 {
        assert(k * w == k);
    } else if w == 2 {
        assert(bytes / w == bytes / 2);
        assert(k * w == k * 2);
    } else if w == 4 {
        assert(bytes / w == bytes / 4);
        assert(k * w == k * 4);
    } else {
        assert(bytes / w == bytes / 8);
        assert(k * w == k * 8);
    }
}

/// Writes the elements `dst[at..at + count]` as a store of `count` elements'
/// worth of bytes of `word` does: each element takes the lane of the word
/// at its byte position.
fn store<T: MemsetSafe>(dst: &mut [T], at: usize, count: usize, word: u64, Ghost(lo): Ghost<int>)
    requires
        valid_width(T::byte_width()),
        word == broadcast(word, T::byte_width()),
        at + count <= old(dst)@.len(),
        at <= lo <= old(dst)@.len(),
        filled(old(dst)@, 0, lo, word),
    ensures
        final(dst)@.len() == old(dst)@.len(),
        filled(final(dst)@, 0, if lo < at + count { at + count } else { lo }, word),
{
    let len = dst.len();
    let w = T::width() as u64;
    let ghost mask = low_mask(T::byte_width());
    let mut lane: u64 = 0;
    let mut i: usize = 0;
    while i < count
        invariant
            dst@.len() == old(dst)@.len(),
            len == dst@.len(),
            i <= count,
            at + count <= dst@.len(),
            w as nat == T::byte_width(),
            valid_width(w as nat),
            word == broadcast(word, w as nat),
            mask == low_mask(w as nat),
            lane < 8,
            lane % w == 0,
            forall|j: int| at <= j < at + i ==> #[trigger] dst@[j].bits() == word & mask,
            forall|j: int|
                0 <= j < dst@.len() && !(at <= j < at + i) ==> dst@[j] == old(dst)@[j],
        decreases count - i,
    {
        proof {
            lemma_lane(word, w, lane);
        }
        dst[at + i] = T::from_bits(word >> (8 * lane));
        lane = lane + w;
        if lane == 8 {
            lane = 0;
        }
        i = i + 1;
    }
    assert forall|j: int| 0 <= j < (if lo < at + count { at + count } else { lo }) implies #[trigger] dst@[j].bits()
        == word & mask by {
        if !(at <= j < at + count) {
            assert(dst@[j] == old(dst)@[j]);
        }
    }
}

/// Fills the last `remaining` bytes, fewer than 16, of `dst` from element
/// `beg` with at most two stores that may overlap.
fn memset_tail<T: MemsetSafe>(dst: &mut [T], beg: usize, remaining: usize, word: u64)
    requires
        fill_word_ok::<T>(old(dst)@.len(), word),
        beg <= old(dst)@.len(),
        remaining == (old(dst)@.len() - beg) * T::byte_width(),
        remaining < 16,
        filled(old(dst)@, 0, beg as int, word),
    ensures
        final(dst)@.len() == old(dst)@.len(),
        filled(final(dst)@, 0, old(dst)@.len() as int, word),
{
    let w = T::width();
    let n = dst.len();
    let ghost k = n - beg;
    if remaining >= 8 {
        // 8 to 15 bytes
        proof {
            lemma_tail(k, w as int, 8);
        }
        let e = 8 / w;
        store(dst, beg, e, word, Ghost(beg as int));
        store(dst, n - e, e, word, Ghost(beg + e));
    } else if remaining >= 4 {
        // 4 to 7 bytes
        proof {
            lemma_tail(k, w as int, 4);
        }
        let e = 4 / w;
        store(dst, beg, e, word, Ghost(beg as int));
        store(dst, n - e, e, word, Ghost(beg + e));
    } else if remaining >= 2 {
        // 2 or 3 bytes
        proof {
            lemma_tail(k, w as int, 2);
        }
        let e = 2 / w;
        store(dst, beg, e, word, Ghost(beg as int));
        store(dst, n - e, e, word, Ghost(beg + e));
    } else if remaining >= 1 {
        // 1 byte
        assert(k == 1) by (nonlinear_arith)
            requires
                k * w == remaining,
                remaining == 1,
                w >= 1,
                k >= 0,
        ;
        store(dst, beg, 1, word, Ghost(beg as int));
    } else {
        assert(k == 0) by (nonlinear_arith)
            requires
                k * w == 0,
                w >= 1,
        ;
    }
}

/// Where a fill kernel stands: `s` has `n` elements, the first `beg` of
/// which are filled, and `remaining` bytes are left after them.
pub open spec fn fill_progress<T: MemsetSafe>(
    s: Seq<T>,
    n: nat,
    beg: int,
    remaining: int,
    word: u64,
) -> bool {
    &&& s.len() == n
    &&& fill_word_ok::<T>(n, word)
    &&& 0 <= beg <= n
    &&& remaining == (n - beg) * T::byte_width()
    &&& filled(s, 0, beg, word)
}

/// The scalar kernel: 8-byte stores, then at most two overlapping stores
/// for the rest.
pub fn memset_fallback<T: MemsetSafe>(dst: &mut [T], word: u64)
    requires
        fill_word_ok::<T>(old(dst)@.len(), word),
    ensures
        final(dst)@.len() == old(dst)@.len(),
        filled(final(dst)@, 0, old(dst)@.len() as int, word),
{
    let w = T::width();
    let n = dst.len();
    let mut beg: usize = 0;
    let mut remaining = n * w;
    proof {
        lemma_chunk(w as int, 8);
    }
    let e8 = 8 / w;
    while remaining >= 8
        invariant
            fill_progress(dst@, n as nat, beg as int, remaining as int, word),
            n == old(dst)@.len(),
            w == T::byte_width(),
            e8 * w == 8,
        decreases remaining,
    {
        proof {
            lemma_step(n - beg, w as int, e8 as int, 8);
        }
        store(dst, beg, e8, word, Ghost(beg as int));
        beg = beg + e8;
        remaining = remaining - 8;
    }
    memset_tail(dst, beg, remaining, word);
}

/// The kernel shaped after SSE2: pairs of 16-byte stores, then two
/// overlapping 16-byte stores, or the short tail.
pub fn memset_sse2<T: MemsetSafe>(dst: &mut [T], word: u64)
    requires
        fill_word_ok::<T>(old(dst)@.len(), word),
    ensures
        final(dst)@.len() == old(dst)@.len(),
        filled(final(dst)@, 0, old(dst)@.len() as int, word),
{
    let w = T::width();
    let n = dst.len();
    let mut beg: usize = 0;
    let mut remaining = n * w;
    if remaining >= 16 {
        proof {
            lemma_chunk(w as int, 16);
        }
        let e16 = 16 / w;
        while remaining >= 32
            invariant
                fill_progress(dst@, n as nat, beg as int, remaining as int, word),
                n == old(dst)@.len(),
                w == T::byte_width(),
                e16 * w == 16,
            decreases remaining,
        {
            proof {
                lemma_step(n - beg, w as int, 2 * e16, 32);
            }
            store(dst, beg, e16, word, Ghost(beg as int));
            store(dst, beg + e16, e16, word, Ghost(beg + e16));
            beg = beg + 2 * e16;
            remaining = remaining - 32;
        }
        if remaining >= 16 {
            // 16 to 31 bytes
            proof {
                lemma_tail(n - beg, w as int, 16);
            }
            store(dst, beg, e16, word, Ghost(beg as int));
            store(dst, n - e16, e16, word, Ghost(beg + e16));
            return;
        }
    }
    memset_tail(dst, beg, remaining, word);
}

/// The kernel shaped after AVX2: blocks of four 32-byte stores, then
/// 16-byte stores, then the short tail.
pub fn memset_avx2<T: MemsetSafe>(dst: &mut [T], word: u64)
    requires
        fill_word_ok::<T>(old(dst)@.len(), word),
    ensures
        final(dst)@.len() == old(dst)@.len(),
        filled(final(dst)@, 0, old(dst)@.len() as int, word),
{
    let w = T::width();
    let n = dst.len();
    let mut beg: usize = 0;
    let mut remaining = n * w;
    if remaining >= 128 {
        proof {
            lemma_chunk(w as int, 32);
        }
        let e32 = 32 / w;
        while remaining >= 128
            invariant
                fill_progress(dst@, n as nat, beg as int, remaining as int, word),
                n == old(dst)@.len(),
                w == T::byte_width(),
                e32 * w == 32,
            decreases remaining,
        {
            proof {
                lemma_step(n - beg, w as int, 4 * e32, 128);
            }
            store(dst, beg, e32, word, Ghost(beg as int));
            store(dst, beg + e32, e32, word, Ghost(beg + e32));
            store(dst, beg + 2 * e32, e32, word, Ghost(beg + 2 * e32));
            store(dst, beg + 3 * e32, e32, word, Ghost(beg + 3 * e32));
            beg = beg + 4 * e32;
            remaining = remaining - 128;
        }
    }
    if remaining >= 16 {
        proof {
            lemma_chunk(w as int, 16);
        }
        let e16 = 16 / w;
        while remaining >= 16
            invariant
                fill_progress(dst@, n as nat, beg as int, remaining as int, word),
                n == old(dst)@.len(),
                w == T::byte_width(),
                e16 * w == 16,
            decreases remaining,
        {
            proof {
                lemma_step(n - beg, w as int, e16 as int, 16);
            }
            store(dst, beg, e16, word, Ghost(beg as int));
            beg = beg + e16;
            remaining = remaining - 16;
        }
    }
    memset_tail(dst, beg, remaining, word);
}

/// The kernel shaped after LoongArch LASX: one 32-byte store at the start,
/// after which the stores go on from the next 32-byte boundary; then
/// blocks of four 32-byte stores, 16-byte stores and the short tail.
pub fn memset_lasx<T: MemsetSafe>(dst: &mut [T], word: u64)
    requires
        fill_word_ok::<T>(old(dst)@.len(), word),
    ensures
        final(dst)@.len() == old(dst)@.len(),
        filled(final(dst)@, 0, old(dst)@.len() as int, word),
{
    let w = T::width();
    let n = dst.len();
    let mut beg: usize = 0;
    let mut remaining = n * w;
    if remaining >= 32 {
        proof {
            lemma_chunk(w as int, 32);
        }
        let e32 = 32 / w;
        proof {
            lemma_step(n - beg, w as int, e32 as int, 32);
        }
        store(dst, beg, e32, word, Ghost(beg as int));
        let off = align_offset(dst, beg, 32);
        if off <= e32 {
            proof {
                assert(off * w <= 32) by (nonlinear_arith)
                    requires
                        off <= e32,
                        e32 * w == 32,
                        w > 0,
                ;
                lemma_step(n - beg, w as int, off as int, off * w);
            }
            beg = beg + off;
            remaining = remaining - off * w;
        }
    }
    if remaining >= 128 {
        proof {
            lemma_chunk(w as int, 32);
        }
        let e32 = 32 / w;
        while remaining >= 128
            invariant
                fill_progress(dst@, n as nat, beg as int, remaining as int, word),
                n == old(dst)@.len(),
                w == T::byte_width(),
                e32 * w == 32,
            decreases remaining,
        {
            proof {
                lemma_step(n - beg, w as int, 4 * e32, 128);
            }
            store(dst, beg, e32, word, Ghost(beg as int));
            store(dst, beg + e32, e32, word, Ghost(beg + e32));
            store(dst, beg + 2 * e32, e32, word, Ghost(beg + 2 * e32));
            store(dst, beg + 3 * e32, e32, word, Ghost(beg + 3 * e32));
            beg = beg + 4 * e32;
            remaining = remaining - 128;
        }
    }
    if remaining >= 16 {
        proof {
            lemma_chunk(w as int, 16);
        }
        let e16 = 16 / w;
        while remaining >= 16
            invariant
                fill_progress(dst@, n as nat, beg as int, remaining as int, word),
                n == old(dst)@.len(),
                w == T::byte_width(),
                e16 * w == 16,
            decreases remaining,
        {
            proof {
                lemma_step(n - beg, w as int, e16 as int, 16);
            }
            store(dst, beg, e16, word, Ghost(beg as int));
            beg = beg + e16;
            remaining = remaining - 16;
        }
    }
    memset_tail(dst, beg, remaining, word);
}

/// The kernel shaped after LoongArch LSX: one 16-byte store at the start,
/// after which the stores go on from the next 16-byte boundary; then pairs
/// of 16-byte stores, then two overlapping 16-byte stores, or the short
/// tail.
pub fn memset_lsx<T: MemsetSafe>(dst: &mut [T], word: u64)
    requires
        fill_word_ok::<T>(old(dst)@.len(), word),
    ensures
        final(dst)@.len() == old(dst)@.len(),
        filled(final(dst)@, 0, old(dst)@.len() as int, word),
{
    let w = T::width();
    let n = dst.len();
    let mut beg: usize = 0;
    let mut remaining = n * w;
    if remaining >= 16 {
        proof {
            lemma_chunk(w as int, 16);
        }
        let e16 = 16 / w;
        proof {
            lemma_step(n - beg, w as int, e16 as int, 16);
        }
        store(dst, beg, e16, word, Ghost(beg as int));
        let off = align_offset(dst, beg, 16);
        if off <= e16 {
            proof {
                assert(off * w <= 16) by (nonlinear_arith)
                    requires
                        off <= e16,
                        e16 * w == 16,
                        w > 0,
                ;
                lemma_step(n - beg, w as int, off as int, off * w);
            }
            beg = beg + off;
            remaining = remaining - off * w;
        }
        while remaining >= 32
            invariant
                fill_progress(dst@, n as nat, beg as int, remaining as int, word),
                n == old(dst)@.len(),
                w == T::byte_width(),
                e16 * w == 16,
            decreases remaining,
        {
            proof {
                lemma_step(n - beg, w as int, 2 * e16, 32);
            }
            store(dst, beg, e16, word, Ghost(beg as int));
            store(dst, beg + e16, e16, word, Ghost(beg + e16));
            beg = beg + 2 * e16;
            remaining = remaining - 32;
        }
        if remaining >= 16 {
            // 16 to 31 bytes
            proof {
                lemma_tail(n - beg, w as int, 16);
            }
            store(dst, beg, e16, word, Ghost(beg as int));
            store(dst, n - e16, e16, word, Ghost(beg + e16));
            return;
        }
    }
    memset_tail(dst, beg, remaining, word);
}

/// The kernel shaped after Arm NEON: pairs of 16-byte stores, then two
/// overlapping 16-byte stores, or the short tail.
pub fn memset_neon<T: MemsetSafe>(dst: &mut [T], word: u64)
    requires
        fill_word_ok::<T>(old(dst)@.len(), word),
    ensures
        final(dst)@.len() == old(dst)@.len(),
        filled(final(dst)@, 0, old(dst)@.len() as int, word),
{
    let w = T::width();
    let n = dst.len();
    let mut beg: usize = 0;
    let mut remaining = n * w;
    proof {
        lemma_chunk(w as int, 16);
    }
    let e16 = 16 / w;
    if remaining >= 32 {
        while remaining >= 32
            invariant
                fill_progress(dst@, n as nat, beg as int, remaining as int, word),
                n == old(dst)@.len(),
                w == T::byte_width(),
                e16 * w == 16,
            decreases remaining,
        {
            proof {
                lemma_step(n - beg, w as int, 2 * e16, 32);
            }
            store(dst, beg, e16, word, Ghost(beg as int));
            store(dst, beg + e16, e16, word, Ghost(beg + e16));
            beg = beg + 2 * e16;
            remaining = remaining - 32;
        }
    }
    if remaining >= 16 {
        // 16 to 31 bytes
        proof {
            lemma_tail(n - beg, w as int, 16);
        }
        store(dst, beg, e16, word, Ghost(beg as int));
        store(dst, n - e16, e16, word, Ghost(beg + e16));
    } else {
        memset_tail(dst, beg, remaining, word);
    }
}

/// Runs the fill kernel `kernel` on `dst` with the broadcast word `word`.
pub fn memset_raw<T: MemsetSafe>(kernel: MemsetKernel, dst: &mut [T], word: u64)
    requires
        fill_word_ok::<T>(old(dst)@.len(), word),
    ensures
        final(dst)@.len() == old(dst)@.len(),
        filled(final(dst)@, 0, old(dst)@.len() as int, word),
{
    match kernel {
        MemsetKernel::Avx2 => memset_avx2(dst, word),
        MemsetKernel::Sse2 => memset_sse2(dst, word),
        MemsetKernel::Lasx => memset_lasx(dst, word),
        MemsetKernel::Lsx => memset_lsx(dst, word),
        MemsetKernel::Neon => memset_neon(dst, word),
        MemsetKernel::Fallback => memset_fallback(dst, word),
    }
}

/// Writes `val` to every element of `dst` in turn: the plain byte fill that
/// one-byte values take.
fn fill_direct<T: MemsetSafe>(dst: &mut [T], val: T)
    ensures
        final(dst)@ == Seq::new(old(dst)@.len(), |i: int| val),
{
    let n = dst.len();
    let mut i: usize = 0;
    while i < n
        invariant
            dst@.len() == n,
            n == old(dst)@.len(),
            i <= n,
            forall|j: int| 0 <= j < i ==> dst@[j] == val,
        decreases n - i,
    {
        dst[i] = val;
        i = i + 1;
    }
    assert(dst@ =~= Seq::new(n as nat, |j: int| val));
}

/// The 64-bit word with `val` in each of its lanes.
fn broadcast_value<T: MemsetSafe>(val: T) -> (word: u64)
    ensures
        word == broadcast(word, T::byte_width()),
        word & low_mask(T::byte_width()) == val.bits(),
{
    let w = T::width();
    let v = val.to_bits();
    proof {
        T::lemma_bits(val, val);
    }
    if w == 1 {
        assert(v & 0xff == v ==> v * 0x0101_0101_0101_0101 <= 0xffff_ffff_ffff_ffff && ((((v
            * 0x0101_0101_0101_0101) as u64) & 0xff) * 0x0101_0101_0101_0101) as u64 == (v
            * 0x0101_0101_0101_0101) as u64 && ((v * 0x0101_0101_0101_0101) as u64) & 0xff == v)
            by (bit_vector);
        v * 0x0101_0101_0101_0101
    } else if w == 2 {
        assert(v & 0xffff == v ==> v * 0x0001_0001_0001_0001 <= 0xffff_ffff_ffff_ffff && ((((v
            * 0x0001_0001_0001_0001) as u64) & 0xffff) * 0x0001_0001_0001_0001) as u64 == (v
            * 0x0001_0001_0001_0001) as u64 && ((v * 0x0001_0001_0001_0001) as u64) & 0xffff == v)
            by (bit_vector);
        v * 0x0001_0001_0001_0001
    } else if w == 4 {
        assert(v & 0xffff_ffff == v ==> v * 0x0000_0001_0000_0001 <= 0xffff_ffff_ffff_ffff && ((((v
            * 0x0000_0001_0000_0001) as u64) & 0xffff_ffff) * 0x0000_0001_0000_0001) as u64 == (v
            * 0x0000_0001_0000_0001) as u64 && ((v * 0x0000_0001_0000_0001) as u64) & 0xffff_ffff
            == v) by (bit_vector);
        v * 0x0000_0001_0000_0001
    } else {
        v
    }
}

/// Fills `dst` with `val`, on the kernel `kernel`. Every kernel gives the
/// same result.
///
/// The size of `dst` in bytes fits `usize`, as that of every slice in
/// memory does.
pub fn memset_with<T: MemsetSafe>(kernel: MemsetKernel, dst: &mut [T], val: T)
    requires
        old(dst)@.len() * T::byte_width() <= usize::MAX,
    ensures
        final(dst)@ == Seq::new(old(dst)@.len(), |i: int| val),
{
    let w = T::width();
    if w == 1 {
        fill_direct(dst, val);
    } else {
        let word = broadcast_value(val);
        memset_raw(kernel, dst, word);
        assert forall|i: int| 0 <= i < dst@.len() implies dst@[i] == val by {
            T::lemma_bits(dst@[i], val);
        }
        assert(dst@ =~= Seq::new(old(dst)@.len(), |i: int| val));
    }
}

/// Fills `dst` with `val`: afterwards each of its elements equals `val`,
/// and its length is unchanged. Runs on the kernel with the widest stores.
pub fn memset<T: MemsetSafe>(dst: &mut [T], val: T)
    requires
        old(dst)@.len() * T::byte_width() <= usize::MAX,
    ensures
        final(dst)@ == Seq::new(old(dst)@.len(), |i: int| val),
{
    memset_with(MemsetKernel::Avx2, dst, val);
}

/// Picks the fill kernel for a CPU with `features` and fills `dst` with
/// `val` on it; returns the kernel, so that the caller can keep it for
/// later calls.
pub fn memset_dispatch<T: MemsetSafe>(features: &CpuFeatures, dst: &mut [T], val: T) -> (k:
    MemsetKernel)
    requires
        old(dst)@.len() * T::byte_width() <= usize::MAX,
    ensures
        k == preferred_memset_kernel(*features),
        final(dst)@ == Seq::new(old(dst)@.len(), |i: int| val),
{
    let kernel = MemsetKernel::select(features);
    memset_with(kernel, dst, val);
    kernel
}

} // verus!
