//! Hot-path byte primitives for a text editor: seeking forward by lines
//! through a byte buffer, and filling a slice with a repeated value of
//! one, two, four or eight bytes.
//!
//! Each primitive has several kernels, one shaped after each vector
//! extension of common CPUs (its lane width, unrolling and handling of
//! unaligned heads and short tails), plus a scalar fallback. The kernels are
//! portable code; every one is proved to compute exactly the same result, so
//! which one runs is a matter of speed only. `dispatch` says which kernel
//! suits a CPU.
use vstd::prelude::*;

pub mod dispatch;
pub mod lines_fwd;
pub mod memset;

verus! {

/// The signed integer type the editor uses for line and column indices.
pub type CoordType = isize;

/// Relies on `<*const T>::align_offset`: how many elements past `s[at]` the
/// next address that is a multiple of `align` lies. The answer depends on
/// where the slice sits in memory, so nothing is assumed of it; the kernels
/// that ask are correct whatever it is.
#[verifier::external_body]
pub(crate) fn align_offset<T>(s: &[T], at: usize, align: usize) -> (r: usize)
    requires
        at <= s@.len(),
        align == 16 || align == 32,
{
    s.as_ptr().wrapping_add(at).align_offset(align)
}

} // verus!
