//! Choosing a kernel from what the running CPU supports.
//!
//! Probing the CPU and caching the choice for the life of the process is
//! left to the caller; this module decides, from the probed features, which
//! kernel of each family is preferred.
use vstd::prelude::*;

verus! {

/// The instruction-set architecture the program was built for.
#[derive(Clone, Copy, Debug, PartialEq, Eq, Structural)]
pub enum Arch {
    X86,
    X86_64,
    LoongArch64,
    AArch64,
    Other,
}

/// What a probe of the running CPU found.
#[derive(Clone, Copy, Debug, PartialEq, Eq, Structural)]
pub struct CpuFeatures {
    pub arch: Arch,
    pub avx2: bool,
    pub lasx: bool,
    pub lsx: bool,
}

/// The kernels of the line seek family.
#[derive(Clone, Copy, Debug, PartialEq, Eq, Structural)]
pub enum LinesKernel {
    Avx2,
    Lasx,
    Lsx,
    Neon,
    Fallback,
}

/// The kernels of the fill family.
#[derive(Clone, Copy, Debug, PartialEq, Eq, Structural)]
pub enum MemsetKernel {
    Avx2,
    Sse2,
    Lasx,
    Lsx,
    Neon,
    Fallback,
}

/// The preferred line seek kernel on a CPU with features `f`: the widest
/// vector extension first, the scalar kernel last.
pub open spec fn preferred_lines_kernel(f: CpuFeatures) -> LinesKernel {
    match f.arch {
        Arch::X86_64 => if f.avx2 {
            LinesKernel::Avx2
        } else {
            LinesKernel::Fallback
        },
        Arch::LoongArch64 => if f.lasx {
            LinesKernel::Lasx
        } else if f.lsx {
            LinesKernel::Lsx
        } else {
            LinesKernel::Fallback
        },
        Arch::AArch64 => LinesKernel::Neon,
        _ => LinesKernel::Fallback,
    }
}

/// The preferred fill kernel on a CPU with features `f`. Every x86 CPU has
/// SSE2, so x86 never falls back to the scalar kernel.
pub open spec fn preferred_memset_kernel(f: CpuFeatures) -> MemsetKernel {
    match f.arch {
        Arch::X86 | Arch::X86_64 => if f.avx2 {
            MemsetKernel::Avx2
        } else {
            MemsetKernel::Sse2
        },
        Arch::LoongArch64 => if f.lasx {
            MemsetKernel::Lasx
        } else if f.lsx {
            MemsetKernel::Lsx
        } else {
            MemsetKernel::Fallback
        },
        Arch::AArch64 => MemsetKernel::Neon,
        Arch::Other => MemsetKernel::Fallback,
    }
}

impl LinesKernel {
    /// Picks the line seek kernel for a CPU with features `f`.
    pub fn select(f: &CpuFeatures) -> (k: LinesKernel)
        ensures
            k == preferred_lines_kernel(*f),
    {
        match f.arch {
            Arch::X86_64 => if f.avx2 {
                LinesKernel::Avx2
            } else {
                LinesKernel::Fallback
            },
            Arch::LoongArch64 => if f.lasx {
                LinesKernel::Lasx
            } else if f.lsx {
                LinesKernel::Lsx
            } else {
                LinesKernel::Fallback
            },
            Arch::AArch64 => LinesKernel::Neon,
            _ => LinesKernel::Fallback,
        }
    }
}

impl MemsetKernel {
    /// Picks the fill kernel for a CPU with features `f`.
    pub fn select(f: &CpuFeatures) -> (k: MemsetKernel)
        ensures
            k == preferred_memset_kernel(*f),
    {
        match f.arch {
            Arch::X86 | Arch::X86_64 => if f.avx2 {
                MemsetKernel::Avx2
            } else {
                MemsetKernel::Sse2
            },
            Arch::LoongArch64 => if f.lasx {
                MemsetKernel::Lasx
            } else if f.lsx {
                MemsetKernel::Lsx
            } else {
                MemsetKernel::Fallback
            },
            Arch::AArch64 => MemsetKernel::Neon,
            Arch::Other => MemsetKernel::Fallback,
        }
    }
}

} // verus!
