//! Which dot-product kernel a machine uses.
//!
//! The kernels themselves compute with floats and belong to the program around
//! this library. The choice is made once and remembered.

use vstd::prelude::*;

verus! {

/// No choice was made yet.
pub const KIND_UNINIT: u8 = 0;

/// The portable kernel.
pub const KIND_SCALAR: u8 = 1;

/// The AVX2 and FMA kernel.
pub const KIND_AVX2: u8 = 2;

/// The NEON kernel.
pub const KIND_NEON: u8 = 3;

/// The dot-product kernels.
#[derive(Debug, Clone, Copy, PartialEq, Eq, Structural)]
pub enum Kernel {
    /// Portable, and the reference for the others.
    Scalar,
    /// x86-64 with AVX2 and FMA.
    Avx2Fma,
    /// aarch64 with NEON.
    Neon,
}

/// What the processor was found to have.
#[derive(Debug, Clone, Copy, PartialEq, Eq, Structural)]
pub struct Features {
    /// AVX2 instructions.
    pub avx2: bool,
    /// Fused multiply-add instructions on x86-64.
    pub fma: bool,
    /// NEON instructions.
    pub neon: bool,
}

/// The best kind for a processor: AVX2 needs FMA beside it.
pub open spec fn best(f: Features) -> u8 {
    if f.avx2 && f.fma {
        KIND_AVX2
    } else if f.neon {
        KIND_NEON
    } else {
        KIND_SCALAR
    }
}

/// The best kind for a processor.
pub fn detect(f: Features) -> (kind: u8)
    ensures
        kind == best(f),
        kind != KIND_UNINIT,
{
    if f.avx2 && f.fma {
        return KIND_AVX2;
    }
    if f.neon {
        return KIND_NEON;
    }
    KIND_SCALAR
}

/// The remembered kind, chosen now if none was.
pub open spec fn chosen(cache: u8, f: Features) -> u8 {
    if cache != KIND_UNINIT {
        cache
    } else {
        best(f)
    }
}

/// The remembered kind, chosen now if none was. Asking again gives the same.
pub fn cached_kind(cache: &mut u8, f: Features) -> (kind: u8)
    ensures
        kind == chosen(*old(cache), f),
        *final(cache) == kind,
        kind != KIND_UNINIT,
{
    if *cache != KIND_UNINIT {
        return *cache;
    }
    let kind: u8 = detect(f);
    *cache = kind;
    kind
}

/// The kernel of a kind.
pub open spec fn kernel_of(kind: u8) -> Kernel {
    if kind == KIND_AVX2 {
        Kernel::Avx2Fma
    } else if kind == KIND_NEON {
        Kernel::Neon
    } else {
        Kernel::Scalar
    }
}

/// The kernel that is used, chosen now if none was.
pub fn selected_kernel(cache: &mut u8, f: Features) -> (k: Kernel)
    ensures
        k == kernel_of(chosen(*old(cache), f)),
        *final(cache) == chosen(*old(cache), f),
{
    match cached_kind(cache, f) {
        KIND_AVX2 => Kernel::Avx2Fma,
        KIND_NEON => Kernel::Neon,
        _ => Kernel::Scalar,
    }
}

/// The choice is made once: whatever is detected later, the kernel stays.
pub proof fn law_choice_is_made_once(cache: u8, f: Features, later: Features)
    ensures
        chosen(chosen(cache, f), later) == chosen(cache, f),
        chosen(KIND_UNINIT, f) == best(f),
{
}

/// Which kernel a processor gets: AVX2 only with both AVX2 and FMA, NEON where it is there
/// and the former is not, and the portable one otherwise.
pub proof fn law_kernel_needs_its_features(f: Features)
    ensures
        kernel_of(best(f)) is Avx2Fma <==> f.avx2 && f.fma,
        kernel_of(best(f)) is Neon <==> f.neon && !(f.avx2 && f.fma),
        kernel_of(best(f)) is Scalar <==> !f.neon && !(f.avx2 && f.fma),
        best(f) != KIND_UNINIT,
{
}

} // verus!
