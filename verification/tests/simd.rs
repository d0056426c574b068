//! The choice of a kernel.

use flats::simd::{
    cached_kind, detect, selected_kernel, Features, Kernel, KIND_AVX2, KIND_NEON, KIND_SCALAR,
    KIND_UNINIT,
};

const PLAIN: Features = Features {
    avx2: false,
    fma: false,
    neon: false,
};

#[test]
fn avx2_needs_both_of_its_features() {
    assert_eq!(detect(PLAIN), KIND_SCALAR);
    assert_eq!(detect(Features { avx2: true, ..PLAIN }), KIND_SCALAR);
    assert_eq!(detect(Features { fma: true, ..PLAIN }), KIND_SCALAR);
    assert_eq!(detect(Features { avx2: true, fma: true, ..PLAIN }), KIND_AVX2);
    assert_eq!(detect(Features { neon: true, ..PLAIN }), KIND_NEON);
}

#[test]
fn the_choice_is_made_once() {
    let mut cache = KIND_UNINIT;
    let fast = Features { avx2: true, fma: true, ..PLAIN };
    assert_eq!(cached_kind(&mut cache, fast), KIND_AVX2);
    assert_eq!(cached_kind(&mut cache, PLAIN), KIND_AVX2);
    assert_eq!(selected_kernel(&mut cache, PLAIN), Kernel::Avx2Fma);
    assert_eq!(selected_kernel(&mut KIND_UNINIT.clone(), PLAIN), Kernel::Scalar);
}
