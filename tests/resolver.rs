use libshabal::{libshabal_version, select_extension, shabal_init, BackendResolver, CpuFeatures, SimdExtension};

fn features(avx512f: bool, avx2: bool, avx: bool, sse2: bool, neon: bool) -> CpuFeatures {
    CpuFeatures { avx512f, avx2, avx, sse2, neon }
}

#[test]
fn widest_x86_extension_wins() {
    assert_eq!(select_extension(features(true, true, true, true, false)), SimdExtension::AVX512f);
    assert_eq!(select_extension(features(false, true, true, true, false)), SimdExtension::AVX2);
    assert_eq!(select_extension(features(false, false, true, true, false)), SimdExtension::AVX);
    assert_eq!(select_extension(features(false, false, false, true, false)), SimdExtension::SSE2);
}

#[test]
fn neon_and_scalar_fallbacks() {
    assert_eq!(select_extension(features(false, false, false, false, true)), SimdExtension::NEON);
    assert_eq!(select_extension(features(false, false, false, false, false)), SimdExtension::NONE);
}

#[test]
fn resolver_answers_the_same_every_time() {
    let resolver = BackendResolver::new(features(false, true, true, true, false));
    assert_eq!(shabal_init(&resolver), SimdExtension::AVX2);
    assert_eq!(shabal_init(&resolver), SimdExtension::AVX2);
    assert_eq!(resolver.resolve(), SimdExtension::AVX2);
}

#[test]
fn version_string() {
    assert_eq!(libshabal_version(), "v1.3.0");
}
