//! Choice of the instruction-set backend, made once per resolver.
use vstd::prelude::*;
use once_cell::sync::OnceCell;

verus! {

/// The instruction-set extensions that a backend can be built for.
#[derive(Debug, Clone, Copy, PartialEq, Eq, Structural)]
pub enum SimdExtension {
    AVX512f,
    AVX2,
    AVX,
    SSE2,
    NEON,
    NONE,
}

/// What the host was found to support.
#[derive(Debug, Clone, Copy, PartialEq, Eq, Structural)]
pub struct CpuFeatures {
    pub avx512f: bool,
    pub avx2: bool,
    pub avx: bool,
    pub sse2: bool,
    pub neon: bool,
}

/// The backend for `features`: on x86 the widest of AVX512F, AVX2, AVX and
/// SSE2 that is there, else NEON where it is there, else the scalar one.
pub open spec fn selected(features: CpuFeatures) -> SimdExtension {
    if features.avx512f {
        SimdExtension::AVX512f
    } else if features.avx2 {
        SimdExtension::AVX2
    } else if features.avx {
        SimdExtension::AVX
    } else if features.sse2 {
        SimdExtension::SSE2
    } else if features.neon {
        SimdExtension::NEON
    } else {
        SimdExtension::NONE
    }
}

/// The backend for `features`.
pub fn select_extension(features: CpuFeatures) -> (r: SimdExtension)
    ensures
        r == selected(features),
{
    if features.avx512f {
        SimdExtension::AVX512f
    } else if features.avx2 {
        SimdExtension::AVX2
    } else if features.avx {
        SimdExtension::AVX
    } else if features.sse2 {
        SimdExtension::SSE2
    } else if features.neon {
        SimdExtension::NEON
    } else {
        SimdExtension::NONE
    }
}

#[verifier::external_type_specification]
#[verifier::external_body]
#[verifier::reject_recursive_types(T)]
pub struct ExOnceCell<T>(OnceCell<T>);

/// Relies on `once_cell::sync::OnceCell::new`: a cell that holds nothing yet.
pub assume_specification<T>[ OnceCell::<T>::new ]() -> OnceCell<T>;

/// Resolves the backend at most once and keeps the answer: every thread that
/// asks, first or later, gets the same value.
pub struct BackendResolver {
    features: CpuFeatures,
    chosen: OnceCell<SimdExtension>,
}

impl BackendResolver {
    /// The host features that this resolver decides on.
    pub closed spec fn features(&self) -> CpuFeatures {
        self.features
    }

    /// A resolver that has not decided yet.
    pub fn new(features: CpuFeatures) -> (r: Self)
        ensures
            r.features() == features,
    {
        BackendResolver { features, chosen: OnceCell::new() }
    }

    /// The backend, decided on first use and the same on every call.
    pub fn resolve(&self) -> (r: SimdExtension)
        ensures
            r == selected(self.features()),
    {
        cached_choice(self)
    }
}

/// Relies on `once_cell::sync::OnceCell::get_or_init`: the cell runs its
/// initializer only while empty, lets one thread do so while the others wait,
/// and from then on returns what was stored. This is the only place that
/// fills `chosen`, always with `select_extension` of the resolver's own
/// `features`, which never change.
#[verifier::external_body]
fn cached_choice(resolver: &BackendResolver) -> (r: SimdExtension)
    ensures
        r == selected(resolver.features()),
{
    *resolver.chosen.get_or_init(|| select_extension(resolver.features))
}

/// Two answers of one resolver agree.
pub proof fn lemma_resolution_is_stable(resolver: &BackendResolver, first: SimdExtension, second: SimdExtension)
    requires
        first == selected(resolver.features()),
        second == selected(resolver.features()),
    ensures
        first == second,
{
}

} // verus!
