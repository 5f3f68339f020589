//! Proof-of-capacity plotting and deadline search over the Shabal-256 digest.
//!
//! A nonce is 4096 scoops of 64 bytes, built by a backward hash chain from an
//! account id and a nonce number. A deadline search digests a generation
//! signature with each scoop of a set and keeps the least result. The
//! `curve25519` module holds the scalar side of the signature scheme: the
//! signature value and the canonical-encoding checks.
use vstd::prelude::*;

pub mod hash;
pub mod plot;
pub mod deadline;
pub mod simd;
pub mod hasher;
pub mod curve25519;

pub use crate::deadline::{best_deadline, deadline_from_hash, find_best_deadline_sph};
pub use crate::hasher::{
    shabal256_destroy, shabal256_digest, shabal256_new, shabal256_reset, shabal256_update, ShabalState,
};
pub use crate::plot::{noncegen_rust, noncegen_single_rust, poc2_shuffle, NONCE_SIZE, NUM_SCOOPS, SCOOP_SIZE};
pub use crate::simd::{select_extension, BackendResolver, CpuFeatures, SimdExtension};

verus! {

use crate::deadline::{is_best, scoop_deadlines};
use crate::plot::{nonce_bytes, nonces_bytes, valid_poc_version, write_nonces};
use crate::simd::selected;

/// The version of this library.
pub fn libshabal_version() -> (r: &'static str)
    ensures
        r@ == "v1.3.0"@,
{
    "v1.3.0"
}

/// Resolves the backend of `resolver`, once; later calls return the same.
pub fn shabal_init(resolver: &BackendResolver) -> (r: SimdExtension)
    ensures
        r == selected(resolver.features()),
{
    resolver.resolve()
}

/// Searches the first `nonce_count` scoops of `scoops` under `gensig` and
/// stores the least deadline and the first offset that has it.
/// Every backend runs the same scalar search.
#[allow(non_snake_case)]
pub fn shabal_findBestDeadlineDirect(
    backend: SimdExtension,
    scoops: &[u8],
    nonce_count: u64,
    gensig: &[u8; 32],
    best_deadline: &mut u64,
    best_offset: &mut u64,
)
    requires
        nonce_count * SCOOP_SIZE <= scoops@.len(),
    ensures
        is_best(scoop_deadlines(scoops@, nonce_count as nat, gensig@), *final(best_deadline), *final(best_offset)),
{
    let r = find_best_deadline_sph(scoops, nonce_count, gensig);
    *best_deadline = r.0;
    *best_offset = r.1;
}

/// The offset of the first scoop with the least deadline among the first
/// `nonce_count` scoops of `scoops` under `gensig`.
#[allow(non_snake_case)]
pub fn shabal_findBestDeadline(backend: SimdExtension, scoops: &[u8], nonce_count: u64, gensig: &[u8; 32]) -> (r: u64)
    requires
        nonce_count * SCOOP_SIZE <= scoops@.len(),
    ensures
        exists|d: u64| is_best(scoop_deadlines(scoops@, nonce_count as nat, gensig@), d, r),
{
    let mut deadline: u64 = u64::MAX;
    let mut offset: u64 = 0;
    shabal_findBestDeadlineDirect(backend, scoops, nonce_count, gensig, &mut deadline, &mut offset);
    offset
}

/// Writes `nonce_count` nonces of `account_id`, numbered from `start_nonce`,
/// one after the other from `plot_buffer_offset` on; writes nothing when
/// `nonce_count` is 0. Every backend runs the same scalar chain.
pub fn create_plots(
    backend: SimdExtension,
    account_id: u64,
    start_nonce: u64,
    nonce_count: u64,
    poc_version: u8,
    plot_buffer: &mut [u8],
    plot_buffer_offset: usize,
)
    requires
        nonce_count == 0 || plot_buffer_offset + nonce_count * NONCE_SIZE <= old(plot_buffer)@.len(),
        start_nonce + nonce_count <= u64::MAX + 1,
        valid_poc_version(poc_version),
    ensures
        nonce_count == 0 ==> final(plot_buffer)@ == old(plot_buffer)@,
        nonce_count > 0 ==> final(plot_buffer)@ == old(plot_buffer)@.subrange(0, plot_buffer_offset as int)
            + nonces_bytes(account_id, start_nonce, nonce_count as nat, poc_version)
            + old(plot_buffer)@.subrange(
                plot_buffer_offset + nonce_count * NONCE_SIZE,
                old(plot_buffer)@.len() as int,
            ),
{
    if nonce_count == 0 {
        return;
    }
    write_nonces(plot_buffer, plot_buffer_offset, account_id, start_nonce, nonce_count, poc_version);
}

/// Writes nonce `nonce` of `account_id` at `plot_buffer[plot_buffer_offset..]`.
pub fn create_plot(account_id: u64, nonce: u64, poc_version: u8, plot_buffer: &mut [u8], plot_buffer_offset: usize)
    requires
        plot_buffer_offset + NONCE_SIZE <= old(plot_buffer)@.len(),
        valid_poc_version(poc_version),
    ensures
        final(plot_buffer)@ == old(plot_buffer)@.subrange(0, plot_buffer_offset as int)
            + nonce_bytes(account_id, nonce, poc_version)
            + old(plot_buffer)@.subrange(plot_buffer_offset + NONCE_SIZE, old(plot_buffer)@.len() as int),
{
    let ghost nonces = nonces_bytes(account_id, nonce, 1, poc_version);
    assert(nonces =~= nonce_bytes(account_id, nonce, poc_version)) by {
        assert(nonces_bytes(account_id, nonce, 0, poc_version) =~= Seq::<u8>::empty());
    }
    write_nonces(plot_buffer, plot_buffer_offset, account_id, nonce, 1, poc_version);
}

/// Writes scoop `scoop` of nonce `nonce` of `account_id` at
/// `scoop_buffer[scoop_buffer_offset..]`. The whole nonce is generated to get it.
pub fn create_scoop(
    account_id: u64,
    nonce: u64,
    scoop: u32,
    poc_version: u8,
    scoop_buffer: &mut [u8],
    scoop_buffer_offset: usize,
)
    requires
        scoop < NUM_SCOOPS,
        scoop_buffer_offset + SCOOP_SIZE <= old(scoop_buffer)@.len(),
        valid_poc_version(poc_version),
    ensures
        final(scoop_buffer)@ == old(scoop_buffer)@.subrange(0, scoop_buffer_offset as int)
            + nonce_bytes(account_id, nonce, poc_version).subrange(scoop * SCOOP_SIZE, scoop * SCOOP_SIZE + SCOOP_SIZE)
            + old(scoop_buffer)@.subrange(scoop_buffer_offset + SCOOP_SIZE, old(scoop_buffer)@.len() as int),
{
    let mut buffer: Vec<u8> = vec![0u8; NONCE_SIZE];
    noncegen_single_rust(buffer.as_mut_slice(), account_id, nonce, poc_version);
    let ghost nonce_seq = nonce_bytes(account_id, nonce, poc_version);
    proof {
        crate::plot::lemma_nonce_len(account_id, nonce, poc_version);
    }
    assert(buffer@ =~= nonce_seq);
    let from = scoop as usize * SCOOP_SIZE;
    let len = scoop_buffer.len();
    let mut j: usize = 0;
    while j < SCOOP_SIZE
        invariant
            len == scoop_buffer@.len() == old(scoop_buffer)@.len(),
            scoop_buffer_offset + SCOOP_SIZE <= len,
            from == scoop * SCOOP_SIZE,
            from + SCOOP_SIZE <= NONCE_SIZE,
            buffer@ == nonce_seq,
            nonce_seq.len() == NONCE_SIZE,
            j <= SCOOP_SIZE,
            forall|k: int| 0 <= k < len ==> #[trigger] scoop_buffer@[k] == if scoop_buffer_offset <= k < scoop_buffer_offset + j {
                nonce_seq[from + k - scoop_buffer_offset]
            } else {
                old(scoop_buffer)@[k]
            },
        decreases SCOOP_SIZE - j,
    {
        scoop_buffer[scoop_buffer_offset + j] = buffer[from + j];
        j = j + 1;
    }
    assert(scoop_buffer@ =~= old(scoop_buffer)@.subrange(0, scoop_buffer_offset as int)
        + nonce_seq.subrange(scoop * SCOOP_SIZE, scoop * SCOOP_SIZE + SCOOP_SIZE)
        + old(scoop_buffer)@.subrange(scoop_buffer_offset + SCOOP_SIZE, old(scoop_buffer)@.len() as int));
}

/// Generating one nonce twice writes the same bytes, wherever they land.
pub proof fn lemma_plot_is_deterministic(
    first_old: Seq<u8>,
    first_new: Seq<u8>,
    first_offset: int,
    second_old: Seq<u8>,
    second_new: Seq<u8>,
    second_offset: int,
    account_id: u64,
    nonce: u64,
    poc_version: u8,
)
    requires
        0 <= first_offset,
        first_offset + NONCE_SIZE <= first_old.len(),
        0 <= second_offset,
        second_offset + NONCE_SIZE <= second_old.len(),
        first_new == first_old.subrange(0, first_offset) + nonce_bytes(account_id, nonce, poc_version)
            + first_old.subrange(first_offset + NONCE_SIZE, first_old.len() as int),
        second_new == second_old.subrange(0, second_offset) + nonce_bytes(account_id, nonce, poc_version)
            + second_old.subrange(second_offset + NONCE_SIZE, second_old.len() as int),
    ensures
        first_new.subrange(first_offset, first_offset + NONCE_SIZE)
            == second_new.subrange(second_offset, second_offset + NONCE_SIZE),
{
    crate::plot::lemma_nonce_len(account_id, nonce, poc_version);
    assert(first_new.subrange(first_offset, first_offset + NONCE_SIZE) =~= nonce_bytes(account_id, nonce, poc_version));
    assert(second_new.subrange(second_offset, second_offset + NONCE_SIZE) =~= nonce_bytes(account_id, nonce, poc_version));
}

/// The scoop that `create_scoop` writes is the same 64 bytes that
/// `create_plot` writes for that scoop of the nonce.
pub proof fn lemma_scoop_matches_plot(
    plot_old: Seq<u8>,
    plot_new: Seq<u8>,
    plot_offset: int,
    scoop_old: Seq<u8>,
    scoop_new: Seq<u8>,
    scoop_offset: int,
    account_id: u64,
    nonce: u64,
    scoop: u32,
    poc_version: u8,
)
    requires
        scoop < NUM_SCOOPS,
        0 <= plot_offset,
        plot_offset + NONCE_SIZE <= plot_old.len(),
        0 <= scoop_offset,
        scoop_offset + SCOOP_SIZE <= scoop_old.len(),
        plot_new == plot_old.subrange(0, plot_offset) + nonce_bytes(account_id, nonce, poc_version)
            + plot_old.subrange(plot_offset + NONCE_SIZE, plot_old.len() as int),
        scoop_new == scoop_old.subrange(0, scoop_offset)
            + nonce_bytes(account_id, nonce, poc_version).subrange(scoop * SCOOP_SIZE, scoop * SCOOP_SIZE + SCOOP_SIZE)
            + scoop_old.subrange(scoop_offset + SCOOP_SIZE, scoop_old.len() as int),
    ensures
        scoop_new.subrange(scoop_offset, scoop_offset + SCOOP_SIZE) == plot_new.subrange(
            plot_offset + scoop * SCOOP_SIZE,
            plot_offset + scoop * SCOOP_SIZE + SCOOP_SIZE,
        ),
{
    crate::plot::lemma_nonce_len(account_id, nonce, poc_version);
    assert(scoop_new.subrange(scoop_offset, scoop_offset + SCOOP_SIZE) =~= plot_new.subrange(
        plot_offset + scoop * SCOOP_SIZE,
        plot_offset + scoop * SCOOP_SIZE + SCOOP_SIZE,
    ));
}

} // verus!
