//! Deadline search: the digest of the generation signature and each scoop,
//! read as a number, and the least of them.
use vstd::prelude::*;
use crate::hash::{digest, shabal256_parts};
use crate::plot::SCOOP_SIZE;

verus! {

/// Bytes in a generation signature.
pub const GENSIG_SIZE: usize = 32;

/// The first eight bytes of `b` as an unsigned number, least significant first.
pub open spec fn u64_le(b: Seq<u8>) -> u64 {
    (b[0] as u64) | ((b[1] as u64) << 8u64) | ((b[2] as u64) << 16u64) | ((b[3] as u64) << 24u64)
        | ((b[4] as u64) << 32u64) | ((b[5] as u64) << 40u64) | ((b[6] as u64) << 48u64)
        | ((b[7] as u64) << 56u64)
}

/// The deadline of `scoop` under generation signature `gensig`.
pub open spec fn deadline_of(gensig: Seq<u8>, scoop: Seq<u8>) -> u64 {
    u64_le(digest(gensig + scoop))
}

/// The deadlines of the first `count` scoops of `scoops`.
pub open spec fn scoop_deadlines(scoops: Seq<u8>, count: nat, gensig: Seq<u8>) -> Seq<u64> {
    Seq::new(
        count,
        |i: int| deadline_of(gensig, scoops.subrange(i * SCOOP_SIZE, i * SCOOP_SIZE + SCOOP_SIZE)),
    )
}

/// `(deadline, offset)` is the result of a search over `ds`: the least deadline
/// and the first offset that has it; `(u64::MAX, 0)` when `ds` is empty.
pub open spec fn is_best(ds: Seq<u64>, deadline: u64, offset: u64) -> bool {
    if ds.len() == 0 {
        deadline == u64::MAX && offset == 0
    } else {
        &&& offset < ds.len()
        &&& ds[offset as int] == deadline
        &&& forall|i: int| 0 <= i < ds.len() ==> deadline <= #[trigger] ds[i]
        &&& forall|i: int| 0 <= i < offset ==> deadline < #[trigger] ds[i]
    }
}

/// Reads the first eight bytes of a digest as a number, least significant first.
pub fn deadline_from_hash(hash: &[u8; 32]) -> (r: u64)
    ensures
        r == u64_le(hash@),
{
    (hash[0] as u64) | ((hash[1] as u64) << 8u64) | ((hash[2] as u64) << 16u64) | ((hash[3] as u64) << 24u64)
        | ((hash[4] as u64) << 32u64) | ((hash[5] as u64) << 40u64) | ((hash[6] as u64) << 48u64)
        | ((hash[7] as u64) << 56u64)
}

/// One step of the search: `(best, offset)` over the first `i` deadlines,
/// followed by deadline `d` at offset `i`.
fn best_step(ghost_ds: Ghost<Seq<u64>>, best: u64, offset: u64, i: u64, d: u64) -> (r: (u64, u64))
    requires
        i < ghost_ds@.len(),
        ghost_ds@[i as int] == d,
        is_best(ghost_ds@.subrange(0, i as int), best, offset),
    ensures
        is_best(ghost_ds@.subrange(0, i + 1), r.0, r.1),
{
    let ghost ds = ghost_ds@;
    let ghost prev = ds.subrange(0, i as int);
    let ghost next = ds.subrange(0, i + 1);
    assert(forall|k: int| 0 <= k < i ==> next[k] == #[trigger] prev[k]);
    if d < best {
        (d, i)
    } else {
        (best, offset)
    }
}

/// The least of `deadlines` and the first offset that holds it;
/// `(u64::MAX, 0)` when there are none.
pub fn best_deadline(deadlines: &[u64]) -> (r: (u64, u64))
    requires
        deadlines@.len() <= u64::MAX,
    ensures
        is_best(deadlines@, r.0, r.1),
{
    let n = deadlines.len();
    let mut best: u64 = u64::MAX;
    let mut offset: u64 = 0;
    let mut i: usize = 0;
    while i < n
        invariant
            n == deadlines@.len() <= u64::MAX,
            i <= n,
            is_best(deadlines@.subrange(0, i as int), best, offset),
        decreases n - i,
    {
        let r = best_step(Ghost(deadlines@), best, offset, i as u64, deadlines[i]);
        best = r.0;
        offset = r.1;
        i = i + 1;
    }
    assert(deadlines@.subrange(0, n as int) =~= deadlines@);
    (best, offset)
}

/// The scalar search: the least deadline among the first `nonce_count`
/// scoops of `scoops` under `gensig`, and the first offset that has it.
pub fn find_best_deadline_sph(scoops: &[u8], nonce_count: u64, gensig: &[u8; 32]) -> (r: (u64, u64))
    requires
        nonce_count * SCOOP_SIZE <= scoops@.len(),
    ensures
        is_best(scoop_deadlines(scoops@, nonce_count as nat, gensig@), r.0, r.1),
{
    let ghost ds = scoop_deadlines(scoops@, nonce_count as nat, gensig@);
    let no_tail: [u8; 0] = [];
    let len = scoops.len();
    let mut best: u64 = u64::MAX;
    let mut offset: u64 = 0;
    let mut i: u64 = 0;
    let mut at: usize = 0;
    while i < nonce_count
        invariant
            len == scoops@.len(),
            nonce_count * SCOOP_SIZE <= len,
            ds == scoop_deadlines(scoops@, nonce_count as nat, gensig@),
            no_tail@.len() == 0,
            i <= nonce_count,
            at == i * SCOOP_SIZE,
            is_best(ds.subrange(0, i as int), best, offset),
        decreases nonce_count - i,
    {
        assert(at + SCOOP_SIZE <= len) by (nonlinear_arith)
            requires
                at == i * SCOOP_SIZE,
                i < nonce_count,
                nonce_count * SCOOP_SIZE <= len,
        ;
        let h = shabal256_parts(gensig, scoops, at, at + SCOOP_SIZE, &no_tail);
        assert(gensig@ + scoops@.subrange(at as int, at + SCOOP_SIZE) + no_tail@
            =~= gensig@ + scoops@.subrange(at as int, at + SCOOP_SIZE));
        assert(h@ =~= digest(gensig@ + scoops@.subrange(at as int, at + SCOOP_SIZE)));
        let d = deadline_from_hash(&h);
        let r = best_step(Ghost(ds), best, offset, i, d);
        best = r.0;
        offset = r.1;
        assert(at + SCOOP_SIZE == (i + 1) * SCOOP_SIZE) by (nonlinear_arith)
            requires
                at == i * SCOOP_SIZE,
        ;
        at = at + SCOOP_SIZE;
        i = i + 1;
    }
    assert(ds.subrange(0, nonce_count as int) =~= ds);
    (best, offset)
}

} // verus!
