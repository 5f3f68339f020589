//! Nonce generation: the backward Shabal-256 hash chain, the final mask and
//! the PoC2 interleave.
use vstd::prelude::*;
use crate::hash::{digest, shabal256_parts};

verus! {

/// Bytes of one Shabal-256 digest, and of one link of the chain.
pub const HASH_SIZE: usize = 32;
/// Longest window of the buffer that one link of the chain hashes.
pub const HASH_CAP: usize = 4096;
/// Scoops in one nonce.
pub const NUM_SCOOPS: usize = 4096;
/// Bytes in one scoop.
pub const SCOOP_SIZE: usize = 64;
/// Bytes in one nonce.
pub const NONCE_SIZE: usize = NUM_SCOOPS * SCOOP_SIZE;
/// Links of the chain in one nonce.
pub const HASH_COUNT: usize = NONCE_SIZE / HASH_SIZE;

/// The eight bytes of `x`, most significant first.
pub open spec fn u64_be(x: u64) -> Seq<u8> {
    seq![
        (x >> 56u64) as u8, (x >> 48u64) as u8, (x >> 40u64) as u8, (x >> 32u64) as u8,
        (x >> 24u64) as u8, (x >> 16u64) as u8, (x >> 8u64) as u8, x as u8,
    ]
}

/// The 16-byte seed of a nonce: account id, then nonce number, both big-endian.
pub open spec fn seed_of(account_id: u64, nonce: u64) -> Seq<u8> {
    u64_be(account_id) + u64_be(nonce)
}

/// What the next link hashes, given the links already written after it:
/// all of them followed by the seed while they are shorter than `HASH_CAP`,
/// else the first `HASH_CAP` bytes of them.
///
/// The chain's three termination blocks are the Shabal padding of these
/// messages: after a 64-byte aligned tail, the block holds the seed and the
/// `0x80` terminator; after an unaligned tail, the tail's last 32 bytes (the
/// first link), the seed and the terminator; after a full window, the
/// terminator alone.
pub open spec fn link_input(seed: Seq<u8>, tail: Seq<u8>) -> Seq<u8> {
    if tail.len() < HASH_CAP {
        tail + seed
    } else {
        tail.subrange(0, HASH_CAP as int)
    }
}

/// The last `k` links of the unmasked nonce, written from the end backwards.
pub open spec fn chain_tail(seed: Seq<u8>, k: nat) -> Seq<u8>
    decreases k,
{
    if k == 0 {
        Seq::empty()
    } else {
        let tail = chain_tail(seed, (k - 1) as nat);
        digest(link_input(seed, tail)) + tail
    }
}

/// The whole unmasked nonce.
pub open spec fn chain_of(seed: Seq<u8>) -> Seq<u8> {
    chain_tail(seed, HASH_COUNT as nat)
}

/// `data` with byte `i` XORed with `mask[i % 32]`.
pub open spec fn masked(data: Seq<u8>, mask: Seq<u8>) -> Seq<u8> {
    Seq::new(data.len(), |i: int| data[i] ^ mask[i % (HASH_SIZE as int)])
}

/// Where the PoC2 interleave takes byte `b` of a nonce from: the second half of
/// scoop `s` trades places with the second half of scoop `4095 - s`.
pub open spec fn poc2_source(b: int) -> int {
    let c = b / (HASH_SIZE as int);
    let r = b % (HASH_SIZE as int);
    if c % 2 == 1 {
        (HASH_COUNT as int - c) * (HASH_SIZE as int) + r
    } else {
        b
    }
}

/// A nonce with the PoC2 interleave applied.
pub open spec fn poc2_shuffled(data: Seq<u8>) -> Seq<u8> {
    Seq::new(data.len(), |b: int| data[poc2_source(b)])
}

/// The PoC1 nonce of `seed`: the chain masked with the digest of the chain and the seed.
pub open spec fn poc1_nonce(seed: Seq<u8>) -> Seq<u8> {
    let chain = chain_of(seed);
    masked(chain, digest(chain + seed))
}

/// The nonce `nonce` of `account_id`, in format `poc_version`.
pub open spec fn nonce_bytes(account_id: u64, nonce: u64, poc_version: u8) -> Seq<u8> {
    let plain = poc1_nonce(seed_of(account_id, nonce));
    if poc_version == 2 {
        poc2_shuffled(plain)
    } else {
        plain
    }
}

/// `count` consecutive nonces of `account_id`, the first numbered `start`.
pub open spec fn nonces_bytes(account_id: u64, start: u64, count: nat, poc_version: u8) -> Seq<u8>
    decreases count,
{
    if count == 0 {
        Seq::empty()
    } else {
        nonces_bytes(account_id, start, (count - 1) as nat, poc_version)
            + nonce_bytes(account_id, (start + count - 1) as u64, poc_version)
    }
}

/// A PoC format that generation knows.
pub open spec fn valid_poc_version(v: u8) -> bool {
    v == 1 || v == 2
}

/// The last `k` links take `32 * k` bytes.
pub proof fn lemma_chain_tail_len(seed: Seq<u8>, k: nat)
    ensures
        chain_tail(seed, k).len() == HASH_SIZE * k,
    decreases k,
{
    if k > 0 {
        lemma_chain_tail_len(seed, (k - 1) as nat);
    }
}

/// Every nonce is `NONCE_SIZE` bytes long.
pub proof fn lemma_nonce_len(account_id: u64, nonce: u64, poc_version: u8)
    ensures
        nonce_bytes(account_id, nonce, poc_version).len() == NONCE_SIZE,
{
    lemma_chain_tail_len(seed_of(account_id, nonce), HASH_COUNT as nat);
}

/// `count` nonces take `count * NONCE_SIZE` bytes.
pub proof fn lemma_nonces_len(account_id: u64, start: u64, count: nat, poc_version: u8)
    ensures
        nonces_bytes(account_id, start, count, poc_version).len() == count * NONCE_SIZE,
    decreases count,
{
    if count > 0 {
        lemma_nonces_len(account_id, start, (count - 1) as nat, poc_version);
        lemma_nonce_len(account_id, (start + count - 1) as u64, poc_version);
        assert((count - 1) * NONCE_SIZE + NONCE_SIZE == count * NONCE_SIZE) by (nonlinear_arith);
    }
}

/// The seed bytes of a nonce.
fn seed_bytes(account_id: u64, nonce: u64) -> (r: [u8; 16])
    ensures
        r@ == seed_of(account_id, nonce),
{
    let r: [u8; 16] = [
        (account_id >> 56u64) as u8, (account_id >> 48u64) as u8,
        (account_id >> 40u64) as u8, (account_id >> 32u64) as u8,
        (account_id >> 24u64) as u8, (account_id >> 16u64) as u8,
        (account_id >> 8u64) as u8, account_id as u8,
        (nonce >> 56u64) as u8, (nonce >> 48u64) as u8,
        (nonce >> 40u64) as u8, (nonce >> 32u64) as u8,
        (nonce >> 24u64) as u8, (nonce >> 16u64) as u8,
        (nonce >> 8u64) as u8, nonce as u8,
    ];
    assert(r@ =~= seed_of(account_id, nonce));
    r
}

/// Writes the 32 bytes of `src` at `at`.
fn write_link(dst: &mut [u8], at: usize, src: &[u8; 32])
    requires
        at + HASH_SIZE <= old(dst)@.len(),
    ensures
        final(dst)@ == old(dst)@.subrange(0, at as int) + src@
            + old(dst)@.subrange(at + HASH_SIZE, old(dst)@.len() as int),
{
    let len = dst.len();
    let mut j: usize = 0;
    while j < HASH_SIZE
        invariant
            at + HASH_SIZE <= dst@.len(),
            len == dst@.len(),
            dst@.len() == old(dst)@.len(),
            j <= HASH_SIZE,
            forall|k: int| 0 <= k < dst@.len() ==> #[trigger] dst@[k] == if at <= k < at + j {
                src@[k - at]
            } else {
                old(dst)@[k]
            },
        decreases HASH_SIZE - j,
    {
        dst[at + j] = src[j];
        j = j + 1;
    }
    assert(dst@ =~= old(dst)@.subrange(0, at as int) + src@
        + old(dst)@.subrange(at + HASH_SIZE, old(dst)@.len() as int));
}

/// Writes the unmasked chain of `seed` over `cache[base..base + NONCE_SIZE]`,
/// from its last link backwards.
fn write_chain(cache: &mut [u8], base: usize, seed: &[u8; 16])
    requires
        base + NONCE_SIZE <= old(cache)@.len(),
    ensures
        final(cache)@ == old(cache)@.subrange(0, base as int) + chain_of(seed@)
            + old(cache)@.subrange(base + NONCE_SIZE, old(cache)@.len() as int),
{
    let len = cache.len();
    let end = base + NONCE_SIZE;
    let no_tail: [u8; 0] = [];
    let no_head: [u8; 0] = [];
    let mut m: usize = 0;
    while m < HASH_COUNT
        invariant
            len == cache@.len() == old(cache)@.len(),
            end == base + NONCE_SIZE,
            end <= len,
            m <= HASH_COUNT,
            no_tail@.len() == 0,
            no_head@.len() == 0,
            cache@.subrange(0, base as int) == old(cache)@.subrange(0, base as int),
            cache@.subrange(end as int, len as int) == old(cache)@.subrange(end as int, len as int),
            cache@.subrange(end - HASH_SIZE * m, end as int) == chain_tail(seed@, m as nat),
        decreases HASH_COUNT - m,
    {
        let pos = end - HASH_SIZE * m;
        let ghost tail = chain_tail(seed@, m as nat);
        let link = if HASH_SIZE * m < HASH_CAP {
            let h = shabal256_parts(&no_head, cache, pos, end, seed);
            assert(no_head@ + cache@.subrange(pos as int, end as int) + seed@ =~= link_input(seed@, tail));
            assert(h@ =~= digest(link_input(seed@, tail)));
            h
        } else {
            let h = shabal256_parts(&no_head, cache, pos, pos + HASH_CAP, &no_tail);
            assert(no_head@ + cache@.subrange(pos as int, pos + HASH_CAP) + no_tail@ =~= link_input(seed@, tail));
            assert(h@ =~= digest(link_input(seed@, tail)));
            h
        };
        let ghost before = cache@;
        write_link(cache, pos - HASH_SIZE, &link);
        assert(cache@.subrange(0, base as int) =~= before.subrange(0, base as int));
        assert(cache@.subrange(end as int, len as int) =~= before.subrange(end as int, len as int));
        assert(cache@.subrange(end - HASH_SIZE * (m + 1), end as int) =~= link@ + tail);
        m = m + 1;
    }
    assert(cache@ =~= old(cache)@.subrange(0, base as int) + chain_of(seed@)
        + old(cache)@.subrange(base + NONCE_SIZE, old(cache)@.len() as int));
}

/// XORs every byte `base + i` of the nonce at `base` with `mask[i % 32]`.
fn apply_mask(cache: &mut [u8], base: usize, mask: &[u8; 32])
    requires
        base + NONCE_SIZE <= old(cache)@.len(),
    ensures
        final(cache)@ == old(cache)@.subrange(0, base as int)
            + masked(old(cache)@.subrange(base as int, base + NONCE_SIZE), mask@)
            + old(cache)@.subrange(base + NONCE_SIZE, old(cache)@.len() as int),
{
    let len = cache.len();
    let mut i: usize = 0;
    while i < NONCE_SIZE
        invariant
            len == cache@.len() == old(cache)@.len(),
            base + NONCE_SIZE <= len,
            i <= NONCE_SIZE,
            forall|k: int| 0 <= k < len ==> #[trigger] cache@[k] == if base <= k < base + i {
                old(cache)@[k] ^ mask@[(k - base) % (HASH_SIZE as int)]
            } else {
                old(cache)@[k]
            },
        decreases NONCE_SIZE - i,
    {
        cache[base + i] = cache[base + i] ^ mask[i % HASH_SIZE];
        i = i + 1;
    }
    assert(cache@ =~= old(cache)@.subrange(0, base as int)
        + masked(old(cache)@.subrange(base as int, base + NONCE_SIZE), mask@)
        + old(cache)@.subrange(base + NONCE_SIZE, old(cache)@.len() as int));
}

/// Trades the 32 bytes at `p` with the 32 bytes at `q`.
fn swap_links(buf: &mut [u8], p: usize, q: usize)
    requires
        p + HASH_SIZE <= q,
        q + HASH_SIZE <= old(buf)@.len(),
    ensures
        final(buf)@.len() == old(buf)@.len(),
        forall|k: int| 0 <= k < old(buf)@.len() ==> #[trigger] final(buf)@[k] == if p <= k < p + HASH_SIZE {
            old(buf)@[k - p + q]
        } else if q <= k < q + HASH_SIZE {
            old(buf)@[k - q + p]
        } else {
            old(buf)@[k]
        },
{
    let len = buf.len();
    let mut j: usize = 0;
    while j < HASH_SIZE
        invariant
            len == buf@.len() == old(buf)@.len(),
            p + HASH_SIZE <= q,
            q + HASH_SIZE <= len,
            j <= HASH_SIZE,
            forall|k: int| 0 <= k < len ==> #[trigger] buf@[k] == if p <= k < p + j {
                old(buf)@[k - p + q]
            } else if q <= k < q + j {
                old(buf)@[k - q + p]
            } else {
                old(buf)@[k]
            },
        decreases HASH_SIZE - j,
    {
        let t = buf[p + j];
        buf[p + j] = buf[q + j];
        buf[q + j] = t;
        j = j + 1;
    }
}

/// The link that byte `b` lies in, and its place in it.
proof fn lemma_link_of(b: int, c: int)
    requires
        HASH_SIZE * c <= b < HASH_SIZE * c + HASH_SIZE,
    ensures
        b / (HASH_SIZE as int) == c,
        b % (HASH_SIZE as int) == b - HASH_SIZE * c,
{
    assert(b / 32 == c && b % 32 == b - 32 * c) by (nonlinear_arith)
        requires
            32 * c <= b < 32 * c + 32,
    ;
}

/// Where byte `b` of a nonce comes from once the first `t` of the PoC2 swaps are done.
pub open spec fn poc2_source_after(b: int, t: int) -> int {
    let c = b / (HASH_SIZE as int);
    if c % 2 == 1 && (c < 2 * t || c > HASH_COUNT - 1 - 2 * t) {
        poc2_source(b)
    } else {
        b
    }
}

/// Applies the PoC2 interleave to the nonce at `cache[base..base + NONCE_SIZE]`:
/// a forward position from byte 32 and a backward one from `NONCE_SIZE - 32`,
/// both moving 64 bytes a step, trade 32 bytes until the forward one reaches
/// the middle.
pub(crate) fn shuffle_at(cache: &mut [u8], base: usize)
    requires
        base + NONCE_SIZE <= old(cache)@.len(),
    ensures
        final(cache)@ == old(cache)@.subrange(0, base as int)
            + poc2_shuffled(old(cache)@.subrange(base as int, base + NONCE_SIZE))
            + old(cache)@.subrange(base + NONCE_SIZE, old(cache)@.len() as int),
{
    let len = cache.len();
    let mut pos: usize = HASH_SIZE;
    let mut rev_pos: usize = NONCE_SIZE - HASH_SIZE;
    let ghost mut t: int = 0;
    while pos < NONCE_SIZE / 2
        invariant
            len == cache@.len() == old(cache)@.len(),
            base + NONCE_SIZE <= len,
            0 <= t <= HASH_COUNT / 4,
            pos == 32 + 64 * t,
            rev_pos == NONCE_SIZE - 32 - 64 * t,
            forall|k: int| 0 <= k < len ==> #[trigger] cache@[k] == if base <= k < base + NONCE_SIZE {
                old(cache)@[base + poc2_source_after(k - base, t)]
            } else {
                old(cache)@[k]
            },
        decreases NONCE_SIZE - pos,
    {
        swap_links(cache, base + pos, base + rev_pos);
        assert forall|k: int| 0 <= k < len implies #[trigger] cache@[k] == if base <= k < base + NONCE_SIZE {
            old(cache)@[base + poc2_source_after(k - base, t + 1)]
        } else {
            old(cache)@[k]
        } by {
            let b = k - base;
            if base + pos <= k < base + pos + HASH_SIZE {
                lemma_link_of(b, 2 * t + 1);
                lemma_link_of(k - pos + rev_pos - base, HASH_COUNT - 1 - 2 * t);
            } else if base + rev_pos <= k < base + rev_pos + HASH_SIZE {
                lemma_link_of(b, HASH_COUNT - 1 - 2 * t);
                lemma_link_of(k - rev_pos + pos - base, 2 * t + 1);
            } else if base <= k < base + NONCE_SIZE {
                lemma_link_of(b, b / 32);
            }
        }
        pos = pos + 2 * HASH_SIZE;
        rev_pos = rev_pos - 2 * HASH_SIZE;
        proof {
            t = t + 1;
        }
    }
    assert(cache@ =~= old(cache)@.subrange(0, base as int)
        + poc2_shuffled(old(cache)@.subrange(base as int, base + NONCE_SIZE))
        + old(cache)@.subrange(base + NONCE_SIZE, old(cache)@.len() as int));
}

/// Writes nonce `nonce` of `account_id`, in format `poc_version`, over
/// `cache[base..base + NONCE_SIZE]`.
fn write_nonce(cache: &mut [u8], base: usize, account_id: u64, nonce: u64, poc_version: u8)
    requires
        base + NONCE_SIZE <= old(cache)@.len(),
        valid_poc_version(poc_version),
    ensures
        final(cache)@ == old(cache)@.subrange(0, base as int) + nonce_bytes(account_id, nonce, poc_version)
            + old(cache)@.subrange(base + NONCE_SIZE, old(cache)@.len() as int),
{
    let len = cache.len();
    let ghost end = base + NONCE_SIZE;
    let seed = seed_bytes(account_id, nonce);
    proof {
        lemma_chain_tail_len(seed@, HASH_COUNT as nat);
    }
    write_chain(cache, base, &seed);
    let ghost chain = chain_of(seed@);
    assert(cache@.subrange(base as int, end) =~= chain);
    let no_head: [u8; 0] = [];
    let mask = shabal256_parts(&no_head, cache, base, base + NONCE_SIZE, &seed);
    assert(no_head@ + chain + seed@ =~= chain + seed@);
    assert(mask@ =~= digest(chain + seed@));
    apply_mask(cache, base, &mask);
    assert(cache@.subrange(0, base as int) =~= old(cache)@.subrange(0, base as int));
    assert(cache@.subrange(end, len as int) =~= old(cache)@.subrange(end, len as int));
    assert(cache@.subrange(base as int, end) =~= poc1_nonce(seed@));
    if poc_version == 2 {
        shuffle_at(cache, base);
        assert(cache@.subrange(0, base as int) =~= old(cache)@.subrange(0, base as int));
        assert(cache@.subrange(end, len as int) =~= old(cache)@.subrange(end, len as int));
        assert(cache@.subrange(base as int, end) =~= poc2_shuffled(poc1_nonce(seed@)));
    }
    assert(cache@ =~= old(cache)@.subrange(0, base as int) + nonce_bytes(account_id, nonce, poc_version)
        + old(cache)@.subrange(base + NONCE_SIZE, old(cache)@.len() as int));
}

/// Writes `count` nonces of `account_id`, numbered from `start`, one after the
/// other from `offset` on.
pub(crate) fn write_nonces(cache: &mut [u8], offset: usize, account_id: u64, start: u64, count: u64, poc_version: u8)
    requires
        offset + count * NONCE_SIZE <= old(cache)@.len(),
        start + count <= u64::MAX + 1,
        valid_poc_version(poc_version),
    ensures
        final(cache)@ == old(cache)@.subrange(0, offset as int)
            + nonces_bytes(account_id, start, count as nat, poc_version)
            + old(cache)@.subrange(offset + count * NONCE_SIZE, old(cache)@.len() as int),
{
    let len = cache.len();
    let mut n: u64 = 0;
    let mut base: usize = offset;
    while n < count
        invariant
            len == cache@.len() == old(cache)@.len(),
            offset + count * NONCE_SIZE <= len,
            start + count <= u64::MAX + 1,
            valid_poc_version(poc_version),
            n <= count,
            base == offset + n * NONCE_SIZE,
            base <= len,
            cache@ == old(cache)@.subrange(0, offset as int)
                + nonces_bytes(account_id, start, n as nat, poc_version)
                + old(cache)@.subrange(base as int, len as int),
        decreases count - n,
    {
        assert(base + NONCE_SIZE <= len) by (nonlinear_arith)
            requires
                base == offset + n * NONCE_SIZE,
                n < count,
                offset + count * NONCE_SIZE <= len,
        ;
        proof {
            lemma_nonce_len(account_id, (start + n) as u64, poc_version);
        }
        write_nonce(cache, base, account_id, start + n, poc_version);
        assert(nonces_bytes(account_id, start, (n + 1) as nat, poc_version)
            == nonces_bytes(account_id, start, n as nat, poc_version) + nonce_bytes(account_id, (start + n) as u64, poc_version));
        assert(nonces_bytes(account_id, start, n as nat, poc_version).len() == n * NONCE_SIZE) by {
            lemma_nonces_len(account_id, start, n as nat, poc_version);
        }
        assert(cache@ =~= old(cache)@.subrange(0, offset as int)
            + nonces_bytes(account_id, start, (n + 1) as nat, poc_version)
            + old(cache)@.subrange(base + NONCE_SIZE, len as int));
        assert(base + NONCE_SIZE == offset + (n + 1) * NONCE_SIZE) by (nonlinear_arith)
            requires
                base == offset + n * NONCE_SIZE,
        ;
        base = base + NONCE_SIZE;
        n = n + 1;
    }
}

/// Writes `local_nonces` nonces of `numeric_id`, numbered from
/// `local_startnonce`, from the start of `cache` on.
pub fn noncegen_rust(cache: &mut [u8], numeric_id: u64, local_startnonce: u64, local_nonces: u64, poc_version: u8)
    requires
        local_nonces * NONCE_SIZE <= old(cache)@.len(),
        local_startnonce + local_nonces <= u64::MAX + 1,
        valid_poc_version(poc_version),
    ensures
        final(cache)@ == nonces_bytes(numeric_id, local_startnonce, local_nonces as nat, poc_version)
            + old(cache)@.subrange(local_nonces * NONCE_SIZE, old(cache)@.len() as int),
{
    write_nonces(cache, 0, numeric_id, local_startnonce, local_nonces, poc_version);
    assert(old(cache)@.subrange(0, 0) + nonces_bytes(numeric_id, local_startnonce, local_nonces as nat, poc_version)
        =~= nonces_bytes(numeric_id, local_startnonce, local_nonces as nat, poc_version));
}

/// Writes nonce `nonce` of `numeric_id` over the first `NONCE_SIZE` bytes of `cache`.
pub fn noncegen_single_rust(cache: &mut [u8], numeric_id: u64, nonce: u64, poc_version: u8)
    requires
        NONCE_SIZE <= old(cache)@.len(),
        valid_poc_version(poc_version),
    ensures
        final(cache)@ == nonce_bytes(numeric_id, nonce, poc_version)
            + old(cache)@.subrange(NONCE_SIZE as int, old(cache)@.len() as int),
{
    write_nonce(cache, 0, numeric_id, nonce, poc_version);
    assert(old(cache)@.subrange(0, 0) + nonce_bytes(numeric_id, nonce, poc_version)
        =~= nonce_bytes(numeric_id, nonce, poc_version));
}

/// Applies the PoC2 interleave to the nonce at the start of `nonce`, in place.
pub fn poc2_shuffle(nonce: &mut [u8])
    requires
        NONCE_SIZE <= old(nonce)@.len(),
    ensures
        final(nonce)@ == poc2_shuffled(old(nonce)@.subrange(0, NONCE_SIZE as int))
            + old(nonce)@.subrange(NONCE_SIZE as int, old(nonce)@.len() as int),
{
    shuffle_at(nonce, 0);
    assert(old(nonce)@.subrange(0, 0) + poc2_shuffled(old(nonce)@.subrange(0, NONCE_SIZE as int))
        =~= poc2_shuffled(old(nonce)@.subrange(0, NONCE_SIZE as int)));
}

/// The PoC2 nonce is the PoC1 nonce with the interleave applied once.
pub proof fn lemma_poc2_is_interleaved_poc1(account_id: u64, nonce: u64)
    ensures
        nonce_bytes(account_id, nonce, 2) == poc2_shuffled(nonce_bytes(account_id, nonce, 1)),
{
}

/// Applying the PoC2 interleave twice gives back the nonce it started from.
pub proof fn lemma_poc2_shuffle_involution(data: Seq<u8>)
    requires
        data.len() == NONCE_SIZE,
    ensures
        poc2_shuffled(poc2_shuffled(data)) == data,
{
    assert forall|b: int| 0 <= b < data.len() implies #[trigger] poc2_shuffled(poc2_shuffled(data))[b] == data[b] by {
        let c = b / 32;
        lemma_link_of(b, c);
        if c % 2 == 1 {
            let s = poc2_source(b);
            lemma_link_of(s, HASH_COUNT - c);
            assert(0 <= s < data.len());
        }
    }
    assert(poc2_shuffled(poc2_shuffled(data)) =~= data);
}

} // verus!
