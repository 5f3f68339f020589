//! A resettable Shabal-256 hasher: feed bytes, take the 32-byte digest.
use vstd::prelude::*;
use crate::hash::{digest, shabal256_parts};

verus! {

/// A Shabal-256 hasher. It keeps the bytes fed since the last reset, and
/// digests them in one pass when asked.
pub struct ShabalState {
    absorbed: Vec<u8>,
}

impl ShabalState {
    /// The bytes fed since the last reset.
    pub closed spec fn absorbed(&self) -> Seq<u8> {
        self.absorbed@
    }
}

/// A hasher that has been fed nothing.
pub fn shabal256_new() -> (r: ShabalState)
    ensures
        r.absorbed() == Seq::<u8>::empty(),
{
    ShabalState { absorbed: Vec::new() }
}

/// Drops a hasher and what it was fed.
pub fn shabal256_destroy(shabal: ShabalState) {
}

/// Forgets what the hasher was fed.
pub fn shabal256_reset(shabal: &mut ShabalState)
    ensures
        final(shabal).absorbed() == Seq::<u8>::empty(),
{
    shabal.absorbed.clear();
}

/// Feeds `data[offset..offset + len]` to the hasher.
pub fn shabal256_update(shabal: &mut ShabalState, data: &[u8], offset: usize, len: usize)
    requires
        offset + len <= data@.len(),
    ensures
        final(shabal).absorbed() == old(shabal).absorbed() + data@.subrange(offset as int, offset + len),
{
    let n = data.len();
    let mut i: usize = 0;
    while i < len
        invariant
            n == data@.len(),
            offset + len <= data@.len(),
            i <= len,
            shabal.absorbed@ == old(shabal).absorbed@ + data@.subrange(offset as int, offset + i),
        decreases len - i,
    {
        shabal.absorbed.push(data[offset + i]);
        assert(data@.subrange(offset as int, offset + i + 1)
            =~= data@.subrange(offset as int, offset + i).push(data@[offset + i]));
        i = i + 1;
    }
}

/// Writes the digest of what the hasher was fed at `buffer[offset..offset + 32]`,
/// then resets the hasher.
pub fn shabal256_digest(shabal: &mut ShabalState, buffer: &mut [u8], offset: usize)
    requires
        offset + 32 <= old(buffer)@.len(),
    ensures
        final(buffer)@ == old(buffer)@.subrange(0, offset as int) + digest(old(shabal).absorbed())
            + old(buffer)@.subrange(offset + 32, old(buffer)@.len() as int),
        final(shabal).absorbed() == Seq::<u8>::empty(),
{
    let none: [u8; 0] = [];
    let n = shabal.absorbed.len();
    let hash = shabal256_parts(&none, shabal.absorbed.as_slice(), 0, n, &none);
    assert(none@ + shabal.absorbed@.subrange(0, n as int) + none@ =~= shabal.absorbed@);
    assert(hash@ =~= digest(shabal.absorbed@));
    let len = buffer.len();
    let mut j: usize = 0;
    while j < 32
        invariant
            len == buffer@.len() == old(buffer)@.len(),
            offset + 32 <= len,
            j <= 32,
            forall|k: int| 0 <= k < len ==> #[trigger] buffer@[k] == if offset <= k < offset + j {
                hash@[k - offset]
            } else {
                old(buffer)@[k]
            },
        decreases 32 - j,
    {
        buffer[offset + j] = hash[j];
        j = j + 1;
    }
    assert(buffer@ =~= old(buffer)@.subrange(0, offset as int) + digest(old(shabal).absorbed())
        + old(buffer)@.subrange(offset + 32, old(buffer)@.len() as int));
    shabal.absorbed.clear();
}

} // verus!
