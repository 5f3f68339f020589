//! The Shabal-256 digest, as the rest of the library sees it.
use vstd::prelude::*;

verus! {

/// The Shabal-256 digest of a byte string (32 bytes).
pub uninterp spec fn shabal256_of(msg: Seq<u8>) -> Seq<u8>;

/// The Shabal-256 digest of `msg`, as exactly 32 bytes.
pub open spec fn digest(msg: Seq<u8>) -> Seq<u8> {
    Seq::new(32, |i: int| shabal256_of(msg)[i])
}

/// Relies on `shabal::Shabal256` with `digest::Digest::{new, update, finalize}`:
/// the digest of `head`, then `data[start..end]`, then `tail`, as one message.
#[verifier::external_body]
pub(crate) fn shabal256_parts(head: &[u8], data: &[u8], start: usize, end: usize, tail: &[u8]) -> (r: [u8; 32])
    requires
        start <= end <= data@.len(),
    ensures
        r@ == shabal256_of(head@ + data@.subrange(start as int, end as int) + tail@),
{
    let mut hasher = <shabal::Shabal256 as shabal::Digest>::new();
    shabal::Digest::update(&mut hasher, head);
    shabal::Digest::update(&mut hasher, &data[start..end]);
    shabal::Digest::update(&mut hasher, tail);
    shabal::Digest::finalize(hasher).into()
}

} // verus!
