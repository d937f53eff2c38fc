//! Fingerprinting of submission contents.
use crate::aggregate::Submissions;
use lzjd::murmur3::Murmur3BuildHasher;
use lzjd::LZDict;
use vstd::prelude::*;

verus! {

/// The two interchangeable fingerprint algorithms: a block-hash fuzzy hash for
/// text and source code, and a locality-sensitive dictionary fingerprint for
/// binary documents.
#[derive(Clone, Copy, Debug, PartialEq, Eq, Structural)]
pub enum Algorithm {
    Ssdeep,
    Lzjd,
}

/// The base64 text of the LZJD dictionary of `b`.
pub uninterp spec fn lzjd_digest_of(b: Seq<u8>) -> Seq<char>;

/// Relies on `lzjd::LZDict::from_bytes_stream`, hashing with the crate's
/// murmur3 hasher (fixed seed), and on `LZDict::to_string` for its base64 text:
/// the digest depends on the bytes alone.
#[verifier::external_body]
fn lzjd_digest(b: &[u8]) -> (r: String)
    ensures
        r@ == lzjd_digest_of(b@),
{
    LZDict::from_bytes_stream(b.iter().copied(), &Murmur3BuildHasher).to_string()
}

/// The LZJD fingerprint of each submission, in the order of the submissions.
pub fn lzjd_fingerprints(subs: &Submissions) -> (r: Vec<String>)
    ensures
        r@.len() == subs@.len(),
        forall|i: int| 0 <= i < r@.len() ==> (#[trigger] r@[i])@ == lzjd_digest_of(subs@[i].1),
{
    let mut out: Vec<String> = Vec::new();
    let mut i: usize = 0;
    while i < subs.len()
        invariant
            i <= subs@.len(),
            out@.len() == i,
            forall|k: int| 0 <= k < i ==> (#[trigger] out@[k])@ == lzjd_digest_of(subs@[k].1),
        decreases subs@.len() - i,
    {
        let s = subs.get(i);
        let d = lzjd_digest(s.content.as_slice());
        out.push(d);
        i = i + 1;
    }
    out
}

} // verus!
