//! Content keys: a digest of a file's sample paired with the file's size.
use vstd::prelude::*;

verus! {

/// The MD5 digest of `bytes`, its sixteen bytes read as a big-endian integer.
pub uninterp spec fn md5_of(bytes: Seq<u8>) -> u128;

/// Relies on `md5::compute`: the digest depends on the bytes alone.
#[verifier::external_body]
fn md5_digest(bytes: &Vec<u8>) -> (r: u128)
    ensures
        r == md5_of(bytes@),
{
    u128::from_be_bytes(md5::compute(bytes.as_slice()).0)
}

/// What two files must share to be reported as duplicates.
///
/// Both fields are needed: files of different sizes may have samples with
/// the same digest.
#[derive(Clone, Copy, Debug, PartialEq, Eq, Structural)]
pub struct ContentKey {
    pub digest: u128,
    pub size: u64,
}

/// The content key of a file of `size` bytes whose sample is `sample`.
pub fn content_key(size: u64, sample: &Vec<u8>) -> (r: ContentKey)
    ensures
        r == (ContentKey { digest: md5_of(sample@), size }),
{
    ContentKey { digest: md5_digest(sample), size }
}

} // verus!
