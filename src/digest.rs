//! Content digests: 32 bytes of a cryptographic hash of a file's raw bytes.
use crate::error::ArchiveError;
use crate::index::{Index, lookup};
use vstd::prelude::*;

verus! {

/// The 32-byte BLAKE3 digest of `b`.
pub uninterp spec fn blake3_of(b: Seq<u8>) -> Seq<u8>;

/// Relies on `blake3::hash`: the digest depends on the bytes alone.
#[verifier::external_body]
pub(crate) fn digest_of(b: &[u8]) -> (r: [u8; 32])
    ensures
        r@ == blake3_of(b@),
{
    *blake3::hash(b).as_bytes()
}

/// Whether two digests are equal, byte for byte.
pub fn digests_equal(a: &[u8; 32], b: &[u8; 32]) -> (r: bool)
    ensures
        r == (*a == *b),
{
    let mut i: usize = 0;
    while i < 32
        invariant
            0 <= i <= 32,
            forall|j: int| 0 <= j < i ==> a@[j] == b@[j],
        decreases 32 - i,
    {
        if a[i] != b[i] {
            assert(a@[i as int] != b@[i as int]);
            return false;
        }
        i = i + 1;
    }
    assert(*a =~= *b);
    true
}

/// Checks a computed digest against the one stored: an integrity error
/// where they differ.
pub fn check_digest(stored: &[u8; 32], computed: &[u8; 32]) -> (r: Result<(), ArchiveError>)
    ensures
        r == if *stored == *computed {
            Ok::<(), ArchiveError>(())
        } else {
            Err(ArchiveError::Integrity)
        },
{
    if digests_equal(stored, computed) {
        Ok(())
    } else {
        Err(ArchiveError::Integrity)
    }
}

/// Checks content read back for file `path` against its stored digest:
/// not found for a path that is not a file, malformed for a chunk without
/// a digest, an integrity error where the content digests otherwise.
pub fn verify_content(index: &Index, path: &str, content: &[u8]) -> (r: Result<(), ArchiveError>)
    ensures
        match lookup(index@.mapping, path@) {
            None => r == Err::<(), ArchiveError>(ArchiveError::NotFound),
            Some(c) => match index@.digest_at(c.0) {
                None => r == Err::<(), ArchiveError>(ArchiveError::Format),
                Some(h) => r == if h@ == blake3_of(content@) {
                    Ok::<(), ArchiveError>(())
                } else {
                    Err(ArchiveError::Integrity)
                },
            },
        },
{
    let (_, _, stored) = index.index_length_and_hash(path)?;
    let computed = digest_of(content);
    let r = check_digest(&stored, &computed);
    proof {
        if stored@ == computed@ {
            assert(stored =~= computed);
        }
    }
    r
}

/// Whether a restore may leave a file on disk alone: only where hashes are
/// trusted and the file there digests to the stored digest.
pub fn may_skip_restore(trust_hashes: bool, stored: &[u8; 32], on_disk: Option<[u8; 32]>) -> (r: bool)
    ensures
        r == (trust_hashes && on_disk is Some && on_disk->0 == *stored),
{
    if !trust_hashes {
        return false;
    }
    match on_disk {
        Some(d) => digests_equal(&d, stored),
        None => false,
    }
}

} // verus!
