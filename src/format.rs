//! The archive frame: leading magic, chunks, index segment, index length,
//! trailing magic.
use crate::codec::{decode_index, parse_index, u64_enc};
use crate::error::ArchiveError;
use crate::index::{Index, MAGIC};
use vstd::bytes::{spec_u64_from_le_bytes, u64_from_le_bytes, u64_to_le_bytes, lemma_auto_spec_u64_to_from_le_bytes};
use vstd::prelude::*;
use vstd::slice::slice_subrange;

verus! {

/// Offset of the first chunk, right after the leading magic.
pub const FIRST_CHUNK: u64 = 8;

/// The bytes of an archive whose chunks are `chunks` and whose encrypted
/// index is `seg`.
pub open spec fn archive_bytes(chunks: Seq<u8>, seg: Seq<u8>) -> Seq<u8> {
    u64_enc(MAGIC) + chunks + seg + u64_enc(seg.len() as u64) + u64_enc(MAGIC)
}

/// Where the index segment lies in an archive of `total` bytes whose last
/// 16 bytes are `tail`: start and length.
pub open spec fn locate(total: nat, tail: Seq<u8>) -> Result<(u64, u64), ArchiveError> {
    if total < 24 || tail.len() != 16 || tail.subrange(8, 16) != u64_enc(MAGIC) {
        Err(ArchiveError::Format)
    } else {
        let n = spec_u64_from_le_bytes(tail.subrange(0, 8));
        if n > total - 24 {
            Err(ArchiveError::Format)
        } else {
            Ok(((total - 16 - n) as u64, n))
        }
    }
}

/// The leading magic.
pub fn header() -> (r: Vec<u8>)
    ensures
        r@ == u64_enc(MAGIC),
{
    u64_to_le_bytes(MAGIC)
}

/// The trailer for an index segment of `index_len` bytes.
pub fn trailer(index_len: u64) -> (r: Vec<u8>)
    ensures
        r@ == u64_enc(index_len) + u64_enc(MAGIC),
{
    let mut r = u64_to_le_bytes(index_len);
    let m = u64_to_le_bytes(MAGIC);
    let mut i: usize = 0;
    while i < m.len()
        invariant
            m@ == u64_enc(MAGIC),
            m@.len() == 8,
            0 <= i <= m.len(),
            r@ == u64_enc(index_len) + m@.take(i as int),
        decreases m.len() - i,
    {
        r.push(m[i]);
        assert(m@.take(i + 1) == m@.take(i as int).push(m@[i as int]));
        i = i + 1;
    }
    assert(m@.take(8) == m@);
    r
}

/// Where the index segment lies, from the archive's length and its last 16
/// bytes; refused as malformed when the trailing magic is absent or the
/// segment would reach into the leading magic.
pub fn locate_index(total: u64, tail: &[u8]) -> (r: Result<(u64, u64), ArchiveError>)
    ensures
        r == locate(total as nat, tail@),
{
    proof {
        lemma_auto_spec_u64_to_from_le_bytes();
    }
    if total < 24 || tail.len() != 16 {
        return Err(ArchiveError::Format);
    }
    let m = u64_from_le_bytes(slice_subrange(tail, 8, 16));
    if m != MAGIC {
        assert(tail@.subrange(8, 16) != u64_enc(MAGIC));
        return Err(ArchiveError::Format);
    }
    let n = u64_from_le_bytes(slice_subrange(tail, 0, 8));
    if n > total - 24 {
        return Err(ArchiveError::Format);
    }
    Ok((total - 16 - n, n))
}

/// The index that a decrypted index segment holds; refused as malformed
/// when its magic number is not the archive's.
pub fn index_from_record(bytes: &[u8]) -> (r: Result<Index, ArchiveError>)
    ensures
        match parse_index(bytes@) {
            Ok(v) => if v.magic_number == MAGIC {
                r is Ok && r->Ok_0@ == v
            } else {
                r == Err::<Index, ArchiveError>(ArchiveError::Format)
            },
            Err(e) => r == Err::<Index, ArchiveError>(e),
        },
{
    let index = decode_index(bytes)?;
    if index.magic_number != MAGIC {
        return Err(ArchiveError::Format);
    }
    Ok(index)
}

/// Reading the trailer of an archive finds exactly its index segment.
pub proof fn lemma_trailer_finds_index(chunks: Seq<u8>, seg: Seq<u8>)
    requires
        archive_bytes(chunks, seg).len() <= u64::MAX,
    ensures
        ({
            let a = archive_bytes(chunks, seg);
            locate(a.len(), a.subrange(a.len() - 16, a.len() as int)) == Ok::<(u64, u64), ArchiveError>(
                ((8 + chunks.len()) as u64, seg.len() as u64),
            )
        }),
{
    lemma_auto_spec_u64_to_from_le_bytes();
    let a = archive_bytes(chunks, seg);
    let tail = a.subrange(a.len() - 16, a.len() as int);
    assert(tail =~= u64_enc(seg.len() as u64) + u64_enc(MAGIC));
    assert(tail.subrange(8, 16) =~= u64_enc(MAGIC));
    assert(tail.subrange(0, 8) =~= u64_enc(seg.len() as u64));
}

/// An archive cut short by one byte no longer shows its trailing magic.
pub proof fn lemma_truncated_archive_refused(chunks: Seq<u8>, seg: Seq<u8>)
    requires
        archive_bytes(chunks, seg).len() <= u64::MAX,
    ensures
        ({
            let a = archive_bytes(chunks, seg).drop_last();
            locate(a.len(), a.subrange(a.len() - 16, a.len() as int)) == Err::<(u64, u64), ArchiveError>(
                ArchiveError::Format,
            )
        }),
{
    lemma_auto_spec_u64_to_from_le_bytes();
    let full = archive_bytes(chunks, seg);
    assert(full.len() == 24 + chunks.len() + seg.len());
    let a = full.drop_last();
    let tail = a.subrange(a.len() - 16, a.len() as int);
    let m = u64_enc(MAGIC);
    vstd::bytes::spec_u64_to_le_bytes_to_open(MAGIC);
    assert(((0xA9A98D26AA1F3FDDu64 >> 48u64) & 0xffu64) == 0xA9u64) by (bit_vector);
    assert(((0xA9A98D26AA1F3FDDu64 >> 40u64) & 0xffu64) == 0x8Du64) by (bit_vector);
    assert(m[6] == 0xA9u8 && m[5] == 0x8Du8);
    assert(full.subrange(full.len() - 8, full.len() as int) =~= m);
    assert(tail[14] == full[full.len() - 3]);
    assert(full[full.len() - 3] == m[5]);
    assert(tail.subrange(8, 16)[6] == tail[14]);
}

} // verus!

verus! {

/// An archive whose last eight bytes are not the magic is refused as
/// malformed, whatever else it holds.
pub proof fn lemma_bad_trailing_magic_refused(total: nat, tail: Seq<u8>)
    requires
        tail.len() == 16,
        tail.subrange(8, 16) != u64_enc(MAGIC),
    ensures
        locate(total, tail) == Err::<(u64, u64), ArchiveError>(ArchiveError::Format),
{
}

} // verus!
