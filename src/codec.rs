//! The length-prefixed little-endian encoding of the index record.
//!
//! `u64`: 8 bytes, little-endian. Digest: its 32 bytes. String: its UTF-8
//! byte length as `u64`, then the bytes. Sequence: its count as `u64`, then
//! each item. Pair: both halves in order. The index: chunk references of the
//! digests, digests, sizes, chunk references of the mapping, paths of the
//! mapping, empty directories, magic number.
use crate::error::ArchiveError;
use crate::index::{ChunkRef, Index, IndexView, paths_view, entries_view, lookup, lookup_offset};
use vstd::bytes::{spec_u64_to_le_bytes, spec_u64_from_le_bytes, u64_from_le_bytes, u64_to_le_bytes, lemma_auto_spec_u64_to_from_le_bytes};
use vstd::prelude::*;
use vstd::slice::slice_subrange;
use vstd::utf8::{encode_utf8, decode_utf8, valid_utf8, encode_utf8_valid_utf8, encode_utf8_decode_utf8};

verus! {

pub open spec fn u64_enc(x: u64) -> Seq<u8> {
    spec_u64_to_le_bytes(x)
}

pub open spec fn pair_enc(p: (u64, u64)) -> Seq<u8> {
    u64_enc(p.0) + u64_enc(p.1)
}

pub open spec fn digest_enc(d: [u8; 32]) -> Seq<u8> {
    d@
}

pub open spec fn str_enc(s: Seq<char>) -> Seq<u8> {
    u64_enc(encode_utf8(s).len() as u64) + encode_utf8(s)
}

/// The items of `xs`, each encoded by `f`, one after another.
pub open spec fn items_enc<T>(xs: Seq<T>, f: spec_fn(T) -> Seq<u8>) -> Seq<u8>
    decreases xs.len(),
{
    if xs.len() == 0 {
        Seq::empty()
    } else {
        items_enc(xs.drop_last(), f) + f(xs.last())
    }
}

pub open spec fn seq_enc<T>(xs: Seq<T>, f: spec_fn(T) -> Seq<u8>) -> Seq<u8> {
    u64_enc(xs.len() as u64) + items_enc(xs, f)
}

pub open spec fn pair_e() -> spec_fn((u64, u64)) -> Seq<u8> {
    |p: (u64, u64)| pair_enc(p)
}

pub open spec fn digest_e() -> spec_fn([u8; 32]) -> Seq<u8> {
    |d: [u8; 32]| digest_enc(d)
}

pub open spec fn u64_e() -> spec_fn(u64) -> Seq<u8> {
    |x: u64| u64_enc(x)
}

pub open spec fn str_e() -> spec_fn(Seq<char>) -> Seq<u8> {
    |s: Seq<char>| str_enc(s)
}

/// Every digest's chunk has a size.
pub open spec fn sizes_known(v: IndexView) -> bool {
    forall|i: int| 0 <= i < v.hashes.len() ==> lookup(v.sizes, (#[trigger] v.hashes[i]).0.0) is Some
}

/// The sizes of the digests' chunks, in the order of the digests.
pub open spec fn digest_sizes(v: IndexView) -> Seq<u64> {
    Seq::new(v.hashes.len(), |i: int| lookup(v.sizes, v.hashes[i].0.0)->0)
}

/// `v` with its sizes listed once per digest, in the order of the digests,
/// as its record holds them.
pub open spec fn with_aligned_sizes(v: IndexView) -> IndexView {
    IndexView {
        sizes: Seq::new(v.hashes.len(), |i: int| (v.hashes[i].0.0, lookup(v.sizes, v.hashes[i].0.0)->0)),
        ..v
    }
}

/// The sizes are listed in the order of the digests, one per digest.
pub open spec fn sizes_parallel(v: IndexView) -> bool {
    &&& v.sizes.len() == v.hashes.len()
    &&& forall|i: int| 0 <= i < v.sizes.len() ==> #[trigger] v.sizes[i].0 == v.hashes[i].0.0
}

pub open spec fn chunk_keys(h: Seq<(ChunkRef, [u8; 32])>) -> Seq<ChunkRef> {
    h.map_values(|e: (ChunkRef, [u8; 32])| e.0)
}

pub open spec fn digests_of(h: Seq<(ChunkRef, [u8; 32])>) -> Seq<[u8; 32]> {
    h.map_values(|e: (ChunkRef, [u8; 32])| e.1)
}

pub open spec fn chunk_refs(m: Seq<(Seq<char>, ChunkRef)>) -> Seq<ChunkRef> {
    m.map_values(|e: (Seq<char>, ChunkRef)| e.1)
}

pub open spec fn path_keys(m: Seq<(Seq<char>, ChunkRef)>) -> Seq<Seq<char>> {
    m.map_values(|e: (Seq<char>, ChunkRef)| e.0)
}

/// The encoding of index `v`.
pub open spec fn index_enc(v: IndexView) -> Seq<u8> {
    seq_enc(chunk_keys(v.hashes), pair_e())
        + seq_enc(digests_of(v.hashes), digest_e())
        + seq_enc(digest_sizes(v), u64_e())
        + seq_enc(chunk_refs(v.mapping), pair_e())
        + seq_enc(path_keys(v.mapping), str_e())
        + seq_enc(v.empty_dirs, str_e())
        + u64_enc(v.magic_number)
}

pub open spec fn parse_u64(b: Seq<u8>, p: int) -> Option<(u64, int)> {
    if 0 <= p && p + 8 <= b.len() {
        Some((spec_u64_from_le_bytes(b.subrange(p, p + 8)), p + 8))
    } else {
        None
    }
}

pub open spec fn parse_pair(b: Seq<u8>, p: int) -> Option<((u64, u64), int)> {
    match parse_u64(b, p) {
        Some((x, q)) => match parse_u64(b, q) {
            Some((y, r)) => Some(((x, y), r)),
            None => None,
        },
        None => None,
    }
}

pub open spec fn parse_digest(b: Seq<u8>, p: int) -> Option<([u8; 32], int)> {
    if 0 <= p && p + 32 <= b.len() {
        Some((choose|d: [u8; 32]| d@ == b.subrange(p, p + 32), p + 32))
    } else {
        None
    }
}

pub open spec fn parse_str(b: Seq<u8>, p: int) -> Option<(Seq<char>, int)> {
    match parse_u64(b, p) {
        Some((n, q)) => if q + n <= b.len() && valid_utf8(b.subrange(q, q + n)) {
            Some((decode_utf8(b.subrange(q, q + n)), q + n))
        } else {
            None
        },
        None => None,
    }
}

pub open spec fn pair_p() -> spec_fn(Seq<u8>, int) -> Option<((u64, u64), int)> {
    |b: Seq<u8>, p: int| parse_pair(b, p)
}

pub open spec fn digest_p() -> spec_fn(Seq<u8>, int) -> Option<([u8; 32], int)> {
    |b: Seq<u8>, p: int| parse_digest(b, p)
}

pub open spec fn u64_p() -> spec_fn(Seq<u8>, int) -> Option<(u64, int)> {
    |b: Seq<u8>, p: int| parse_u64(b, p)
}

pub open spec fn str_p() -> spec_fn(Seq<u8>, int) -> Option<(Seq<char>, int)> {
    |b: Seq<u8>, p: int| parse_str(b, p)
}

/// `n` items read by `f` one after another from position `p`.
pub open spec fn parse_items<T>(b: Seq<u8>, p: int, n: nat, f: spec_fn(Seq<u8>, int) -> Option<(T, int)>) -> Option<(Seq<T>, int)>
    decreases n,
{
    if n == 0 {
        Some((Seq::empty(), p))
    } else {
        match parse_items(b, p, (n - 1) as nat, f) {
            Some((xs, q)) => match f(b, q) {
                Some((x, r)) => Some((xs.push(x), r)),
                None => None,
            },
            None => None,
        }
    }
}

/// A count, then that many items read by `f`.
pub open spec fn parse_seq<T>(b: Seq<u8>, p: int, f: spec_fn(Seq<u8>, int) -> Option<(T, int)>) -> Option<(Seq<T>, int)> {
    match parse_u64(b, p) {
        Some((n, q)) => parse_items(b, q, n as nat, f),
        None => None,
    }
}

pub open spec fn zip<A, B>(a: Seq<A>, b: Seq<B>) -> Seq<(A, B)> {
    Seq::new(a.len(), |i: int| (a[i], b[i]))
}

/// The index that bytes `b` hold, read from their start.
pub open spec fn parse_index(b: Seq<u8>) -> Result<IndexView, ArchiveError> {
    match parse_seq(b, 0, pair_p()) {
        None => Err(ArchiveError::Format),
        Some((keys, p1)) => match parse_seq(b, p1, digest_p()) {
            None => Err(ArchiveError::Format),
            Some((digests, p2)) => match parse_seq(b, p2, u64_p()) {
                None => Err(ArchiveError::Format),
                Some((sizes, p3)) => match parse_seq(b, p3, pair_p()) {
                    None => Err(ArchiveError::Format),
                    Some((chunks, p4)) => match parse_seq(b, p4, str_p()) {
                        None => Err(ArchiveError::Format),
                        Some((paths, p5)) => match parse_seq(b, p5, str_p()) {
                            None => Err(ArchiveError::Format),
                            Some((dirs, p6)) => match parse_u64(b, p6) {
                                None => Err(ArchiveError::Format),
                                Some((magic, _)) => if keys.len() != digests.len() || keys.len()
                                    != sizes.len() || chunks.len() != paths.len() {
                                    Err(ArchiveError::Format)
                                } else {
                                    Ok(
                                        IndexView {
                                            hashes: zip(keys, digests),
                                            sizes: zip(keys.map_values(|k: ChunkRef| k.0), sizes),
                                            mapping: zip(paths, chunks),
                                            empty_dirs: dirs,
                                            magic_number: magic,
                                        },
                                    )
                                },
                            },
                        },
                    },
                },
            },
        },
    }
}

/// Relies on `String::from_utf8`: it succeeds exactly on valid UTF-8 and
/// then holds the characters that the bytes encode.
#[verifier::external_body]
fn utf8_string(b: &[u8]) -> (r: Option<String>)
    ensures
        r is Some <==> valid_utf8(b@),
        r is Some ==> r->0@ == decode_utf8(b@),
{
    String::from_utf8(b.to_vec()).ok()
}

fn read_u64(b: &[u8], p: usize) -> (r: Option<(u64, usize)>)
    ensures
        match parse_u64(b@, p as int) {
            Some((x, q)) => r == Some((x, q as usize)) && q <= b.len(),
            None => r is None,
        },
{
    if p > b.len() || b.len() - p < 8 {
        return None;
    }
    let s = slice_subrange(b, p, p + 8);
    Some((u64_from_le_bytes(s), p + 8))
}

fn read_pair(b: &[u8], p: usize) -> (r: Option<((u64, u64), usize)>)
    ensures
        match parse_pair(b@, p as int) {
            Some((x, q)) => r == Some((x, q as usize)) && q <= b.len(),
            None => r is None,
        },
{
    let (x, q) = match read_u64(b, p) {
        Some(v) => v,
        None => return None,
    };
    let (y, r) = match read_u64(b, q) {
        Some(v) => v,
        None => return None,
    };
    Some(((x, y), r))
}

fn read_digest(b: &[u8], p: usize) -> (r: Option<([u8; 32], usize)>)
    ensures
        match parse_digest(b@, p as int) {
            Some((x, q)) => r == Some((x, q as usize)) && q <= b.len(),
            None => r is None,
        },
{
    if p > b.len() || b.len() - p < 32 {
        return None;
    }
    let mut d: [u8; 32] = [0u8; 32];
    let mut k: usize = 0;
    while k < 32
        invariant
            p + 32 <= b.len(),
            0 <= k <= 32,
            forall|j: int| 0 <= j < k ==> d@[j] == b@[p + j],
        decreases 32 - k,
    {
        d[k] = b[p + k];
        k = k + 1;
    }
    let ghost s = b@.subrange(p as int, p + 32);
    assert(d@ =~= s);
    let ghost c = choose|x: [u8; 32]| x@ == s;
    assert(c@ == s);
    assert(c =~= d);
    Some((d, p + 32))
}

fn read_str(b: &[u8], p: usize) -> (r: Option<(String, usize)>)
    ensures
        match parse_str(b@, p as int) {
            Some((x, q)) => q <= b.len() && match r {
                Some((v, e)) => v@ == x && e == q,
                None => false,
            },
            None => r is None,
        },
{
    let (n, q) = match read_u64(b, p) {
        Some(v) => v,
        None => return None,
    };
    if n > (b.len() - q) as u64 {
        return None;
    }
    let e = q + n as usize;
    let s = utf8_string(slice_subrange(b, q, e));
    match s {
        Some(s) => Some((s, e)),
        None => None,
    }
}

/// Once an item fails to read, no longer run of items reads.
proof fn lemma_parse_items_stops<T>(b: Seq<u8>, p: int, i: nat, n: nat, f: spec_fn(Seq<u8>, int) -> Option<(T, int)>)
    requires
        i < n,
        parse_items(b, p, (i + 1) as nat, f) is None,
    ensures
        parse_items(b, p, n, f) is None,
    decreases n,
{
    if n > i + 1 {
        lemma_parse_items_stops(b, p, i, (n - 1) as nat, f);
    }
}

fn read_pairs(b: &[u8], p: usize) -> (r: Option<(Vec<(u64, u64)>, usize)>)
    ensures
        match parse_seq(b@, p as int, pair_p()) {
            Some((xs, q)) => match r {
                Some((v, e)) => v@ == xs && e == q,
                None => false,
            },
            None => r is None,
        },
{
    let (n, p0) = match read_u64(b, p) {
        Some(v) => v,
        None => return None,
    };
    let mut out: Vec<(u64, u64)> = Vec::new();
    let mut q = p0;
    let mut i: u64 = 0;
    while i < n
        invariant
            0 <= i <= n,
            q <= b.len(),
            parse_u64(b@, p as int) == Some((n, p0 as int)),
            parse_items(b@, p0 as int, i as nat, pair_p()) == Some((out@, q as int)),
        decreases n - i,
    {
        match read_pair(b, q) {
            Some((x, q2)) => {
                out.push(x);
                q = q2;
            },
            None => {
                proof {
                    lemma_parse_items_stops(b@, p0 as int, i as nat, n as nat, pair_p());
                }
                return None;
            },
        }
        i = i + 1;
    }
    Some((out, q))
}

fn read_digests(b: &[u8], p: usize) -> (r: Option<(Vec<[u8; 32]>, usize)>)
    ensures
        match parse_seq(b@, p as int, digest_p()) {
            Some((xs, q)) => match r {
                Some((v, e)) => v@ == xs && e == q,
                None => false,
            },
            None => r is None,
        },
{
    let (n, p0) = match read_u64(b, p) {
        Some(v) => v,
        None => return None,
    };
    let mut out: Vec<[u8; 32]> = Vec::new();
    let mut q = p0;
    let mut i: u64 = 0;
    while i < n
        invariant
            0 <= i <= n,
            q <= b.len(),
            parse_u64(b@, p as int) == Some((n, p0 as int)),
            parse_items(b@, p0 as int, i as nat, digest_p()) == Some((out@, q as int)),
        decreases n - i,
    {
        match read_digest(b, q) {
            Some((x, q2)) => {
                out.push(x);
                q = q2;
            },
            None => {
                proof {
                    lemma_parse_items_stops(b@, p0 as int, i as nat, n as nat, digest_p());
                }
                return None;
            },
        }
        i = i + 1;
    }
    Some((out, q))
}

fn read_u64s(b: &[u8], p: usize) -> (r: Option<(Vec<u64>, usize)>)
    ensures
        match parse_seq(b@, p as int, u64_p()) {
            Some((xs, q)) => match r {
                Some((v, e)) => v@ == xs && e == q,
                None => false,
            },
            None => r is None,
        },
{
    let (n, p0) = match read_u64(b, p) {
        Some(v) => v,
        None => return None,
    };
    let mut out: Vec<u64> = Vec::new();
    let mut q = p0;
    let mut i: u64 = 0;
    while i < n
        invariant
            0 <= i <= n,
            q <= b.len(),
            parse_u64(b@, p as int) == Some((n, p0 as int)),
            parse_items(b@, p0 as int, i as nat, u64_p()) == Some((out@, q as int)),
        decreases n - i,
    {
        match read_u64(b, q) {
            Some((x, q2)) => {
                out.push(x);
                q = q2;
            },
            None => {
                proof {
                    lemma_parse_items_stops(b@, p0 as int, i as nat, n as nat, u64_p());
                }
                return None;
            },
        }
        i = i + 1;
    }
    Some((out, q))
}

fn read_strs(b: &[u8], p: usize) -> (r: Option<(Vec<String>, usize)>)
    ensures
        match parse_seq(b@, p as int, str_p()) {
            Some((xs, q)) => match r {
                Some((v, e)) => paths_view(v@) == xs && e == q,
                None => false,
            },
            None => r is None,
        },
{
    let (n, p0) = match read_u64(b, p) {
        Some(v) => v,
        None => return None,
    };
    let mut out: Vec<String> = Vec::new();
    let mut q = p0;
    let mut i: u64 = 0;
    while i < n
        invariant
            0 <= i <= n,
            q <= b.len(),
            parse_u64(b@, p as int) == Some((n, p0 as int)),
            parse_items(b@, p0 as int, i as nat, str_p()) == Some((paths_view(out@), q as int)),
        decreases n - i,
    {
        match read_str(b, q) {
            Some((x, q2)) => {
                let ghost before = paths_view(out@);
                out.push(x);
                assert(paths_view(out@) =~= before.push(x@));
                q = q2;
            },
            None => {
                proof {
                    lemma_parse_items_stops(b@, p0 as int, i as nat, n as nat, str_p());
                }
                return None;
            },
        }
        i = i + 1;
    }
    Some((out, q))
}

/// Reads the index record that `bytes` start with.
pub fn decode_index(bytes: &[u8]) -> (r: Result<Index, ArchiveError>)
    ensures
        match parse_index(bytes@) {
            Ok(v) => r is Ok && r->Ok_0@ == v,
            Err(e) => r == Err::<Index, ArchiveError>(e),
        },
{
    let (keys, p1) = match read_pairs(bytes, 0) {
        Some(v) => v,
        None => return Err(ArchiveError::Format),
    };
    let (digests, p2) = match read_digests(bytes, p1) {
        Some(v) => v,
        None => return Err(ArchiveError::Format),
    };
    let (sizes, p3) = match read_u64s(bytes, p2) {
        Some(v) => v,
        None => return Err(ArchiveError::Format),
    };
    let (chunks, p4) = match read_pairs(bytes, p3) {
        Some(v) => v,
        None => return Err(ArchiveError::Format),
    };
    let (paths, p5) = match read_strs(bytes, p4) {
        Some(v) => v,
        None => return Err(ArchiveError::Format),
    };
    let (dirs, p6) = match read_strs(bytes, p5) {
        Some(v) => v,
        None => return Err(ArchiveError::Format),
    };
    let (magic, _) = match read_u64(bytes, p6) {
        Some(v) => v,
        None => return Err(ArchiveError::Format),
    };
    if keys.len() != digests.len() || keys.len() != sizes.len() || chunks.len() != paths.len() {
        return Err(ArchiveError::Format);
    }
    let mut hashes: Vec<(ChunkRef, [u8; 32])> = Vec::new();
    let mut size_entries: Vec<(u64, u64)> = Vec::new();
    let mut i: usize = 0;
    while i < keys.len()
        invariant
            keys.len() == digests.len(),
            keys.len() == sizes.len(),
            0 <= i <= keys.len(),
            hashes@ == zip(keys@, digests@).take(i as int),
            size_entries@ == zip(keys@.map_values(|k: ChunkRef| k.0), sizes@).take(i as int),
        decreases keys.len() - i,
    {
        hashes.push((keys[i], digests[i]));
        size_entries.push((keys[i].0, sizes[i]));
        assert(hashes@ =~= zip(keys@, digests@).take(i + 1));
        assert(size_entries@ =~= zip(keys@.map_values(|k: ChunkRef| k.0), sizes@).take(i + 1));
        i = i + 1;
    }
    let mut mapping: Vec<(String, ChunkRef)> = Vec::new();
    let mut j: usize = 0;
    let ghost pv = paths_view(paths@);
    while j < chunks.len()
        invariant
            chunks.len() == paths.len(),
            pv == paths_view(paths@),
            0 <= j <= chunks.len(),
            entries_view(mapping@) == zip(pv, chunks@).take(j as int),
        decreases chunks.len() - j,
    {
        let ghost before = entries_view(mapping@);
        let k = paths[j].clone();
        assert(k@ == pv[j as int]);
        mapping.push((k, chunks[j]));
        assert(entries_view(mapping@) =~= before.push((pv[j as int], chunks@[j as int])));
        assert(zip(pv, chunks@).take(j + 1) =~= zip(pv, chunks@).take(j as int).push(
            (pv[j as int], chunks@[j as int]),
        ));
        j = j + 1;
    }
    let r = Index { hashes, sizes: size_entries, mapping, empty_dirs: dirs, magic_number: magic };
    assert(r@.hashes =~= zip(keys@, digests@));
    assert(r@.sizes =~= zip(keys@.map_values(|k: ChunkRef| k.0), sizes@));
    assert(r@.mapping =~= zip(pv, chunks@));
    Ok(r)
}

fn push_bytes(out: &mut Vec<u8>, b: &[u8])
    ensures
        final(out)@ == old(out)@ + b@,
{
    let mut i: usize = 0;
    while i < b.len()
        invariant
            0 <= i <= b.len(),
            out@ == old(out)@ + b@.take(i as int),
        decreases b.len() - i,
    {
        out.push(b[i]);
        assert(b@.take(i + 1) == b@.take(i as int).push(b@[i as int]));
        i = i + 1;
    }
    assert(b@.take(b.len() as int) == b@);
}

fn write_u64(out: &mut Vec<u8>, x: u64)
    ensures
        final(out)@ == old(out)@ + u64_enc(x),
{
    let b = u64_to_le_bytes(x);
    push_bytes(out, b.as_slice());
}

fn write_pair(out: &mut Vec<u8>, p: (u64, u64))
    ensures
        final(out)@ == old(out)@ + pair_enc(p),
{
    write_u64(out, p.0);
    write_u64(out, p.1);
    assert(out@ =~= old(out)@ + pair_enc(p));
}

fn write_str(out: &mut Vec<u8>, s: &String)
    ensures
        final(out)@ == old(out)@ + str_enc(s@),
{
    let b = s.as_str().as_bytes();
    write_u64(out, b.len() as u64);
    push_bytes(out, b);
    assert(out@ =~= old(out)@ + str_enc(s@));
}

proof fn lemma_items_enc_step<T>(xs: Seq<T>, f: spec_fn(T) -> Seq<u8>, i: int)
    requires
        0 <= i < xs.len(),
    ensures
        items_enc(xs.take(i + 1), f) == items_enc(xs.take(i), f) + f(xs[i]),
{
    assert(xs.take(i + 1).drop_last() == xs.take(i));
}

fn write_chunk_keys(out: &mut Vec<u8>, h: &Vec<(ChunkRef, [u8; 32])>)
    ensures
        final(out)@ == old(out)@ + seq_enc(chunk_keys(h@), pair_e()),
{
    let ghost xs = chunk_keys(h@);
    write_u64(out, h.len() as u64);
    let ghost start = out@;
    let mut i: usize = 0;
    while i < h.len()
        invariant
            xs == chunk_keys(h@),
            0 <= i <= h.len(),
            out@ == start + items_enc(xs.take(i as int), pair_e()),
        decreases h.len() - i,
    {
        proof {
            lemma_items_enc_step(xs, pair_e(), i as int);
        }
        write_pair(out, h[i].0);
        i = i + 1;
    }
    assert(xs.take(xs.len() as int) == xs);
}

fn write_digests(out: &mut Vec<u8>, h: &Vec<(ChunkRef, [u8; 32])>)
    ensures
        final(out)@ == old(out)@ + seq_enc(digests_of(h@), digest_e()),
{
    let ghost xs = digests_of(h@);
    write_u64(out, h.len() as u64);
    let ghost start = out@;
    let mut i: usize = 0;
    while i < h.len()
        invariant
            xs == digests_of(h@),
            0 <= i <= h.len(),
            out@ == start + items_enc(xs.take(i as int), digest_e()),
        decreases h.len() - i,
    {
        proof {
            lemma_items_enc_step(xs, digest_e(), i as int);
        }
        push_bytes(out, h[i].1.as_slice());
        i = i + 1;
    }
    assert(xs.take(xs.len() as int) == xs);
}

fn write_u64s(out: &mut Vec<u8>, s: &Vec<u64>)
    ensures
        final(out)@ == old(out)@ + seq_enc(s@, u64_e()),
{
    let ghost xs = s@;
    write_u64(out, s.len() as u64);
    let ghost start = out@;
    let mut i: usize = 0;
    while i < s.len()
        invariant
            xs == s@,
            0 <= i <= s.len(),
            out@ == start + items_enc(xs.take(i as int), u64_e()),
        decreases s.len() - i,
    {
        proof {
            lemma_items_enc_step(xs, u64_e(), i as int);
        }
        write_u64(out, s[i]);
        i = i + 1;
    }
    assert(xs.take(xs.len() as int) == xs);
}

/// The sizes of the digests' chunks in digest order, where sizes are listed
/// in digest order already and offsets increase.
fn aligned_sizes(index: &Index) -> (r: Option<Vec<u64>>)
    ensures
        r is Some ==> r->0@ == digest_sizes(index@) && sizes_known(index@),
{
    if index.sizes.len() != index.hashes.len() {
        return None;
    }
    let mut out: Vec<u64> = Vec::new();
    let mut i: usize = 0;
    while i < index.hashes.len()
        invariant
            index.sizes.len() == index.hashes.len(),
            0 <= i <= index.hashes.len(),
            out@.len() == i,
            forall|j: int| 0 <= j < i ==> #[trigger] index@.sizes[j].0 == index@.hashes[j].0.0,
            forall|j: int, k: int| 0 <= j < k < i ==> (#[trigger] index@.hashes[j]).0.0 < (#[trigger] index@.hashes[k]).0.0,
            forall|j: int| 0 <= j < i ==> lookup(index@.sizes, (#[trigger] index@.hashes[j]).0.0) == Some(out@[j]),
        decreases index.hashes.len() - i,
    {
        let o = index.hashes[i].0.0;
        if index.sizes[i].0 != o {
            return None;
        }
        if i > 0 && index.hashes[i - 1].0.0 >= o {
            return None;
        }
        proof {
            assert forall|j: int| 0 <= j < i implies #[trigger] index@.sizes[j].0 != o by {
                assert(index@.sizes[j].0 == index@.hashes[j].0.0);
                if j < i - 1 {
                    assert(index@.hashes[j].0.0 < index@.hashes[i - 1].0.0);
                }
            }
            crate::builder::lemma_lookup_first(index@.sizes, o, i as int);
        }
        out.push(index.sizes[i].1);
        i = i + 1;
    }
    assert(out@ =~= digest_sizes(index@));
    Some(out)
}

/// The sizes of the digests' chunks in digest order; none where a chunk
/// has no size.
fn sizes_in_digest_order(index: &Index) -> (r: Option<Vec<u64>>)
    ensures
        r is Some <==> sizes_known(index@),
        r is Some ==> r->0@ == digest_sizes(index@),
{
    match aligned_sizes(index) {
        Some(v) => return Some(v),
        None => {},
    }
    let mut out: Vec<u64> = Vec::new();
    let mut i: usize = 0;
    while i < index.hashes.len()
        invariant
            0 <= i <= index.hashes.len(),
            out@.len() == i,
            forall|j: int| 0 <= j < i ==> lookup(index@.sizes, (#[trigger] index@.hashes[j]).0.0) == Some(out@[j]),
        decreases index.hashes.len() - i,
    {
        match lookup_offset(&index.sizes, index.hashes[i].0.0) {
            Some(n) => out.push(n),
            None => return None,
        }
        i = i + 1;
    }
    assert(out@ =~= digest_sizes(index@));
    Some(out)
}

fn write_chunk_refs(out: &mut Vec<u8>, m: &Vec<(String, ChunkRef)>)
    ensures
        final(out)@ == old(out)@ + seq_enc(chunk_refs(entries_view(m@)), pair_e()),
{
    let ghost xs = chunk_refs(entries_view(m@));
    write_u64(out, m.len() as u64);
    let ghost start = out@;
    let mut i: usize = 0;
    while i < m.len()
        invariant
            xs == chunk_refs(entries_view(m@)),
            0 <= i <= m.len(),
            out@ == start + items_enc(xs.take(i as int), pair_e()),
        decreases m.len() - i,
    {
        proof {
            lemma_items_enc_step(xs, pair_e(), i as int);
        }
        write_pair(out, m[i].1);
        i = i + 1;
    }
    assert(xs.take(xs.len() as int) == xs);
}

fn write_path_keys(out: &mut Vec<u8>, m: &Vec<(String, ChunkRef)>)
    ensures
        final(out)@ == old(out)@ + seq_enc(path_keys(entries_view(m@)), str_e()),
{
    let ghost xs = path_keys(entries_view(m@));
    write_u64(out, m.len() as u64);
    let ghost start = out@;
    let mut i: usize = 0;
    while i < m.len()
        invariant
            xs == path_keys(entries_view(m@)),
            0 <= i <= m.len(),
            out@ == start + items_enc(xs.take(i as int), str_e()),
        decreases m.len() - i,
    {
        proof {
            lemma_items_enc_step(xs, str_e(), i as int);
        }
        write_str(out, &m[i].0);
        i = i + 1;
    }
    assert(xs.take(xs.len() as int) == xs);
}

fn write_paths(out: &mut Vec<u8>, d: &Vec<String>)
    ensures
        final(out)@ == old(out)@ + seq_enc(paths_view(d@), str_e()),
{
    let ghost xs = paths_view(d@);
    write_u64(out, d.len() as u64);
    let ghost start = out@;
    let mut i: usize = 0;
    while i < d.len()
        invariant
            xs == paths_view(d@),
            0 <= i <= d.len(),
            out@ == start + items_enc(xs.take(i as int), str_e()),
        decreases d.len() - i,
    {
        proof {
            lemma_items_enc_step(xs, str_e(), i as int);
        }
        write_str(out, &d[i]);
        i = i + 1;
    }
    assert(xs.take(xs.len() as int) == xs);
}

/// The index record for `index`, each digest's size looked up by its
/// chunk's offset; refused as malformed where a chunk has no size.
pub fn encode_index(index: &Index) -> (r: Result<Vec<u8>, ArchiveError>)
    ensures
        sizes_known(index@) ==> r is Ok && r->Ok_0@ == index_enc(index@),
        !sizes_known(index@) ==> r == Err::<Vec<u8>, ArchiveError>(ArchiveError::Format),
{
    let sizes = match sizes_in_digest_order(index) {
        Some(s) => s,
        None => return Err(ArchiveError::Format),
    };
    let mut out: Vec<u8> = Vec::new();
    write_chunk_keys(&mut out, &index.hashes);
    write_digests(&mut out, &index.hashes);
    write_u64s(&mut out, &sizes);
    write_chunk_refs(&mut out, &index.mapping);
    write_path_keys(&mut out, &index.mapping);
    write_paths(&mut out, &index.empty_dirs);
    write_u64(&mut out, index.magic_number);
    assert(out@ =~= index_enc(index@));
    Ok(out)
}

/// `f` reads back, at any position of `b`, each item `x` with `ok(x)`
/// that `g` encoded there.
pub open spec fn reads_back<T>(
    b: Seq<u8>,
    f: spec_fn(Seq<u8>, int) -> Option<(T, int)>,
    g: spec_fn(T) -> Seq<u8>,
    ok: spec_fn(T) -> bool,
) -> bool {
    forall|x: T, q: int|
        #![trigger f(b, q), g(x)]
        ok(x) && 0 <= q && q + g(x).len() <= b.len() && b.subrange(q, q + g(x).len()) == g(x)
            ==> f(b, q) == Some((x, q + g(x).len()))
}

pub open spec fn any_item<T>() -> spec_fn(T) -> bool {
    |x: T| true
}

/// A string whose UTF-8 length fits its length field.
pub open spec fn str_ok() -> spec_fn(Seq<char>) -> bool {
    |s: Seq<char>| encode_utf8(s).len() <= u64::MAX
}

proof fn lemma_split(b: Seq<u8>, p: int, e1: Seq<u8>, e2: Seq<u8>)
    requires
        0 <= p,
        p + e1.len() + e2.len() <= b.len(),
        b.subrange(p, p + e1.len() + e2.len()) == e1 + e2,
    ensures
        b.subrange(p, p + e1.len()) == e1,
        b.subrange(p + e1.len(), p + e1.len() + e2.len()) == e2,
{
    let whole = b.subrange(p, p + e1.len() + e2.len());
    assert forall|k: int| 0 <= k < e1.len() implies b.subrange(p, p + e1.len())[k] == e1[k] by {
        assert(whole[k] == (e1 + e2)[k]);
    }
    assert forall|k: int| 0 <= k < e2.len() implies b.subrange(
        p + e1.len(),
        p + e1.len() + e2.len(),
    )[k] == e2[k] by {
        assert(whole[e1.len() + k] == (e1 + e2)[e1.len() + k]);
    }
    assert(b.subrange(p, p + e1.len()) =~= e1);
    assert(b.subrange(p + e1.len(), p + e1.len() + e2.len()) =~= e2);
}

proof fn lemma_u64_reads_back(b: Seq<u8>)
    ensures
        reads_back(b, u64_p(), u64_e(), any_item()),
{
    lemma_auto_spec_u64_to_from_le_bytes();
}

proof fn lemma_pair_reads_back(b: Seq<u8>)
    ensures
        reads_back(b, pair_p(), pair_e(), any_item()),
{
    lemma_auto_spec_u64_to_from_le_bytes();
    assert forall|x: (u64, u64), q: int|
        #![trigger pair_p()(b, q), pair_e()(x)]
        any_item()(x) && 0 <= q && q + pair_e()(x).len() <= b.len() && b.subrange(
            q,
            q + pair_e()(x).len(),
        ) == pair_e()(x) implies pair_p()(b, q) == Some((x, q + pair_e()(x).len())) by {
        lemma_split(b, q, u64_enc(x.0), u64_enc(x.1));
    }
}

proof fn lemma_digest_reads_back(b: Seq<u8>)
    ensures
        reads_back(b, digest_p(), digest_e(), any_item()),
{
    assert forall|x: [u8; 32], q: int|
        #![trigger digest_p()(b, q), digest_e()(x)]
        any_item()(x) && 0 <= q && q + digest_e()(x).len() <= b.len() && b.subrange(
            q,
            q + digest_e()(x).len(),
        ) == digest_e()(x) implies digest_p()(b, q) == Some((x, q + digest_e()(x).len())) by {
        let c = choose|d: [u8; 32]| d@ == b.subrange(q, q + 32);
        assert(x@ == b.subrange(q, q + 32));
        assert(c@ == b.subrange(q, q + 32));
        assert(c =~= x);
    }
}

proof fn lemma_str_reads_back(b: Seq<u8>)
    ensures
        reads_back(b, str_p(), str_e(), str_ok()),
{
    lemma_auto_spec_u64_to_from_le_bytes();
    assert forall|x: Seq<char>, q: int|
        #![trigger str_p()(b, q), str_e()(x)]
        str_ok()(x) && 0 <= q && q + str_e()(x).len() <= b.len() && b.subrange(
            q,
            q + str_e()(x).len(),
        ) == str_e()(x) implies str_p()(b, q) == Some((x, q + str_e()(x).len())) by {
        let e = encode_utf8(x);
        lemma_split(b, q, u64_enc(e.len() as u64), e);
        encode_utf8_valid_utf8(x);
        encode_utf8_decode_utf8(x);
    }
}

proof fn lemma_items_read_back<T>(
    b: Seq<u8>,
    p: int,
    xs: Seq<T>,
    f: spec_fn(Seq<u8>, int) -> Option<(T, int)>,
    g: spec_fn(T) -> Seq<u8>,
    ok: spec_fn(T) -> bool,
)
    requires
        reads_back(b, f, g, ok),
        forall|i: int| 0 <= i < xs.len() ==> #[trigger] ok(xs[i]),
        0 <= p,
        p + items_enc(xs, g).len() <= b.len(),
        b.subrange(p, p + items_enc(xs, g).len()) == items_enc(xs, g),
    ensures
        parse_items(b, p, xs.len() as nat, f) == Some((xs, p + items_enc(xs, g).len())),
    decreases xs.len(),
{
    if xs.len() > 0 {
        let ys = xs.drop_last();
        let e1 = items_enc(ys, g);
        let e2 = g(xs.last());
        lemma_split(b, p, e1, e2);
        assert forall|i: int| 0 <= i < ys.len() implies #[trigger] ok(ys[i]) by {
            assert(ok(xs[i]));
        }
        lemma_items_read_back(b, p, ys, f, g, ok);
        assert(ok(xs[xs.len() - 1]));
        assert(f(b, p + e1.len()) == Some((xs.last(), p + e1.len() + e2.len())));
        assert(ys.push(xs.last()) == xs);
        assert((xs.len() - 1) as nat == ys.len());
    }
}

proof fn lemma_seq_reads_back<T>(
    b: Seq<u8>,
    p: int,
    xs: Seq<T>,
    f: spec_fn(Seq<u8>, int) -> Option<(T, int)>,
    g: spec_fn(T) -> Seq<u8>,
    ok: spec_fn(T) -> bool,
)
    requires
        reads_back(b, f, g, ok),
        forall|i: int| 0 <= i < xs.len() ==> #[trigger] ok(xs[i]),
        xs.len() <= u64::MAX,
        0 <= p,
        p + seq_enc(xs, g).len() <= b.len(),
        b.subrange(p, p + seq_enc(xs, g).len()) == seq_enc(xs, g),
    ensures
        parse_seq(b, p, f) == Some((xs, p + seq_enc(xs, g).len())),
{
    lemma_auto_spec_u64_to_from_le_bytes();
    lemma_split(b, p, u64_enc(xs.len() as u64), items_enc(xs, g));
    lemma_items_read_back(b, p + 8, xs, f, g, ok);
}

/// Where sizes are listed once per digest in digest order, each the one a
/// lookup by offset finds, the record's sizes are the index's own.
pub proof fn lemma_aligned_sizes_kept(v: IndexView)
    requires
        sizes_parallel(v),
        forall|i: int| 0 <= i < v.hashes.len() ==> lookup(v.sizes, (#[trigger] v.hashes[i]).0.0) == Some(v.sizes[i].1),
    ensures
        sizes_known(v),
        with_aligned_sizes(v) == v,
{
    let ws = with_aligned_sizes(v).sizes;
    assert forall|i: int| 0 <= i < v.sizes.len() implies ws[i] == v.sizes[i] by {
        assert(lookup(v.sizes, v.hashes[i].0.0) == Some(v.sizes[i].1));
        assert(v.sizes[i].0 == v.hashes[i].0.0);
    }
    assert(ws =~= v.sizes);
}

/// An index that its record can hold: every count, and the UTF-8 length of
/// every path, fits in a `u64`.
pub open spec fn encodable(v: IndexView) -> bool {
    &&& v.hashes.len() <= u64::MAX
    &&& v.sizes.len() <= u64::MAX
    &&& v.mapping.len() <= u64::MAX
    &&& v.empty_dirs.len() <= u64::MAX
    &&& forall|i: int| 0 <= i < v.mapping.len() ==> #[trigger] encode_utf8(v.mapping[i].0).len() <= u64::MAX
    &&& forall|i: int| 0 <= i < v.empty_dirs.len() ==> #[trigger] encode_utf8(v.empty_dirs[i]).len() <= u64::MAX
}

/// Reading back the record of an index, whatever follows it, gives that
/// index with its sizes listed once per digest, in digest order.
pub proof fn lemma_index_round_trip(v: IndexView, rest: Seq<u8>)
    requires
        sizes_known(v),
        encodable(v),
    ensures
        parse_index(index_enc(v) + rest) == Ok::<IndexView, ArchiveError>(with_aligned_sizes(v)),
{
    let b = index_enc(v) + rest;
    let s1 = seq_enc(chunk_keys(v.hashes), pair_e());
    let s2 = seq_enc(digests_of(v.hashes), digest_e());
    let s3 = seq_enc(digest_sizes(v), u64_e());
    let s4 = seq_enc(chunk_refs(v.mapping), pair_e());
    let s5 = seq_enc(path_keys(v.mapping), str_e());
    let s6 = seq_enc(v.empty_dirs, str_e());
    let s7 = u64_enc(v.magic_number);
    lemma_auto_spec_u64_to_from_le_bytes();
    lemma_pair_reads_back(b);
    lemma_digest_reads_back(b);
    lemma_u64_reads_back(b);
    lemma_str_reads_back(b);
    let p1 = s1.len() as int;
    let p2 = p1 + s2.len();
    let p3 = p2 + s3.len();
    let p4 = p3 + s4.len();
    let p5 = p4 + s5.len();
    let p6 = p5 + s6.len();
    assert(index_enc(v) == s1 + s2 + s3 + s4 + s5 + s6 + s7);
    assert(b.subrange(0, p1) =~= s1);
    assert(b.subrange(p1, p2) =~= s2);
    assert(b.subrange(p2, p3) =~= s3);
    assert(b.subrange(p3, p4) =~= s4);
    assert(b.subrange(p4, p5) =~= s5);
    assert(b.subrange(p5, p6) =~= s6);
    assert(b.subrange(p6, p6 + 8) =~= s7);
    lemma_seq_reads_back(b, 0, chunk_keys(v.hashes), pair_p(), pair_e(), any_item());
    lemma_seq_reads_back(b, p1, digests_of(v.hashes), digest_p(), digest_e(), any_item());
    lemma_seq_reads_back(b, p2, digest_sizes(v), u64_p(), u64_e(), any_item());
    lemma_seq_reads_back(b, p3, chunk_refs(v.mapping), pair_p(), pair_e(), any_item());
    assert forall|i: int| 0 <= i < path_keys(v.mapping).len() implies #[trigger] str_ok()(
        path_keys(v.mapping)[i],
    ) by {
        assert(encode_utf8(v.mapping[i].0).len() <= u64::MAX);
    }
    lemma_seq_reads_back(b, p4, path_keys(v.mapping), str_p(), str_e(), str_ok());
    assert forall|i: int| 0 <= i < v.empty_dirs.len() implies #[trigger] str_ok()(
        v.empty_dirs[i],
    ) by {
        assert(encode_utf8(v.empty_dirs[i]).len() <= u64::MAX);
    }
    lemma_seq_reads_back(b, p5, v.empty_dirs, str_p(), str_e(), str_ok());
    let keys = chunk_keys(v.hashes);
    assert(zip(keys, digests_of(v.hashes)) =~= v.hashes);
    let zs = zip(keys.map_values(|k: ChunkRef| k.0), digest_sizes(v));
    assert(zs =~= with_aligned_sizes(v).sizes);
    assert(zip(path_keys(v.mapping), chunk_refs(v.mapping)) =~= v.mapping);
}

} // verus!

verus! {

/// A value with a length-prefixed little-endian encoding.
pub trait SimpleBinRepr: Sized {
    /// The encoding of this value, where `can_encode` holds.
    spec fn bin(&self) -> Seq<u8>;

    /// Whether this value has an encoding.
    spec fn can_encode(&self) -> bool;

    /// `r` is what reading the value that `bytes` start with gives.
    spec fn read_as(bytes: Seq<u8>, r: Option<Self>) -> bool;

    /// Reads the value that `bytes` start with.
    fn read_bin(bytes: &[u8]) -> (r: Option<Self>)
        ensures
            Self::read_as(bytes@, r),
    ;

    /// Appends the encoding of this value to `out`; refused as malformed,
    /// leaving `out` as it was, where the value has none.
    fn write_bin(&self, out: &mut Vec<u8>) -> (r: Result<(), ArchiveError>)
        ensures
            r is Ok <==> self.can_encode(),
            r is Ok ==> final(out)@ == old(out)@ + self.bin(),
            r is Err ==> r == Err::<(), ArchiveError>(ArchiveError::Format) && final(out)@ == old(out)@,
    ;

    /// The encoding of this value on its own.
    fn simple_bin_vec(&self) -> (r: Result<Vec<u8>, ArchiveError>)
        ensures
            r is Ok <==> self.can_encode(),
            r is Ok ==> r->Ok_0@ == self.bin(),
            r is Err ==> r == Err::<Vec<u8>, ArchiveError>(ArchiveError::Format),
    {
        let mut buffer: Vec<u8> = Vec::new();
        match self.write_bin(&mut buffer) {
            Ok(()) => Ok(buffer),
            Err(e) => Err(e),
        }
    }
}

impl SimpleBinRepr for u64 {
    open spec fn bin(&self) -> Seq<u8> {
        u64_enc(*self)
    }

    open spec fn can_encode(&self) -> bool {
        true
    }

    open spec fn read_as(bytes: Seq<u8>, r: Option<u64>) -> bool {
        match parse_u64(bytes, 0) {
            Some((x, _)) => r == Some(x),
            None => r is None,
        }
    }

    fn read_bin(bytes: &[u8]) -> (r: Option<u64>) {
        match read_u64(bytes, 0) {
            Some((x, _)) => Some(x),
            None => None,
        }
    }

    fn write_bin(&self, out: &mut Vec<u8>) -> (r: Result<(), ArchiveError>) {
        write_u64(out, *self);
        Ok(())
    }
}

impl SimpleBinRepr for (u64, u64) {
    open spec fn bin(&self) -> Seq<u8> {
        pair_enc(*self)
    }

    open spec fn can_encode(&self) -> bool {
        true
    }

    open spec fn read_as(bytes: Seq<u8>, r: Option<(u64, u64)>) -> bool {
        match parse_pair(bytes, 0) {
            Some((x, _)) => r == Some(x),
            None => r is None,
        }
    }

    fn read_bin(bytes: &[u8]) -> (r: Option<(u64, u64)>) {
        match read_pair(bytes, 0) {
            Some((x, _)) => Some(x),
            None => None,
        }
    }

    fn write_bin(&self, out: &mut Vec<u8>) -> (r: Result<(), ArchiveError>) {
        write_pair(out, *self);
        Ok(())
    }
}

impl SimpleBinRepr for [u8; 32] {
    open spec fn bin(&self) -> Seq<u8> {
        digest_enc(*self)
    }

    open spec fn can_encode(&self) -> bool {
        true
    }

    open spec fn read_as(bytes: Seq<u8>, r: Option<[u8; 32]>) -> bool {
        match parse_digest(bytes, 0) {
            Some((x, _)) => r == Some(x),
            None => r is None,
        }
    }

    fn read_bin(bytes: &[u8]) -> (r: Option<[u8; 32]>) {
        match read_digest(bytes, 0) {
            Some((x, _)) => Some(x),
            None => None,
        }
    }

    fn write_bin(&self, out: &mut Vec<u8>) -> (r: Result<(), ArchiveError>) {
        push_bytes(out, self.as_slice());
        Ok(())
    }
}

impl SimpleBinRepr for String {
    open spec fn bin(&self) -> Seq<u8> {
        str_enc(self@)
    }

    open spec fn can_encode(&self) -> bool {
        true
    }

    open spec fn read_as(bytes: Seq<u8>, r: Option<String>) -> bool {
        match parse_str(bytes, 0) {
            Some((x, _)) => r is Some && r->0@ == x,
            None => r is None,
        }
    }

    fn read_bin(bytes: &[u8]) -> (r: Option<String>) {
        match read_str(bytes, 0) {
            Some((x, _)) => Some(x),
            None => None,
        }
    }

    fn write_bin(&self, out: &mut Vec<u8>) -> (r: Result<(), ArchiveError>) {
        write_str(out, self);
        Ok(())
    }
}

impl SimpleBinRepr for Index {
    open spec fn bin(&self) -> Seq<u8> {
        index_enc(self@)
    }

    open spec fn can_encode(&self) -> bool {
        sizes_known(self@)
    }

    open spec fn read_as(bytes: Seq<u8>, r: Option<Index>) -> bool {
        match parse_index(bytes) {
            Ok(v) => r is Some && r->0@ == v,
            Err(_) => r is None,
        }
    }

    fn read_bin(bytes: &[u8]) -> (r: Option<Index>) {
        match decode_index(bytes) {
            Ok(i) => Some(i),
            Err(_) => None,
        }
    }

    fn write_bin(&self, out: &mut Vec<u8>) -> (r: Result<(), ArchiveError>) {
        let b = encode_index(self)?;
        push_bytes(out, b.as_slice());
        Ok(())
    }
}

} // verus!
