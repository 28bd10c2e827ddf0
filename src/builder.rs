//! The decisions of an archive build: where each file's chunk goes, which
//! earlier chunk a file may share, and the index that results.
//!
//! The caller walks the source tree, hashes and compares file contents,
//! and writes chunks; this builder records each outcome.
use crate::codec::{sizes_parallel, sizes_known, with_aligned_sizes, lemma_aligned_sizes_kept};
use crate::digest::digests_equal;
use crate::error::ArchiveError;
use crate::format::FIRST_CHUNK;
use crate::index::{ChunkRef, Index, IndexView, MAGIC, lookup, by_offset, uses_offset};
use rand::seq::SliceRandom;
use rand_chacha::ChaCha20Rng;
use vstd::prelude::*;

verus! {

#[verifier::external_type_specification]
#[verifier::external_body]
pub struct ExChaCha20Rng(ChaCha20Rng);

/// Relies on `SeedableRng::try_from_os_rng`: a generator seeded from the
/// operating system's entropy, or nothing where the system has none to give.
#[verifier::external_body]
fn seeded_rng() -> (r: Option<ChaCha20Rng>) {
    <ChaCha20Rng as rand::SeedableRng>::try_from_os_rng().ok()
}

/// Relies on `SliceRandom::shuffle`: it only swaps items, so the same
/// items remain, in some order.
#[verifier::external_body]
fn shuffle_paths(v: &mut Vec<String>, rng: &mut ChaCha20Rng)
    ensures
        final(v)@.to_multiset() == old(v)@.to_multiset(),
{
    v.shuffle(rng)
}

/// Puts both lists in an unpredictable order, drawn from a generator seeded
/// from the operating system's entropy; refused with an i/o error, leaving
/// the lists as they are, where no entropy can be had.
pub fn randomize_order(files: &mut Vec<String>, dirs: &mut Vec<String>) -> (r: Result<(), ArchiveError>)
    ensures
        r is Ok ==> final(files)@.to_multiset() == old(files)@.to_multiset()
            && final(dirs)@.to_multiset() == old(dirs)@.to_multiset(),
        r is Err ==> r == Err::<(), ArchiveError>(ArchiveError::Io) && final(files)@ == old(files)@
            && final(dirs)@ == old(dirs)@,
{
    match seeded_rng() {
        Some(mut rng) => {
            shuffle_paths(files, &mut rng);
            shuffle_paths(dirs, &mut rng);
            Ok(())
        },
        None => Err(ArchiveError::Io),
    }
}

/// The chunks `h` lie after the leading magic, before `cursor`, in the
/// order they were written, without overlap, none empty.
pub open spec fn laid_out(h: Seq<(ChunkRef, [u8; 32])>, cursor: u64) -> bool {
    &&& forall|j: int|
        0 <= j < h.len() ==> 8 <= (#[trigger] h[j]).0.0 && h[j].0.1 > 0 && h[j].0.0 + h[j].0.1
            <= cursor
    &&& forall|j: int, k: int|
        0 <= j < k < h.len() ==> (#[trigger] h[j]).0.0 + h[j].0.1 <= (#[trigger] h[k]).0.0
}

/// Every mapping entry points at a stored chunk.
pub open spec fn entries_stored(h: Seq<(ChunkRef, [u8; 32])>, m: Seq<(Seq<char>, ChunkRef)>) -> bool {
    forall|i: int|
        0 <= i < m.len() ==> exists|j: int| 0 <= j < h.len() && (#[trigger] h[j]).0 == (#[trigger] m[i]).1
}

/// Records the outcome of each file of an archive build.
pub struct Builder {
    index: Index,
    /// The path whose content each stored chunk holds, in chunk order.
    originals: Vec<String>,
    cursor: u64,
    /// How many files were recorded as duplicates of a stored chunk.
    duplicates: Ghost<nat>,
}

impl Builder {
    pub closed spec fn view_index(&self) -> IndexView {
        self.index@
    }

    pub closed spec fn next_offset(&self) -> u64 {
        self.cursor
    }

    pub closed spec fn original(&self, j: int) -> Seq<char> {
        self.originals@[j]@
    }

    pub closed spec fn duplicates_recorded(&self) -> nat {
        self.duplicates@
    }

    pub closed spec fn wf(&self) -> bool {
        let v = self.index@;
        &&& v.magic_number == MAGIC
        &&& sizes_parallel(v)
        &&& self.cursor >= 8
        &&& laid_out(v.hashes, self.cursor)
        &&& entries_stored(v.hashes, v.mapping)
        &&& self.originals.len() == v.hashes.len()
        &&& v.mapping.len() == v.hashes.len() + self.duplicates@
        &&& forall|j: int|
            0 <= j < v.hashes.len() ==> #[trigger] v.mapping.contains(
                (self.originals@[j]@, v.hashes[j].0),
            )
    }

    /// A build with nothing recorded; the first chunk goes right after the
    /// leading magic.
    pub fn new() -> (r: Builder)
        ensures
            r.wf(),
            r.next_offset() == 8,
            r.duplicates_recorded() == 0,
            r.view_index().mapping.len() == 0,
            r.view_index().empty_dirs.len() == 0,
    {
        Builder {
            index: Index::new(MAGIC),
            originals: Vec::new(),
            cursor: FIRST_CHUNK,
            duplicates: Ghost(0),
        }
    }

    /// Where the next stored chunk starts.
    pub fn next_chunk_offset(&self) -> (r: u64)
        ensures
            r == self.next_offset(),
    {
        self.cursor
    }

    /// The stored chunks whose content has digest `digest`, in the order
    /// they were written, each with the path whose content it holds.
    pub fn dedup_candidates(&self, digest: &[u8; 32]) -> (r: Vec<(usize, String)>)
        requires
            self.wf(),
        ensures
            forall|k: int|
                0 <= k < r@.len() ==> (#[trigger] r@[k]).0 < self.view_index().hashes.len()
                    && self.view_index().hashes[r@[k].0 as int].1 == *digest && r@[k].1@
                    == self.original(r@[k].0 as int),
            forall|k: int, l: int| 0 <= k < l < r@.len() ==> (#[trigger] r@[k]).0 < (#[trigger] r@[l]).0,
            forall|j: int|
                0 <= j < self.view_index().hashes.len() && (#[trigger] self.view_index().hashes[j]).1
                    == *digest ==> exists|k: int| 0 <= k < r@.len() && r@[k].0 == j,
    {
        let mut out: Vec<(usize, String)> = Vec::new();
        let mut j: usize = 0;
        while j < self.index.hashes.len()
            invariant
                self.wf(),
                0 <= j <= self.index.hashes.len(),
                forall|k: int|
                    0 <= k < out@.len() ==> (#[trigger] out@[k]).0 < j && self.index@.hashes[out@[k].0 as int].1
                        == *digest && out@[k].1@ == self.original(out@[k].0 as int),
                forall|k: int, l: int| 0 <= k < l < out@.len() ==> (#[trigger] out@[k]).0 < (#[trigger] out@[l]).0,
                forall|i: int|
                    0 <= i < j && (#[trigger] self.index@.hashes[i]).1 == *digest ==> exists|k: int|
                        0 <= k < out@.len() && out@[k].0 == i,
            decreases self.index.hashes.len() - j,
        {
            if digests_equal(&self.index.hashes[j].1, digest) {
                let p = self.originals[j].clone();
                let ghost before = out@;
                out.push((j, p));
                assert(out@[before.len() as int].0 == j);
                assert forall|i: int|
                    0 <= i < j + 1 && (#[trigger] self.index@.hashes[i]).1 == *digest implies exists|k: int|
                    0 <= k < out@.len() && out@[k].0 == i by {
                    if i < j {
                        let k = choose|k: int| 0 <= k < before.len() && before[k].0 == i;
                        assert(out@[k].0 == i);
                    } else {
                        assert(out@[before.len() as int].0 == i);
                    }
                }
            }
            j = j + 1;
        }
        out
    }

    /// Records that file `path` has the same content as stored chunk `j`.
    pub fn record_duplicate(&mut self, path: String, j: usize)
        requires
            old(self).wf(),
            j < old(self).view_index().hashes.len(),
        ensures
            final(self).wf(),
            final(self).view_index() == (IndexView {
                mapping: old(self).view_index().mapping.push((path@, old(self).view_index().hashes[j as int].0)),
                ..old(self).view_index()
            }),
            final(self).next_offset() == old(self).next_offset(),
            final(self).duplicates_recorded() == old(self).duplicates_recorded() + 1,
    {
        let c = self.index.hashes[j].0;
        self.duplicates = Ghost(self.duplicates@ + 1);
        let ghost v0 = self.index@;
        let ghost p = path@;
        self.index.mapping.push((path, c));
        assert(self.index@.mapping =~= v0.mapping.push((p, c)));
        assert forall|i: int| 0 <= i < self.index@.mapping.len() implies exists|k: int|
            0 <= k < self.index@.hashes.len() && (#[trigger] self.index@.hashes[k]).0
                == (#[trigger] self.index@.mapping[i]).1 by {
            if i < v0.mapping.len() {
                assert(self.index@.mapping[i] == v0.mapping[i]);
            } else {
                assert(self.index@.hashes[j as int].0 == c);
            }
        }
        assert forall|k: int| 0 <= k < self.index@.hashes.len() implies #[trigger] self.index@.mapping.contains(
            (self.originals@[k]@, self.index@.hashes[k].0),
        ) by {
            assert(v0.mapping.contains((self.originals@[k]@, v0.hashes[k].0)));
            let i = choose|i: int| 0 <= i < v0.mapping.len() && v0.mapping[i] == (self.originals@[k]@, v0.hashes[k].0);
            assert(self.index@.mapping[i] == v0.mapping[i]);
        }
    }

    /// Records that file `path`, of `size` bytes with digest `digest`, was
    /// stored as a new chunk of `chunk_len` bytes at the next offset.
    pub fn record_chunk(&mut self, path: String, digest: [u8; 32], size: u64, chunk_len: u64)
        requires
            old(self).wf(),
            chunk_len > 0,
            old(self).next_offset() + chunk_len <= u64::MAX,
        ensures
            final(self).wf(),
            ({
                let v = old(self).view_index();
                let c = (old(self).next_offset(), chunk_len);
                final(self).view_index() == (IndexView {
                    hashes: v.hashes.push((c, digest)),
                    sizes: v.sizes.push((c.0, size)),
                    mapping: v.mapping.push((path@, c)),
                    ..v
                })
            }),
            final(self).next_offset() == old(self).next_offset() + chunk_len,
            final(self).duplicates_recorded() == old(self).duplicates_recorded(),
    {
        let c: ChunkRef = (self.cursor, chunk_len);
        let ghost v0 = self.index@;
        let ghost o0 = self.originals@;
        let ghost p = path@;
        let orig = path.clone();
        self.index.mapping.push((path, c));
        self.index.hashes.push((c, digest));
        self.index.sizes.push((c.0, size));
        self.originals.push(orig);
        self.cursor = self.cursor + chunk_len;
        let ghost v = self.index@;
        assert(v.mapping =~= v0.mapping.push((p, c)));
        assert(v.hashes =~= v0.hashes.push((c, digest)));
        assert(v.sizes =~= v0.sizes.push((c.0, size)));
        let ghost n = v0.hashes.len();
        assert(v.hashes[n as int].0 == c);
        assert forall|j: int, k: int| 0 <= j < k < v.hashes.len() implies (#[trigger] v.hashes[j]).0.0
            + v.hashes[j].0.1 <= (#[trigger] v.hashes[k]).0.0 by {
            if k < n {
                assert(v.hashes[j] == v0.hashes[j] && v.hashes[k] == v0.hashes[k]);
            } else {
                assert(v.hashes[j] == v0.hashes[j]);
                assert(v0.hashes[j].0.0 + v0.hashes[j].0.1 <= c.0);
            }
        }
        assert forall|i: int| 0 <= i < v.mapping.len() implies exists|k: int|
            0 <= k < v.hashes.len() && (#[trigger] v.hashes[k]).0 == (#[trigger] v.mapping[i]).1 by {
            if i < v0.mapping.len() {
                let k = choose|k: int| 0 <= k < v0.hashes.len() && v0.hashes[k].0 == v0.mapping[i].1;
                assert(v.hashes[k] == v0.hashes[k]);
            } else {
                assert(v.mapping[i].1 == v.hashes[n as int].0);
            }
        }
        assert forall|k: int| 0 <= k < v.hashes.len() implies #[trigger] v.mapping.contains(
            (self.originals@[k]@, v.hashes[k].0),
        ) by {
            if k < n {
                assert(v0.mapping.contains((o0[k]@, v0.hashes[k].0)));
                let i = choose|i: int| 0 <= i < v0.mapping.len() && v0.mapping[i] == (o0[k]@, v0.hashes[k].0);
                assert(v.mapping[i] == v0.mapping[i]);
                assert(self.originals@[k] == o0[k]);
            } else {
                assert(v.mapping[v0.mapping.len() as int] == (p, c));
                assert(self.originals@[k]@ == p);
            }
        }
        assert forall|i: int| 0 <= i < v.sizes.len() implies #[trigger] v.sizes[i].0 == v.hashes[i].0.0 by {
            if i < n {
                assert(v.sizes[i] == v0.sizes[i] && v.hashes[i] == v0.hashes[i]);
            }
        }
    }

    /// Records that directory `path` holds no files.
    pub fn record_empty_dir(&mut self, path: String)
        requires
            old(self).wf(),
        ensures
            final(self).wf(),
            final(self).view_index() == (IndexView {
                empty_dirs: old(self).view_index().empty_dirs.push(path@),
                ..old(self).view_index()
            }),
            final(self).next_offset() == old(self).next_offset(),
            final(self).duplicates_recorded() == old(self).duplicates_recorded(),
    {
        let ghost v0 = self.index@;
        let ghost p = path@;
        self.index.empty_dirs.push(path);
        assert(self.index@.empty_dirs =~= v0.empty_dirs.push(p));
        assert(self.index@.mapping =~= v0.mapping);
        assert(self.index@.hashes =~= v0.hashes);
        assert(self.index@.sizes =~= v0.sizes);
        assert(self.index@ == (IndexView { empty_dirs: v0.empty_dirs.push(p), ..v0 }));

    }

    /// The index of everything recorded.
    pub fn finish(self) -> (r: Index)
        requires
            self.wf(),
        ensures
            r@ == self.view_index(),
            sizes_parallel(r@),
            sizes_known(r@),
            with_aligned_sizes(r@) == r@,
            r@.magic_number == MAGIC,
    {
        proof {
            lemma_built_sizes_aligned(self);
        }
        self.index
    }
}

/// The stored value for key `k` is that of the entry with key `k` where no
/// earlier entry has it.
pub proof fn lemma_lookup_first<K, V>(s: Seq<(K, V)>, k: K, j: int)
    requires
        0 <= j < s.len(),
        s[j].0 == k,
        forall|i: int| 0 <= i < j ==> #[trigger] s[i].0 != k,
    ensures
        lookup(s, k) == Some(s[j].1),
    decreases j,
{
    if j > 0 {
        let t = s.drop_first();
        assert forall|i: int| 0 <= i < j - 1 implies #[trigger] t[i].0 != k by {
            assert(s[i + 1].0 != k);
        }
        lemma_lookup_first(t, k, j - 1);
    }
}

/// In the index of a build, every archived file's chunk has its digest and
/// its size, every digest belongs to a chunk that some file uses, and the
/// chunks do not overlap.
pub proof fn lemma_built_index_consistent(b: Builder)
    requires
        b.wf(),
    ensures
        ({
            let v = b.view_index();
            &&& forall|i: int|
                0 <= i < v.mapping.len() ==> (#[trigger] v.mapping[i]).1.0 >= 8 && v.digest_at(
                    v.mapping[i].1.0,
                ) is Some && lookup(v.sizes, v.mapping[i].1.0) is Some
            &&& forall|j: int| 0 <= j < v.hashes.len() ==> uses_offset(v.mapping, (#[trigger] v.hashes[j]).0.0)
            &&& forall|j: int, k: int|
                0 <= j < k < v.hashes.len() ==> (#[trigger] v.hashes[j]).0.0 + v.hashes[j].0.1
                    <= (#[trigger] v.hashes[k]).0.0
        }),
{
    let v = b.view_index();
    assert forall|i: int| 0 <= i < v.mapping.len() implies (#[trigger] v.mapping[i]).1.0 >= 8 && v.digest_at(
        v.mapping[i].1.0,
    ) is Some && lookup(v.sizes, v.mapping[i].1.0) is Some by {
        let j = choose|j: int| 0 <= j < v.hashes.len() && (#[trigger] v.hashes[j]).0 == v.mapping[i].1;
        let o = v.mapping[i].1.0;
        let t = by_offset(v.hashes);
        assert forall|l: int| 0 <= l < j implies #[trigger] t[l].0 != o by {
            assert(v.hashes[l].0.0 + v.hashes[l].0.1 <= v.hashes[j].0.0);
            assert(v.hashes[l].0.1 > 0);
        }
        lemma_lookup_first(t, o, j);
        assert forall|l: int| 0 <= l < j implies #[trigger] v.sizes[l].0 != o by {
            assert(v.sizes[l].0 == v.hashes[l].0.0);
            assert(v.hashes[l].0.0 + v.hashes[l].0.1 <= v.hashes[j].0.0);
            assert(v.hashes[l].0.1 > 0);
        }
        assert(v.sizes[j].0 == v.hashes[j].0.0);
        lemma_lookup_first(v.sizes, o, j);
    }
    assert forall|j: int| 0 <= j < v.hashes.len() implies uses_offset(v.mapping, (#[trigger] v.hashes[j]).0.0) by {
        assert(v.mapping.contains((b.original(j), v.hashes[j].0)));
        let i = choose|i: int| 0 <= i < v.mapping.len() && v.mapping[i] == (b.original(j), v.hashes[j].0);
        assert(v.mapping[i].1.0 == v.hashes[j].0.0);
    }
}

} // verus!

verus! {

/// The index of a build reads back from its record exactly: the same files,
/// chunks, digests, sizes and empty directories.
pub proof fn lemma_built_index_reads_back(b: Builder, rest: Seq<u8>)
    requires
        b.wf(),
        crate::codec::encodable(b.view_index()),
    ensures
        crate::codec::parse_index(crate::codec::index_enc(b.view_index()) + rest) == Ok::<IndexView, ArchiveError>(
            b.view_index(),
        ),
{
    lemma_built_sizes_aligned(b);
    crate::codec::lemma_index_round_trip(b.view_index(), rest);
}

/// In a build, each digest's size is the one listed beside it, as chunk
/// offsets only grow.
pub proof fn lemma_built_sizes_aligned(b: Builder)
    requires
        b.wf(),
    ensures
        sizes_known(b.view_index()),
        with_aligned_sizes(b.view_index()) == b.view_index(),
{
    let v = b.view_index();
    assert forall|i: int| 0 <= i < v.hashes.len() implies lookup(v.sizes, (#[trigger] v.hashes[i]).0.0) == Some(
        v.sizes[i].1,
    ) by {
        let o = v.hashes[i].0.0;
        assert forall|l: int| 0 <= l < i implies #[trigger] v.sizes[l].0 != o by {
            assert(v.sizes[l].0 == v.hashes[l].0.0);
            assert(v.hashes[l].0.0 + v.hashes[l].0.1 <= v.hashes[i].0.0);
            assert(v.hashes[l].0.1 > 0);
        }
        assert(v.sizes[i].0 == v.hashes[i].0.0);
        lemma_lookup_first(v.sizes, o, i);
    }
    lemma_aligned_sizes_kept(v);
}

} // verus!

verus! {

/// What comparing one block of each of two files shows.
#[derive(Clone, Copy, Debug, PartialEq, Eq, Structural)]
pub enum BlockOutcome {
    /// Both files ended together: their contents are equal.
    Equal,
    /// The blocks differ: so do the files.
    Differ,
    /// The blocks agree: compare the next ones.
    More,
}

/// Compares the next block read from each of two files.
pub fn compare_blocks(a: &[u8], b: &[u8]) -> (r: BlockOutcome)
    ensures
        r == if a@.len() != b@.len() {
            BlockOutcome::Differ
        } else if a@.len() == 0 {
            BlockOutcome::Equal
        } else if a@ != b@ {
            BlockOutcome::Differ
        } else {
            BlockOutcome::More
        },
{
    if a.len() != b.len() {
        return BlockOutcome::Differ;
    }
    if a.len() == 0 {
        return BlockOutcome::Equal;
    }
    let mut i: usize = 0;
    while i < a.len()
        invariant
            a.len() == b.len(),
            0 <= i <= a.len(),
            forall|j: int| 0 <= j < i ==> a@[j] == b@[j],
        decreases a.len() - i,
    {
        if a[i] != b[i] {
            assert(a@[i as int] != b@[i as int]);
            return BlockOutcome::Differ;
        }
        i = i + 1;
    }
    assert(a@ =~= b@);
    BlockOutcome::More
}

/// Each archived file either holds a stored chunk's content first or was
/// recorded as a duplicate: the mapping exceeds the stored chunks by the
/// number of duplicates.
pub proof fn lemma_duplicates_counted(b: Builder)
    requires
        b.wf(),
    ensures
        b.view_index().mapping.len() - b.view_index().hashes.len() == b.duplicates_recorded(),
{
}

/// A file recorded as a duplicate of stored chunk `j` points at the very
/// chunk, offset and length, that the file holding that content points at.
pub proof fn lemma_duplicates_share_chunk(b: Builder, j: int)
    requires
        b.wf(),
        0 <= j < b.view_index().hashes.len(),
    ensures
        b.view_index().mapping.contains((b.original(j), b.view_index().hashes[j].0)),
{
}

} // verus!
