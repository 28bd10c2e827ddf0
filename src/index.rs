//! The index: chunks, their sizes and digests, the path to chunk mapping and
//! the empty directories, with the path operations over them.
use crate::error::ArchiveError;
use crate::path::{
    basename, first_component, has_sep, join, parent, strip, under, is_under,
    strip_under, first_component_of, join_path, basename_of, parent_of, has_parent,
    name_matches, contains, lower_of, lowercase,
};
use vstd::prelude::*;

verus! {

/// The magic number that frames an archive and is stored in its index.
pub const MAGIC: u64 = 0xA9A98D26AA1F3FDD;

/// A chunk: absolute offset in the archive and encrypted length.
pub type ChunkRef = (u64, u64);

/// The index of an archive.
///
/// Each of `hashes`, `sizes` and `mapping` is a list of key/value entries;
/// a lookup finds the first entry with the key.
#[derive(Clone, Debug)]
pub struct Index {
    /// Content digest per stored chunk, keyed by the chunk.
    pub hashes: Vec<(ChunkRef, [u8; 32])>,
    /// Plaintext length per chunk, keyed by chunk offset.
    pub sizes: Vec<(u64, u64)>,
    /// Archived file path to chunk.
    pub mapping: Vec<(String, ChunkRef)>,
    /// Directories that hold no files.
    pub empty_dirs: Vec<String>,
    pub magic_number: u64,
}

/// The mathematical content of an [`Index`].
pub struct IndexView {
    pub hashes: Seq<(ChunkRef, [u8; 32])>,
    pub sizes: Seq<(u64, u64)>,
    pub mapping: Seq<(Seq<char>, ChunkRef)>,
    pub empty_dirs: Seq<Seq<char>>,
    pub magic_number: u64,
}

pub open spec fn entry_view(e: (String, ChunkRef)) -> (Seq<char>, ChunkRef) {
    (e.0@, e.1)
}

pub open spec fn string_view(s: String) -> Seq<char> {
    s@
}

impl View for Index {
    type V = IndexView;

    open spec fn view(&self) -> IndexView {
        IndexView {
            hashes: self.hashes@,
            sizes: self.sizes@,
            mapping: self.mapping@.map_values(|e: (String, ChunkRef)| entry_view(e)),
            empty_dirs: self.empty_dirs@.map_values(|s: String| string_view(s)),
            magic_number: self.magic_number,
        }
    }
}

/// The value of the first entry of `s` with key `k`.
pub open spec fn lookup<K, V>(s: Seq<(K, V)>, k: K) -> Option<V>
    decreases s.len(),
{
    if s.len() == 0 {
        None
    } else if s[0].0 == k {
        Some(s[0].1)
    } else {
        lookup(s.drop_first(), k)
    }
}

pub open spec fn has_key<K, V>(s: Seq<(K, V)>, k: K) -> bool {
    exists|i: int| 0 <= i < s.len() && #[trigger] s[i].0 == k
}

pub proof fn lemma_lookup_step<K, V>(s: Seq<(K, V)>, k: K, i: int)
    requires
        0 <= i < s.len(),
    ensures
        lookup(s.subrange(i, s.len() as int), k) == if s[i].0 == k {
            Some(s[i].1)
        } else {
            lookup(s.subrange(i + 1, s.len() as int), k)
        },
{
    assert(s.subrange(i, s.len() as int).drop_first() == s.subrange(i + 1, s.len() as int));
}

pub proof fn lemma_lookup_has_key<K, V>(s: Seq<(K, V)>, k: K)
    ensures
        lookup(s, k) is Some <==> has_key(s, k),
        lookup(s, k) is Some ==> exists|i: int|
            0 <= i < s.len() && s[i].0 == k && s[i].1 == lookup(s, k)->0,
    decreases s.len(),
{
    if s.len() > 0 {
        lemma_lookup_has_key(s.drop_first(), k);
        if s[0].0 != k {
            if has_key(s, k) {
                let i = choose|i: int| 0 <= i < s.len() && #[trigger] s[i].0 == k;
                assert(s.drop_first()[i - 1].0 == k);
            }
            if lookup(s, k) is Some {
                let j = choose|j: int|
                    0 <= j < s.len() - 1 && s.drop_first()[j].0 == k && s.drop_first()[j].1
                        == lookup(s, k)->0;
                assert(s[j + 1].0 == k);
            }
        }
    }
}

/// Digest entries keyed by chunk offset alone.
pub open spec fn by_offset<V>(s: Seq<(ChunkRef, V)>) -> Seq<(u64, V)> {
    s.map_values(|e: (ChunkRef, V)| (e.0.0, e.1))
}

impl IndexView {
    /// The digest stored for the chunk at offset `o`.
    pub open spec fn digest_at(self, o: u64) -> Option<[u8; 32]> {
        lookup(by_offset(self.hashes), o)
    }

    pub open spec fn is_file(self, p: Seq<char>) -> bool {
        has_key(self.mapping, p)
    }

    /// Not a file, and the root, or an ancestor of an archived path, or a
    /// listed empty directory or an ancestor of one.
    pub open spec fn is_dir(self, p: Seq<char>) -> bool {
        !self.is_file(p) && (p.len() == 0 || self.file_below(p) || self.empty_dir_below(p))
    }

    /// Some archived file lies at or below `p`.
    pub open spec fn file_below(self, p: Seq<char>) -> bool {
        exists|i: int| 0 <= i < self.mapping.len() && under(#[trigger] self.mapping[i].0, p)
    }

    /// Some listed empty directory lies at or below `p`.
    pub open spec fn empty_dir_below(self, p: Seq<char>) -> bool {
        exists|i: int| 0 <= i < self.empty_dirs.len() && under(#[trigger] self.empty_dirs[i], p)
    }

    pub open spec fn is_empty_dir(self, p: Seq<char>) -> bool {
        self.empty_dirs.contains(p)
    }

    /// The size stored for the chunk of file `p`.
    pub open spec fn file_size(self, p: Seq<char>) -> Option<u64> {
        match lookup(self.mapping, p) {
            Some(c) => lookup(self.sizes, c.0),
            None => None,
        }
    }

    /// What `du` answers for `p`.
    pub open spec fn du(self, p: Seq<char>) -> Result<u64, ArchiveError> {
        if self.is_file(p) {
            match self.file_size(p) {
                Some(n) => Ok(n),
                None => Err(ArchiveError::Format),
            }
        } else if self.is_dir(p) {
            match du_sum(self.sizes, self.mapping, p) {
                Some(t) => if t <= u64::MAX {
                    Ok(t as u64)
                } else {
                    Err(ArchiveError::Format)
                },
                None => Err(ArchiveError::Format),
            }
        } else {
            Err(ArchiveError::NotFound)
        }
    }
}

/// The sum of the sizes of the entries of `m` that lie below `p`; `None`
/// where one of them has no size.
pub open spec fn du_sum(sizes: Seq<(u64, u64)>, m: Seq<(Seq<char>, ChunkRef)>, p: Seq<char>) -> Option<nat>
    decreases m.len(),
{
    if m.len() == 0 {
        Some(0)
    } else {
        let rest = du_sum(sizes, m.drop_last(), p);
        if !under(m.last().0, p) {
            rest
        } else {
            match (rest, lookup(sizes, m.last().1.0)) {
                (Some(a), Some(b)) => Some((a + b) as nat),
                _ => None,
            }
        }
    }
}

pub(crate) fn lookup_offset<V: Copy>(s: &Vec<(u64, V)>, k: u64) -> (r: Option<V>)
    ensures
        r == lookup(s@, k),
{
    let mut i: usize = 0;
    assert(s@.subrange(0, s@.len() as int) == s@);
    while i < s.len()
        invariant
            0 <= i <= s.len(),
            lookup(s@, k) == lookup(s@.subrange(i as int, s.len() as int), k),
        decreases s.len() - i,
    {
        proof {
            lemma_lookup_step(s@, k, i as int);
        }
        if s[i].0 == k {
            return Some(s[i].1);
        }
        i = i + 1;
    }
    None
}

fn lookup_digest(s: &Vec<(ChunkRef, [u8; 32])>, o: u64) -> (r: Option<[u8; 32]>)
    ensures
        r == lookup(by_offset(s@), o),
{
    let ghost t = by_offset(s@);
    let mut i: usize = 0;
    assert(t.subrange(0, t.len() as int) == t);
    while i < s.len()
        invariant
            t == by_offset(s@),
            0 <= i <= s.len(),
            lookup(t, o) == lookup(t.subrange(i as int, t.len() as int), o),
        decreases s.len() - i,
    {
        proof {
            lemma_lookup_step(t, o, i as int);
        }
        if s[i].0.0 == o {
            return Some(s[i].1);
        }
        i = i + 1;
    }
    None
}

impl Index {
    /// An index with no entries.
    pub fn new(magic_number: u64) -> (r: Index)
        ensures
            r@.hashes.len() == 0,
            r@.sizes.len() == 0,
            r@.mapping.len() == 0,
            r@.empty_dirs.len() == 0,
            r@.magic_number == magic_number,
    {
        Index {
            hashes: Vec::new(),
            sizes: Vec::new(),
            mapping: Vec::new(),
            empty_dirs: Vec::new(),
            magic_number,
        }
    }

    /// The chunk that file `path` is stored in.
    pub fn index(&self, path: &str) -> (r: Option<ChunkRef>)
        ensures
            r == lookup(self@.mapping, path@),
    {
        let key = path.to_owned();
        let mut i: usize = 0;
        assert(self@.mapping.subrange(0, self@.mapping.len() as int) == self@.mapping);
        while i < self.mapping.len()
            invariant
                0 <= i <= self.mapping.len(),
                key@ == path@,
                lookup(self@.mapping, path@) == lookup(
                    self@.mapping.subrange(i as int, self@.mapping.len() as int),
                    path@,
                ),
            decreases self.mapping.len() - i,
        {
            proof {
                lemma_lookup_step(self@.mapping, path@, i as int);
            }
            if self.mapping[i].0 == key {
                return Some(self.mapping[i].1);
            }
            i = i + 1;
        }
        None
    }

    /// The size stored for the chunk of file `path`.
    pub fn file_size(&self, path: &str) -> (r: Option<u64>)
        ensures
            r == self@.file_size(path@),
    {
        match self.index(path) {
            Some(c) => lookup_offset(&self.sizes, c.0),
            None => None,
        }
    }

    /// Offset, length and digest of the chunk of file `path`.
    pub fn index_length_and_hash(&self, path: &str) -> (r: Result<(u64, u64, [u8; 32]), ArchiveError>)
        ensures
            match lookup(self@.mapping, path@) {
                None => r == Err::<(u64, u64, [u8; 32]), ArchiveError>(ArchiveError::NotFound),
                Some(c) => match self@.digest_at(c.0) {
                    None => r == Err::<(u64, u64, [u8; 32]), ArchiveError>(ArchiveError::Format),
                    Some(h) => r == Ok::<(u64, u64, [u8; 32]), ArchiveError>((c.0, c.1, h)),
                },
            },
    {
        match self.index(path) {
            None => Err(ArchiveError::NotFound),
            Some(c) => match lookup_digest(&self.hashes, c.0) {
                None => Err(ArchiveError::Format),
                Some(h) => Ok((c.0, c.1, h)),
            },
        }
    }

    /// Whether `path` is an archived file.
    pub fn is_file(&self, path: &str) -> (r: bool)
        ensures
            r == self@.is_file(path@),
    {
        proof {
            lemma_lookup_has_key(self@.mapping, path@);
        }
        self.index(path).is_some()
    }

    /// Whether `path` is a directory of the archive: the root, or a path that
    /// is not a file and lies above an archived file, above a listed empty
    /// directory, or is one.
    pub fn is_dir(&self, path: &str) -> (r: bool)
        ensures
            r == self@.is_dir(path@),
    {
        if self.is_file(path) {
            return false;
        }
        if path.unicode_len() == 0 {
            return true;
        }
        let mut i: usize = 0;
        while i < self.mapping.len()
            invariant
                0 <= i <= self.mapping.len(),
                !self@.is_file(path@),
                forall|j: int| 0 <= j < i ==> !under(#[trigger] self@.mapping[j].0, path@),
            decreases self.mapping.len() - i,
        {
            if is_under(self.mapping[i].0.as_str(), path) {
                assert(self@.mapping[i as int] == entry_view(self.mapping@[i as int]));
                assert(under(self@.mapping[i as int].0, path@));
                assert(exists|i: int| 0 <= i < self@.mapping.len() && under(#[trigger] self@.mapping[i].0, path@));
                return true;
            }
            i = i + 1;
        }
        let mut j: usize = 0;
        while j < self.empty_dirs.len()
            invariant
                0 <= j <= self.empty_dirs.len(),
                !self@.is_file(path@),
                path@.len() != 0,
                !self@.file_below(path@),
                forall|l: int| 0 <= l < j ==> !under(#[trigger] self@.empty_dirs[l], path@),
            decreases self.empty_dirs.len() - j,
        {
            if is_under(self.empty_dirs[j].as_str(), path) {
                assert(self@.empty_dirs[j as int] == string_view(self.empty_dirs@[j as int]));
                assert(under(self@.empty_dirs[j as int], path@));
                assert(exists|i: int| 0 <= i < self@.empty_dirs.len() && under(#[trigger] self@.empty_dirs[i], path@));
                return true;
            }
            j = j + 1;
        }
        false
    }

    fn du_of_dir(&self, path: &str) -> (r: Result<u64, ArchiveError>)
        ensures
            r == match du_sum(self@.sizes, self@.mapping, path@) {
                Some(t) => if t <= u64::MAX {
                    Ok::<u64, ArchiveError>(t as u64)
                } else {
                    Err(ArchiveError::Format)
                },
                None => Err(ArchiveError::Format),
            },
    {
        let mut acc: u128 = 0;
        let mut missing = false;
        let mut i: usize = 0;
        while i < self.mapping.len()
            invariant
                0 <= i <= self.mapping.len(),
                missing <==> du_sum(self@.sizes, self@.mapping.take(i as int), path@) is None,
                !missing ==> acc == du_sum(self@.sizes, self@.mapping.take(i as int), path@)->0,
                acc <= i * 0xFFFF_FFFF_FFFF_FFFFu128,
                i <= 0xFFFF_FFFF_FFFF_FFFFu128,
            decreases self.mapping.len() - i,
        {
            let ghost m = self@.mapping;
            assert(m.take(i + 1).drop_last() == m.take(i as int));
            assert(m.take(i + 1).last() == m[i as int]);
            if is_under(self.mapping[i].0.as_str(), path) {
                match lookup_offset(&self.sizes, self.mapping[i].1.0) {
                    Some(n) => {
                        assert((i + 1) * 0xFFFF_FFFF_FFFF_FFFFu128 == i * 0xFFFF_FFFF_FFFF_FFFFu128
                            + 0xFFFF_FFFF_FFFF_FFFFu128) by (nonlinear_arith);
                        assert(i * 0xFFFF_FFFF_FFFF_FFFFu128 <= 0xFFFF_FFFF_FFFF_FFFEu128
                            * 0xFFFF_FFFF_FFFF_FFFFu128) by (nonlinear_arith)
                            requires
                                i < 0xFFFF_FFFF_FFFF_FFFFu128,
                        ;
                        acc = acc + n as u128;
                    },
                    None => {
                        missing = true;
                    },
                }
            }
            i = i + 1;
        }
        assert(self@.mapping.take(self@.mapping.len() as int) == self@.mapping);
        if missing || acc > 0xFFFF_FFFF_FFFF_FFFFu128 {
            Err(ArchiveError::Format)
        } else {
            Ok(acc as u64)
        }
    }

    /// The uncompressed size of file `path`, or the sum of the sizes of the
    /// files below directory `path`: not found for a path that is neither;
    /// malformed where a chunk has no size or the sum does not fit a `u64`.
    pub fn du(&self, path: &str) -> (r: Result<u64, ArchiveError>)
        ensures
            r == self@.du(path@),
    {
        if self.is_file(path) {
            match self.index(path) {
                Some(c) => match lookup_offset(&self.sizes, c.0) {
                    Some(n) => Ok(n),
                    None => Err(ArchiveError::Format),
                },
                None => Err(ArchiveError::Format),
            }
        } else if self.is_dir(path) {
            self.du_of_dir(path)
        } else {
            Err(ArchiveError::NotFound)
        }
    }
}

} // verus!

verus! {

/// An entry of the mapping, re-rooted at `p`, if it lies below `p`.
pub open spec fn sub_entry(p: Seq<char>) -> spec_fn((Seq<char>, ChunkRef)) -> Option<(Seq<char>, ChunkRef)> {
    |e: (Seq<char>, ChunkRef)|
        if under(e.0, p) {
            Some((strip(e.0, p), e.1))
        } else {
            None
        }
}

/// A path re-rooted at `p`, if it lies below `p`.
pub open spec fn sub_path(p: Seq<char>) -> spec_fn(Seq<char>) -> Option<Seq<char>> {
    |e: Seq<char>|
        if under(e, p) {
            Some(strip(e, p))
        } else {
            None
        }
}

/// Some entry of `m` points into the chunk at offset `o`.
pub open spec fn uses_offset(m: Seq<(Seq<char>, ChunkRef)>, o: u64) -> bool {
    exists|i: int| 0 <= i < m.len() && #[trigger] m[i].1.0 == o
}

/// An entry keyed by a chunk offset, kept if `m` uses that chunk.
pub open spec fn keep_used<V>(m: Seq<(Seq<char>, ChunkRef)>) -> spec_fn((u64, V)) -> Option<(u64, V)> {
    |e: (u64, V)|
        if uses_offset(m, e.0) {
            Some(e)
        } else {
            None
        }
}

/// A digest entry, kept if `m` uses its chunk.
pub open spec fn keep_used_digest(m: Seq<(Seq<char>, ChunkRef)>) -> spec_fn((ChunkRef, [u8; 32])) -> Option<(ChunkRef, [u8; 32])> {
    |e: (ChunkRef, [u8; 32])|
        if uses_offset(m, e.0.0) {
            Some(e)
        } else {
            None
        }
}

pub open spec fn paths_view(v: Seq<String>) -> Seq<Seq<char>> {
    v.map_values(|s: String| string_view(s))
}

pub open spec fn entries_view(v: Seq<(String, ChunkRef)>) -> Seq<(Seq<char>, ChunkRef)> {
    v.map_values(|e: (String, ChunkRef)| entry_view(e))
}

/// The child of `p` through which path `k` (relative to `p`) is reached.
pub open spec fn child_via(p: Seq<char>, k: Seq<char>) -> Seq<char> {
    join(p, first_component(k))
}

/// The children of `p` through which the files of `m` (relative to `p`) are reached.
pub open spec fn file_children(p: Seq<char>, m: Seq<(Seq<char>, ChunkRef)>) -> Seq<Seq<char>> {
    m.map_values(|e: (Seq<char>, ChunkRef)| child_via(p, e.0))
}

/// The children of `p` through which the directories `d` (relative to `p`) are reached.
pub open spec fn dir_children(p: Seq<char>, d: Seq<Seq<char>>) -> Seq<Seq<char>> {
    d.map_values(|k: Seq<char>| child_via(p, k))
}

/// Every direct child of a directory is a path joined below it.
pub proof fn lemma_children_are_joined(v: IndexView, p: Seq<char>, c: Seq<char>)
    requires
        v.direct_children(p) is Ok,
        v.direct_children(p)->Ok_0.contains(c),
    ensures
        exists|x: Seq<char>| c == join(p, x),
{
    let s = v.subindex(p)->Ok_0;
    let a = file_children(p, s.mapping);
    let b = dir_children(p, s.empty_dirs);
    if a.to_set().contains(c) {
        let j = choose|j: int| 0 <= j < a.len() && a[j] == c;
        assert(c == join(p, first_component(s.mapping[j].0)));
    } else {
        assert(b.to_set().contains(c));
        let j = choose|j: int| 0 <= j < b.len() && b[j] == c;
        assert(c == join(p, first_component(s.empty_dirs[j])));
    }
}

/// What a search for the lowered pattern `lp` finds through path `c`: `c`
/// itself where its name matches, its parent where the parent's name matches.
pub open spec fn hit_set(c: Seq<char>, lp: Seq<char>) -> Set<Seq<char>> {
    let own = if contains(lower_of(basename(c)), lp) {
        Set::empty().insert(c)
    } else {
        Set::empty()
    };
    let up = if has_sep(c) && contains(lower_of(basename(parent(c))), lp) {
        Set::empty().insert(parent(c))
    } else {
        Set::empty()
    };
    own + up
}

/// What the first `n` of `cands` find.
pub open spec fn hits_upto(cands: Seq<Seq<char>>, lp: Seq<char>, n: int) -> Set<Seq<char>>
    decreases n,
{
    if n <= 0 {
        Set::empty()
    } else {
        hits_upto(cands, lp, n - 1) + hit_set(cands[n - 1], lp)
    }
}

impl IndexView {
    /// The index with no entries and this index's magic number.
    pub open spec fn emptied(self) -> IndexView {
        IndexView {
            hashes: Seq::empty(),
            sizes: Seq::empty(),
            mapping: Seq::empty(),
            empty_dirs: Seq::empty(),
            magic_number: self.magic_number,
        }
    }

    /// The index rooted at directory `p`.
    pub open spec fn subindex(self, p: Seq<char>) -> Result<IndexView, ArchiveError> {
        if self.is_empty_dir(p) {
            Ok(self.emptied())
        } else if !self.is_dir(p) {
            Err(ArchiveError::NotADirectory)
        } else {
            let m = self.mapping.filter_map(sub_entry(p));
            Ok(
                IndexView {
                    hashes: self.hashes.filter_map(keep_used_digest(m)),
                    sizes: self.sizes.filter_map(keep_used(m)),
                    mapping: m,
                    empty_dirs: self.empty_dirs.filter_map(sub_path(p)),
                    magic_number: self.magic_number,
                },
            )
        }
    }

    /// The paths one component below directory `p`.
    pub open spec fn direct_children(self, p: Seq<char>) -> Result<Set<Seq<char>>, ArchiveError> {
        match self.subindex(p) {
            Err(e) => Err(e),
            Ok(s) => Ok(file_children(p, s.mapping).to_set() + dir_children(p, s.empty_dirs).to_set()),
        }
    }

    /// The archived file paths followed by the empty directories.
    pub open spec fn all_paths(self) -> Seq<Seq<char>> {
        self.mapping.map_values(|e: (Seq<char>, ChunkRef)| e.0) + self.empty_dirs
    }

    /// What a search for the lowered pattern `lp` finds.
    pub open spec fn search(self, lp: Seq<char>) -> Set<Seq<char>> {
        hits_upto(self.all_paths(), lp, self.all_paths().len() as int)
    }
}

/// Appends `s` unless a path equal to it is there already.
fn push_unique(out: &mut Vec<String>, s: String)
    requires
        paths_view(old(out)@).no_duplicates(),
    ensures
        paths_view(final(out)@).no_duplicates(),
        paths_view(final(out)@).to_set() == paths_view(old(out)@).to_set().insert(s@),
{
    let ghost before = paths_view(out@);
    let mut i: usize = 0;
    while i < out.len()
        invariant
            out@ == old(out)@,
            before == paths_view(out@),
            before.no_duplicates(),
            0 <= i <= out.len(),
            forall|j: int| 0 <= j < i ==> before[j] != s@,
        decreases out.len() - i,
    {
        if out[i] == s {
            assert(before[i as int] == s@);
            assert(before.to_set().contains(s@));
            assert(before.to_set().insert(s@) =~= before.to_set());
            return;
        }
        i = i + 1;
    }
    let ghost sv = s@;
    out.push(s);
    assert(paths_view(out@) =~= before.push(sv));
    proof {
        before.lemma_push_to_set_commute(sv);
        assert(!before.contains(sv));
    }
}

impl Index {
    /// Whether `path` is a listed empty directory.
    pub fn lists_empty_dir(&self, path: &str) -> (r: bool)
        ensures
            r == self@.is_empty_dir(path@),
    {
        let key = path.to_owned();
        let mut i: usize = 0;
        while i < self.empty_dirs.len()
            invariant
                0 <= i <= self.empty_dirs.len(),
                key@ == path@,
                forall|j: int| 0 <= j < i ==> #[trigger] self@.empty_dirs[j] != path@,
            decreases self.empty_dirs.len() - i,
        {
            if self.empty_dirs[i] == key {
                assert(self@.empty_dirs[i as int] == path@);
                return true;
            }
            i = i + 1;
        }
        false
    }

    fn sub_mapping(&self, path: &str) -> (r: Vec<(String, ChunkRef)>)
        ensures
            entries_view(r@) == self@.mapping.filter_map(sub_entry(path@)),
    {
        let mut out: Vec<(String, ChunkRef)> = Vec::new();
        let mut i: usize = 0;
        let ghost m = self@.mapping;
        while i < self.mapping.len()
            invariant
                m == self@.mapping,
                0 <= i <= self.mapping.len(),
                entries_view(out@) == m.take(i as int).filter_map(sub_entry(path@)),
            decreases self.mapping.len() - i,
        {
            proof {
                m.lemma_filter_map_take_succ(sub_entry(path@), i as int);
            }
            let ghost before = entries_view(out@);
            if is_under(self.mapping[i].0.as_str(), path) {
                let k = strip_under(self.mapping[i].0.as_str(), path);
                let e = (k, self.mapping[i].1);
                out.push(e);
                assert(entries_view(out@) =~= before + seq![(strip(m[i as int].0, path@), m[i as int].1)]);
            }
            i = i + 1;
        }
        assert(m.take(m.len() as int) == m);
        out
    }

    fn sub_dirs(&self, path: &str) -> (r: Vec<String>)
        ensures
            paths_view(r@) == self@.empty_dirs.filter_map(sub_path(path@)),
    {
        let mut out: Vec<String> = Vec::new();
        let mut i: usize = 0;
        let ghost d = self@.empty_dirs;
        while i < self.empty_dirs.len()
            invariant
                d == self@.empty_dirs,
                0 <= i <= self.empty_dirs.len(),
                paths_view(out@) == d.take(i as int).filter_map(sub_path(path@)),
            decreases self.empty_dirs.len() - i,
        {
            proof {
                d.lemma_filter_map_take_succ(sub_path(path@), i as int);
            }
            let ghost before = paths_view(out@);
            if is_under(self.empty_dirs[i].as_str(), path) {
                let k = strip_under(self.empty_dirs[i].as_str(), path);
                out.push(k);
                assert(paths_view(out@) =~= before + seq![strip(d[i as int], path@)]);
            }
            i = i + 1;
        }
        assert(d.take(d.len() as int) == d);
        out
    }
}

fn uses_chunk(m: &Vec<(String, ChunkRef)>, o: u64) -> (r: bool)
    ensures
        r == uses_offset(entries_view(m@), o),
{
    let mut i: usize = 0;
    while i < m.len()
        invariant
            0 <= i <= m.len(),
            forall|j: int| 0 <= j < i ==> #[trigger] entries_view(m@)[j].1.0 != o,
        decreases m.len() - i,
    {
        if m[i].1.0 == o {
            assert(entries_view(m@)[i as int].1.0 == o);
            return true;
        }
        i = i + 1;
    }
    false
}

fn keep_used_entries<V: Copy>(s: &Vec<(u64, V)>, m: &Vec<(String, ChunkRef)>) -> (r: Vec<(u64, V)>)
    ensures
        r@ == s@.filter_map(keep_used::<V>(entries_view(m@))),
{
    let mut out: Vec<(u64, V)> = Vec::new();
    let mut i: usize = 0;
    while i < s.len()
        invariant
            0 <= i <= s.len(),
            out@ == s@.take(i as int).filter_map(keep_used::<V>(entries_view(m@))),
        decreases s.len() - i,
    {
        proof {
            s@.lemma_filter_map_take_succ(keep_used::<V>(entries_view(m@)), i as int);
        }
        if uses_chunk(m, s[i].0) {
            out.push(s[i]);
        }
        i = i + 1;
    }
    assert(s@.take(s@.len() as int) == s@);
    out
}

fn keep_used_digests(s: &Vec<(ChunkRef, [u8; 32])>, m: &Vec<(String, ChunkRef)>) -> (r: Vec<(ChunkRef, [u8; 32])>)
    ensures
        r@ == s@.filter_map(keep_used_digest(entries_view(m@))),
{
    let mut out: Vec<(ChunkRef, [u8; 32])> = Vec::new();
    let mut i: usize = 0;
    while i < s.len()
        invariant
            0 <= i <= s.len(),
            out@ == s@.take(i as int).filter_map(keep_used_digest(entries_view(m@))),
        decreases s.len() - i,
    {
        proof {
            s@.lemma_filter_map_take_succ(keep_used_digest(entries_view(m@)), i as int);
        }
        if uses_chunk(m, s[i].0.0) {
            out.push(s[i]);
        }
        i = i + 1;
    }
    assert(s@.take(s@.len() as int) == s@);
    out
}

impl Index {
    /// The index rooted at directory `subpath`: paths below it, re-rooted,
    /// with the digests and sizes of the chunks they use.
    pub fn subindex(&self, subpath: &str) -> (r: Result<Index, ArchiveError>)
        ensures
            match self@.subindex(subpath@) {
                Ok(v) => r is Ok && r->Ok_0@ == v,
                Err(e) => r == Err::<Index, ArchiveError>(e),
            },
    {
        if self.lists_empty_dir(subpath) {
            let r = Index::new(self.magic_number);
            assert(r@.mapping =~= Seq::<(Seq<char>, ChunkRef)>::empty());
            assert(r@.empty_dirs =~= Seq::<Seq<char>>::empty());
            assert(r@.hashes =~= Seq::<(ChunkRef, [u8; 32])>::empty());
            assert(r@.sizes =~= Seq::<(u64, u64)>::empty());
            return Ok(r);
        }
        if !self.is_dir(subpath) {
            return Err(ArchiveError::NotADirectory);
        }
        let mapping = self.sub_mapping(subpath);
        let empty_dirs = self.sub_dirs(subpath);
        let hashes = keep_used_digests(&self.hashes, &mapping);
        let sizes = keep_used_entries(&self.sizes, &mapping);
        let r = Index { hashes, sizes, mapping, empty_dirs, magic_number: self.magic_number };
        Ok(r)
    }
}

} // verus!

verus! {

impl Index {
    /// The paths one component below directory `path`, each once.
    pub fn get_direct_children(&self, path: &str) -> (r: Result<Vec<String>, ArchiveError>)
        ensures
            match self@.direct_children(path@) {
                Ok(s) => r is Ok && paths_view(r->Ok_0@).no_duplicates() && paths_view(
                    r->Ok_0@,
                ).to_set() == s,
                Err(e) => r == Err::<Vec<String>, ArchiveError>(e),
            },
    {
        let si = match self.subindex(path) {
            Ok(si) => si,
            Err(e) => return Err(e),
        };
        let ghost files = file_children(path@, si@.mapping);
        let ghost dirs = dir_children(path@, si@.empty_dirs);
        let mut out: Vec<String> = Vec::new();
        let mut i: usize = 0;
        while i < si.mapping.len()
            invariant
                0 <= i <= si.mapping.len(),
                files == file_children(path@, si@.mapping),
                paths_view(out@).no_duplicates(),
                paths_view(out@).to_set() == files.take(i as int).to_set(),
            decreases si.mapping.len() - i,
        {
            let first = first_component_of(si.mapping[i].0.as_str());
            let c = join_path(path, first.as_str());
            proof {
                assert(files.take(i + 1) == files.take(i as int).push(files[i as int]));
                files.take(i as int).lemma_push_to_set_commute(files[i as int]);
            }
            push_unique(&mut out, c);
            i = i + 1;
        }
        assert(files.take(files.len() as int) == files);
        let mut j: usize = 0;
        while j < si.empty_dirs.len()
            invariant
                0 <= j <= si.empty_dirs.len(),
                dirs == dir_children(path@, si@.empty_dirs),
                paths_view(out@).no_duplicates(),
                paths_view(out@).to_set() == files.to_set() + dirs.take(j as int).to_set(),
            decreases si.empty_dirs.len() - j,
        {
            let first = first_component_of(si.empty_dirs[j].as_str());
            let c = join_path(path, first.as_str());
            proof {
                assert(dirs.take(j + 1) == dirs.take(j as int).push(dirs[j as int]));
                dirs.take(j as int).lemma_push_to_set_commute(dirs[j as int]);
            }
            push_unique(&mut out, c);
            assert(paths_view(out@).to_set() =~= files.to_set() + dirs.take(j + 1).to_set());
            j = j + 1;
        }
        assert(dirs.take(dirs.len() as int) == dirs);
        Ok(out)
    }

    /// The paths whose last component contains `pattern`, ignoring case,
    /// and the parents whose last component does, each once.
    pub fn search(&self, pattern: &str) -> (r: Vec<String>)
        ensures
            paths_view(r@).no_duplicates(),
            paths_view(r@).to_set() == self@.search(lower_of(pattern@)),
    {
        let lp = lowercase(pattern);
        let ghost cands = self@.all_paths();
        let ghost nm = self.mapping.len() as int;
        let mut out: Vec<String> = Vec::new();
        let mut i: usize = 0;
        while i < self.mapping.len()
            invariant
                0 <= i <= self.mapping.len(),
                nm == self@.mapping.len(),
                cands == self@.all_paths(),
                lp@ == lower_of(pattern@),
                paths_view(out@).no_duplicates(),
                paths_view(out@).to_set() == hits_upto(cands, lp@, i as int),
            decreases self.mapping.len() - i,
        {
            assert(self.mapping[i as int].0@ == cands[i as int]);
            search_step(&mut out, &self.mapping[i].0, &lp);
            i = i + 1;
        }
        let mut j: usize = 0;
        while j < self.empty_dirs.len()
            invariant
                0 <= j <= self.empty_dirs.len(),
                nm == self@.mapping.len(),
                cands == self@.all_paths(),
                lp@ == lower_of(pattern@),
                paths_view(out@).no_duplicates(),
                paths_view(out@).to_set() == hits_upto(cands, lp@, nm + j),
            decreases self.empty_dirs.len() - j,
        {
            assert(self.empty_dirs[j as int]@ == cands[nm + j]);
            search_step(&mut out, &self.empty_dirs[j], &lp);
            j = j + 1;
        }
        out
    }
}

/// Adds what path `c` finds for the lowered pattern `lp`.
fn search_step(out: &mut Vec<String>, c: &String, lp: &String)
    requires
        paths_view(old(out)@).no_duplicates(),
    ensures
        paths_view(final(out)@).no_duplicates(),
        paths_view(final(out)@).to_set() == paths_view(old(out)@).to_set() + hit_set(c@, lp@),
{
    let ghost before = paths_view(out@).to_set();
    let name = basename_of(c.as_str());
    let lname = lowercase(name.as_str());
    if name_matches(lname.as_str(), lp.as_str()) {
        push_unique(out, c.clone());
    }
    if has_parent(c.as_str()) {
        let par = parent_of(c.as_str());
        let pname = basename_of(par.as_str());
        let lpname = lowercase(pname.as_str());
        if name_matches(lpname.as_str(), lp.as_str()) {
            push_unique(out, par);
        }
    }
    assert(paths_view(out@).to_set() =~= before + hit_set(c@, lp@));
}

} // verus!

verus! {

/// An item is kept by `filter_map` exactly where some input maps to it.
pub proof fn lemma_filter_map_has<A, B>(s: Seq<A>, f: spec_fn(A) -> Option<B>, b: B)
    ensures
        s.filter_map(f).contains(b) <==> exists|t: A| s.contains(t) && f(t) == Some(b),
    decreases s.len(),
{
    if s.filter_map(f).contains(b) {
        s.lemma_filter_map_contains(f, b);
    }
    if s.len() > 0 {
        let rest = s.drop_last();
        lemma_filter_map_has(rest, f, b);
        if exists|t: A| s.contains(t) && f(t) == Some(b) {
            let t = choose|t: A| s.contains(t) && f(t) == Some(b);
            let i = choose|i: int| 0 <= i < s.len() && s[i] == t;
            if i == s.len() - 1 {
                assert(s.filter_map(f) == rest.filter_map(f) + seq![b]);
                assert(s.filter_map(f)[rest.filter_map(f).len() as int] == b);
            } else {
                assert(rest[i] == t);
                assert(rest.contains(t));
                let k = choose|k: int| 0 <= k < rest.filter_map(f).len() && rest.filter_map(f)[k] == b;
                match f(s.last()) {
                    Some(x) => {
                        assert(s.filter_map(f) == rest.filter_map(f) + seq![x]);
                        assert(s.filter_map(f)[k] == b);
                    },
                    None => {},
                }
            }
        }
    }
}

/// The subindex of a directory holds exactly the entries below it, with
/// the directory stripped from their paths; its empty directories are
/// those below it, stripped likewise.
pub proof fn lemma_subindex_strips(v: IndexView, d: Seq<char>, e: (Seq<char>, ChunkRef), q: Seq<char>)
    requires
        v.is_dir(d),
        !v.is_empty_dir(d),
    ensures
        v.subindex(d) is Ok,
        v.subindex(d)->Ok_0.mapping.contains(e) <==> exists|t: (Seq<char>, ChunkRef)|
            v.mapping.contains(t) && under(t.0, d) && e == (strip(t.0, d), t.1),
        v.subindex(d)->Ok_0.empty_dirs.contains(q) <==> exists|k: Seq<char>|
            v.empty_dirs.contains(k) && under(k, d) && q == strip(k, d),
        v.subindex(d)->Ok_0.magic_number == v.magic_number,
{
    lemma_filter_map_has(v.mapping, sub_entry(d), e);
    lemma_filter_map_has(v.empty_dirs, sub_path(d), q);
}

/// A path is found by the first `n` candidates exactly where one of them
/// finds it.
proof fn lemma_hits_upto(cands: Seq<Seq<char>>, lp: Seq<char>, n: int, q: Seq<char>)
    requires
        0 <= n <= cands.len(),
    ensures
        hits_upto(cands, lp, n).contains(q) <==> exists|i: int| 0 <= i < n && #[trigger] hit_set(cands[i], lp).contains(q),
    decreases n,
{
    if n > 0 {
        lemma_hits_upto(cands, lp, n - 1, q);
        if hit_set(cands[n - 1], lp).contains(q) {
            assert(hits_upto(cands, lp, n).contains(q));
        }
    }
}

/// A search finds every path whose name contains the lowered pattern, and
/// the parent of every path whose parent's name contains it; and nothing
/// else.
pub proof fn lemma_search_covers(v: IndexView, lp: Seq<char>, q: Seq<char>)
    ensures
        v.search(lp).contains(q) <==> exists|i: int|
            0 <= i < v.all_paths().len() && #[trigger] hit_set(v.all_paths()[i], lp).contains(q),
        forall|i: int|
            0 <= i < v.all_paths().len() && contains(lower_of(basename(#[trigger] v.all_paths()[i])), lp)
                ==> v.search(lp).contains(v.all_paths()[i]),
        forall|i: int|
            0 <= i < v.all_paths().len() && has_sep(#[trigger] v.all_paths()[i]) && contains(
                lower_of(basename(parent(v.all_paths()[i]))),
                lp,
            ) ==> v.search(lp).contains(parent(v.all_paths()[i])),
{
    let c = v.all_paths();
    lemma_hits_upto(c, lp, c.len() as int, q);
    assert forall|i: int|
        0 <= i < c.len() && contains(lower_of(basename(#[trigger] c[i])), lp) implies v.search(lp).contains(c[i]) by {
        lemma_hits_upto(c, lp, c.len() as int, c[i]);
        assert(hit_set(c[i], lp).contains(c[i]));
    }
    assert forall|i: int|
        0 <= i < c.len() && has_sep(#[trigger] c[i]) && contains(lower_of(basename(parent(c[i]))), lp) implies v.search(
        lp,
    ).contains(parent(c[i])) by {
        lemma_hits_upto(c, lp, c.len() as int, parent(c[i]));
        assert(hit_set(c[i], lp).contains(parent(c[i])));
    }
}

} // verus!

verus! {

/// `filter_map` over an item followed by more items.
proof fn lemma_filter_map_front<A, B>(x: A, t: Seq<A>, f: spec_fn(A) -> Option<B>)
    ensures
        (seq![x] + t).filter_map(f) == (match f(x) {
            Some(y) => seq![y],
            None => Seq::empty(),
        }) + t.filter_map(f),
    decreases t.len(),
{
    let s = seq![x] + t;
    let front = match f(x) {
        Some(y) => seq![y],
        None => Seq::empty(),
    };
    if t.len() == 0 {
        assert(s.drop_last() =~= Seq::<A>::empty());
        assert(s.last() == x);
        assert(Seq::<A>::empty().filter_map(f) =~= Seq::<B>::empty());
        assert(t.filter_map(f) =~= Seq::<B>::empty());
        assert(s.filter_map(f) =~= front + t.filter_map(f));
    } else {
        lemma_filter_map_front(x, t.drop_last(), f);
        assert(s.drop_last() =~= seq![x] + t.drop_last());
        assert(s.last() == t.last());
        match f(t.last()) {
            Some(z) => {
                assert(s.filter_map(f) =~= front + t.drop_last().filter_map(f) + seq![z]);
                assert(t.filter_map(f) == t.drop_last().filter_map(f) + seq![z]);
                assert(s.filter_map(f) =~= front + t.filter_map(f));
            },
            None => {
                assert(s.filter_map(f) == s.drop_last().filter_map(f));
                assert(t.filter_map(f) == t.drop_last().filter_map(f));
            },
        }
    }
}

/// Keeping the size entries of the chunks that `m` uses keeps the size of
/// every chunk that `m` uses.
proof fn lemma_lookup_kept(sizes: Seq<(u64, u64)>, m: Seq<(Seq<char>, ChunkRef)>, o: u64)
    requires
        uses_offset(m, o),
    ensures
        lookup(sizes.filter_map(keep_used::<u64>(m)), o) == lookup(sizes, o),
    decreases sizes.len(),
{
    if sizes.len() > 0 {
        let x = sizes[0];
        let t = sizes.drop_first();
        assert(sizes == seq![x] + t);
        lemma_filter_map_front(x, t, keep_used::<u64>(m));
        lemma_lookup_kept(t, m, o);
        let kept = t.filter_map(keep_used::<u64>(m));
        if uses_offset(m, x.0) {
            let both = seq![x] + kept;
            assert(both[0] == x);
            assert(both.drop_first() =~= kept);
        }
    }
}

/// The directory sum of `m` below `d` is the root sum of `m` re-rooted at
/// `d`, sizes looked up among those that `all` uses.
proof fn lemma_du_sum_rerooted(
    sizes: Seq<(u64, u64)>,
    m: Seq<(Seq<char>, ChunkRef)>,
    d: Seq<char>,
    all: Seq<(Seq<char>, ChunkRef)>,
)
    requires
        forall|i: int| 0 <= i < m.len() && under(#[trigger] m[i].0, d) ==> uses_offset(all, m[i].1.0),
    ensures
        du_sum(sizes, m, d) == du_sum(
            sizes.filter_map(keep_used::<u64>(all)),
            m.filter_map(sub_entry(d)),
            Seq::empty(),
        ),
    decreases m.len(),
{
    if m.len() > 0 {
        let rest = m.drop_last();
        assert forall|i: int| 0 <= i < rest.len() && under(#[trigger] rest[i].0, d) implies uses_offset(
            all,
            rest[i].1.0,
        ) by {
            assert(m[i] == rest[i]);
        }
        lemma_du_sum_rerooted(sizes, rest, d, all);
        let e = m.last();
        let f = m.filter_map(sub_entry(d));
        if under(e.0, d) {
            assert(m[m.len() - 1] == e);
            lemma_lookup_kept(sizes, all, e.1.0);
            assert(f == rest.filter_map(sub_entry(d)) + seq![(strip(e.0, d), e.1)]);
            assert(f.drop_last() =~= rest.filter_map(sub_entry(d)));
            assert(f.last() == (strip(e.0, d), e.1));
        }
    }
}

/// The size of a directory is the total over the root of its subindex:
/// the files of the subindex, which are those below the directory.
pub proof fn lemma_du_of_subindex(v: IndexView, d: Seq<char>)
    requires
        v.is_dir(d),
        !v.is_empty_dir(d),
    ensures
        v.subindex(d) is Ok,
        du_sum(v.sizes, v.mapping, d) == du_sum(
            v.subindex(d)->Ok_0.sizes,
            v.subindex(d)->Ok_0.mapping,
            Seq::empty(),
        ),
{
    let all = v.mapping.filter_map(sub_entry(d));
    assert forall|i: int| 0 <= i < v.mapping.len() && under(#[trigger] v.mapping[i].0, d) implies uses_offset(
        all,
        v.mapping[i].1.0,
    ) by {
        let e = v.mapping[i];
        assert(v.mapping.contains(e));
        lemma_filter_map_has(v.mapping, sub_entry(d), (strip(e.0, d), e.1));
        let j = choose|j: int| 0 <= j < all.len() && all[j] == (strip(e.0, d), e.1);
        assert(all[j].1.0 == e.1.0);
    }
    lemma_du_sum_rerooted(v.sizes, v.mapping, d, all);
}

} // verus!
