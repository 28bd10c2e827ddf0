//! The read-only filesystem view of an archive: inodes, attributes,
//! directory listings and reads, with bounded caches.
//!
//! The host bridge calls these operations and does the archive reads that
//! a cache miss asks for.
use crate::error::ArchiveError;
use crate::index::{Index, IndexView, lookup, paths_view, lemma_children_are_joined};
use crate::path::{has_sep, is_last_sep, join, parent, under, has_parent, parent_of, join_path, strip_under, lemma_join_under};
use vstd::utf8::encode_utf8;
use bimap::BiMap;
use indexmap::IndexMap;
use std::collections::HashMap;
use vstd::prelude::*;

verus! {

broadcast use vstd::std_specs::hash::group_hash_axioms;

/// Reads at offset 0 shorter than this are served from the head cache.
pub const HEAD_BYTES: u32 = 50000;

/// The inode of the root directory.
pub const ROOT_INO: u64 = 1;

#[verifier::external_type_specification]
#[verifier::external_body]
#[verifier::reject_recursive_types(L)]
#[verifier::reject_recursive_types(R)]
#[verifier::reject_recursive_types(LS)]
#[verifier::reject_recursive_types(RS)]
pub struct ExBiHashMap<L, R, LS, RS>(bimap::BiHashMap<L, R, LS, RS>);

#[verifier::external_type_specification]
#[verifier::external_body]
#[verifier::reject_recursive_types(K)]
#[verifier::reject_recursive_types(V)]
#[verifier::reject_recursive_types(S)]
pub struct ExIndexMap<K, V, S>(IndexMap<K, V, S>);

/// The inode to path pairs that a table holds.
pub uninterp spec fn ino_pairs(m: BiMap<u64, String>) -> Map<u64, Seq<char>>;

/// The key/value entries that a cache holds, oldest insertion first.
pub uninterp spec fn cache_entries(m: IndexMap<String, Vec<u8>>) -> Seq<(Seq<char>, Seq<u8>)>;

/// `m` with pair `(l, r)`, after removing any pair with left `l` or right `r`.
pub open spec fn bimap_put(m: Map<u64, Seq<char>>, l: u64, r: Seq<char>) -> Map<u64, Seq<char>> {
    Map::new(
        |k: u64| k == l || (m.contains_key(k) && m[k] != r),
        |k: u64|
            if k == l {
                r
            } else {
                m[k]
            },
    )
}

pub open spec fn has_path(m: Map<u64, Seq<char>>, p: Seq<char>) -> bool {
    exists|k: u64| m.contains_key(k) && #[trigger] m[k] == p
}

pub open spec fn injective(m: Map<u64, Seq<char>>) -> bool {
    forall|a: u64, b: u64| m.contains_key(a) && m.contains_key(b) && #[trigger] m[a] == #[trigger] m[b] ==> a == b
}

/// Relies on `BiHashMap::new`: an empty table.
#[verifier::external_body]
fn table_new() -> (r: BiMap<u64, String>)
    ensures
        ino_pairs(r).dom() == Set::<u64>::empty(),
{
    BiMap::new()
}

/// Relies on `BiHashMap::insert`: it removes the pair with left `l` and the
/// pair with right `r`, where there are such, then adds `(l, r)`.
#[verifier::external_body]
fn table_insert(m: &mut BiMap<u64, String>, l: u64, r: String)
    ensures
        ino_pairs(*final(m)) == bimap_put(ino_pairs(*old(m)), l, r@),
{
    m.insert(l, r);
}

/// Relies on `BiHashMap::get_by_left`: the right value paired with `l`.
#[verifier::external_body]
fn table_path(m: &BiMap<u64, String>, l: u64) -> (r: Option<&String>)
    ensures
        r is Some <==> ino_pairs(*m).contains_key(l),
        r is Some ==> r->0@ == ino_pairs(*m)[l],
{
    m.get_by_left(&l)
}

/// Relies on `BiHashMap::get_by_right`: the left value paired with `p`.
#[verifier::external_body]
fn table_ino(m: &BiMap<u64, String>, p: &String) -> (r: Option<u64>)
    ensures
        r is Some <==> has_path(ino_pairs(*m), p@),
        r is Some ==> ino_pairs(*m).contains_key(r->0) && ino_pairs(*m)[r->0] == p@,
{
    m.get_by_right(p).copied()
}

pub open spec fn keys_unique(e: Seq<(Seq<char>, Seq<u8>)>) -> bool {
    forall|i: int, j: int| 0 <= i < j < e.len() ==> (#[trigger] e[i]).0 != (#[trigger] e[j]).0
}

pub open spec fn has_entry(e: Seq<(Seq<char>, Seq<u8>)>, k: Seq<char>) -> bool {
    exists|i: int| 0 <= i < e.len() && (#[trigger] e[i]).0 == k
}

/// `e` with value `v` under key `k`: in place where `k` is there, last otherwise.
pub open spec fn cache_put(e: Seq<(Seq<char>, Seq<u8>)>, k: Seq<char>, v: Seq<u8>) -> Seq<(Seq<char>, Seq<u8>)> {
    if has_entry(e, k) {
        e.map_values(|x: (Seq<char>, Seq<u8>)| if x.0 == k { (k, v) } else { x })
    } else {
        e.push((k, v))
    }
}

/// Relies on `IndexMap::new`: an empty map.
#[verifier::external_body]
fn cache_new() -> (r: IndexMap<String, Vec<u8>>)
    ensures
        cache_entries(r) == Seq::<(Seq<char>, Seq<u8>)>::empty(),
{
    IndexMap::new()
}

/// Relies on `IndexMap::len`: the number of entries.
#[verifier::external_body]
fn cache_len(m: &IndexMap<String, Vec<u8>>) -> (r: usize)
    ensures
        r == cache_entries(*m).len(),
{
    m.len()
}

/// Relies on `IndexMap::get`: the value under `k`.
#[verifier::external_body]
fn cache_get<'a>(m: &'a IndexMap<String, Vec<u8>>, k: &String) -> (r: Option<&'a Vec<u8>>)
    ensures
        r is Some <==> has_entry(cache_entries(*m), k@),
        r is Some ==> exists|i: int|
            0 <= i < cache_entries(*m).len() && cache_entries(*m)[i] == (k@, r->0@),
{
    m.get(k)
}

/// Relies on `IndexMap::shift_remove_index`: index 0 removes the oldest
/// entry and keeps the order of the rest.
#[verifier::external_body]
fn cache_drop_oldest(m: &mut IndexMap<String, Vec<u8>>)
    requires
        cache_entries(*old(m)).len() > 0,
    ensures
        cache_entries(*final(m)) == cache_entries(*old(m)).drop_first(),
{
    m.shift_remove_index(0);
}

/// Relies on `IndexMap::insert`: an existing key keeps its place and takes
/// the new value; a new key goes last.
#[verifier::external_body]
fn cache_insert(m: &mut IndexMap<String, Vec<u8>>, k: String, v: Vec<u8>)
    ensures
        keys_unique(cache_entries(*old(m))) ==> cache_entries(*final(m)) == cache_put(
            cache_entries(*old(m)),
            k@,
            v@,
        ),
{
    m.insert(k, v);
}

/// `e` after dropping its oldest entries until fewer than `max` are left.
pub open spec fn evicted(e: Seq<(Seq<char>, Seq<u8>)>, max: nat) -> Seq<(Seq<char>, Seq<u8>)> {
    if e.len() >= max {
        e.subrange(e.len() - max + 1, e.len() as int)
    } else {
        e
    }
}

/// The cache of whole file contents: at most `max_file_number` files of at
/// most `max_file_size` bytes each; the oldest insertion leaves first.
pub struct ReadCache {
    max_file_size: usize,
    max_file_number: usize,
    content: IndexMap<String, Vec<u8>>,
}

impl ReadCache {
    pub closed spec fn entries(&self) -> Seq<(Seq<char>, Seq<u8>)> {
        cache_entries(self.content)
    }

    pub closed spec fn max_size(&self) -> nat {
        self.max_file_size as nat
    }

    pub closed spec fn max_number(&self) -> nat {
        self.max_file_number as nat
    }

    pub open spec fn wf(&self) -> bool {
        &&& self.entries().len() <= self.max_number()
        &&& keys_unique(self.entries())
        &&& forall|i: int| 0 <= i < self.entries().len() ==> (#[trigger] self.entries()[i]).1.len() <= self.max_size()
    }

    /// An empty cache for `number` files of at most `size` bytes each.
    pub fn new(size: usize, number: usize) -> (r: ReadCache)
        ensures
            r.wf(),
            r.entries().len() == 0,
            r.max_size() == size,
            r.max_number() == number,
    {
        ReadCache { max_file_size: size, max_file_number: number, content: cache_new() }
    }

    /// The cached content of `path`.
    pub fn get(&self, path: &String) -> (r: Option<&Vec<u8>>)
        requires
            self.wf(),
        ensures
            r is Some <==> has_entry(self.entries(), path@),
            r is Some ==> exists|i: int| 0 <= i < self.entries().len() && self.entries()[i] == (path@, r->0@),
    {
        cache_get(&self.content, path)
    }

    /// Offers `data` as the content of `path`: refused where it is larger
    /// than the size bound or the cache holds no files; otherwise the oldest
    /// entries leave until there is room, and `data` goes in.
    pub fn offer(&mut self, path: &str, data: &[u8])
        requires
            old(self).wf(),
        ensures
            final(self).wf(),
            final(self).max_size() == old(self).max_size(),
            final(self).max_number() == old(self).max_number(),
            final(self).entries() == if data@.len() > old(self).max_size() || old(self).max_number() == 0 {
                old(self).entries()
            } else {
                cache_put(evicted(old(self).entries(), old(self).max_number()), path@, data@)
            },
    {
        if data.len() > self.max_file_size {
            return;
        }
        if self.max_file_number == 0 {
            return;
        }
        let ghost e0 = self.entries();
        let mut dropped: usize = 0;
        while cache_len(&self.content) >= self.max_file_number
            invariant
                self.max_file_number > 0,
                self.max_file_size == old(self).max_file_size,
                self.max_file_number == old(self).max_file_number,
                e0 == old(self).entries(),
                old(self).wf(),
                dropped <= e0.len(),
                self.entries() == e0.subrange(dropped as int, e0.len() as int),
                dropped > 0 ==> e0.len() - dropped >= self.max_file_number - 1,
            decreases self.entries().len(),
        {
            cache_drop_oldest(&mut self.content);
            dropped = dropped + 1;
            assert(self.entries() =~= e0.subrange(dropped as int, e0.len() as int));
        }
        let ghost kept = self.entries();
        assert(kept =~= evicted(e0, self.max_file_number as nat));
        assert(keys_unique(kept)) by {
            assert forall|i: int, j: int| 0 <= i < j < kept.len() implies (#[trigger] kept[i]).0 != (#[trigger] kept[j]).0 by {
                assert(kept[i] == e0[i + dropped] && kept[j] == e0[j + dropped]);
            }
        }
        let k = path.to_owned();
        let v = crate::vfs::copy_bytes(data);
        cache_insert(&mut self.content, k, v);
        let ghost e = self.entries();
        assert(e == cache_put(kept, path@, data@));
        proof {
            if has_entry(kept, path@) {
                assert forall|i: int| 0 <= i < e.len() implies (#[trigger] e[i]).1.len() <= self.max_file_size by {
                    assert(kept[i] == e0[i + dropped]);
                }
                assert forall|i: int, j: int| 0 <= i < j < e.len() implies (#[trigger] e[i]).0 != (#[trigger] e[j]).0 by {
                    assert(kept[i].0 != kept[j].0);
                }
            } else {
                assert forall|i: int| 0 <= i < e.len() implies (#[trigger] e[i]).1.len() <= self.max_file_size by {
                    if i < kept.len() {
                        assert(kept[i] == e0[i + dropped]);
                    }
                }
                assert forall|i: int, j: int| 0 <= i < j < e.len() implies (#[trigger] e[i]).0 != (#[trigger] e[j]).0 by {
                    if j == kept.len() {
                        assert(e[i] == kept[i]);
                    }
                }
            }
        }
    }
}

/// A copy of `b`.
pub fn copy_bytes(b: &[u8]) -> (r: Vec<u8>)
    ensures
        r@ == b@,
{
    let mut out: Vec<u8> = Vec::new();
    let mut i: usize = 0;
    while i < b.len()
        invariant
            0 <= i <= b.len(),
            out@ == b@.take(i as int),
        decreases b.len() - i,
    {
        out.push(b[i]);
        assert(b@.take(i + 1) == b@.take(i as int).push(b@[i as int]));
        i = i + 1;
    }
    assert(b@.take(b.len() as int) == b@);
    out
}

/// The bytes of `b` from `offset` on, at most `len` of them.
pub open spec fn window(b: Seq<u8>, offset: int, len: int) -> Seq<u8> {
    let from = if offset < b.len() { offset } else { b.len() as int };
    let to = if offset + len < b.len() { offset + len } else { b.len() as int };
    b.subrange(from, to)
}

/// The bytes of `b` from `offset` on, at most `len` of them.
pub fn slice_window(b: &[u8], offset: u64, len: u64) -> (r: Vec<u8>)
    ensures
        r@ == window(b@, offset as int, len as int),
{
    let n = b.len() as u64;
    let from = if offset < n { offset } else { n };
    let to = if len < n - from { from + len } else { n };
    let mut out: Vec<u8> = Vec::new();
    let mut i: u64 = from;
    while i < to
        invariant
            from <= i <= to <= n,
            n == b.len(),
            out@ == b@.subrange(from as int, i as int),
        decreases to - i,
    {
        out.push(b[i as usize]);
        assert(b@.subrange(from as int, i + 1) == b@.subrange(from as int, i as int).push(b@[i as int]));
        i = i + 1;
    }
    out
}

/// How many bytes a read of `size` bytes at `offset` returns from a file of
/// `file_size` bytes.
pub open spec fn read_len(offset: u64, size: u32, file_size: u64) -> u64 {
    if offset >= file_size {
        0
    } else if (size as u64) < file_size - offset {
        size as u64
    } else {
        (file_size - offset) as u64
    }
}

pub fn read_length(offset: u64, size: u32, file_size: u64) -> (r: u64)
    ensures
        r == read_len(offset, size, file_size),
        r <= size,
{
    if offset >= file_size {
        0
    } else if (size as u64) < file_size - offset {
        size as u64
    } else {
        file_size - offset
    }
}

/// Reads that tile a range return, one after another, the bytes of the
/// whole range.
pub proof fn lemma_windows_tile(b: Seq<u8>, offset: int, len1: int, len2: int)
    requires
        0 <= offset,
        0 <= len1,
        0 <= len2,
    ensures
        window(b, offset, len1) + window(b, offset + len1, len2) == window(b, offset, len1 + len2),
{
    assert(window(b, offset, len1) + window(b, offset + len1, len2) =~= window(b, offset, len1 + len2));
}

/// A read at offset 0 that the head holds returns the same bytes from the
/// head as from the whole content.
pub proof fn lemma_head_read_agrees(body: Seq<u8>, len: int)
    requires
        0 <= len <= HEAD_BYTES,
    ensures
        window(window(body, 0, HEAD_BYTES as int), 0, len) == window(body, 0, len),
{
    assert(window(window(body, 0, HEAD_BYTES as int), 0, len) =~= window(body, 0, len));
}

/// What an entry is.
#[derive(Clone, Copy, Debug, PartialEq, Eq, Structural)]
pub enum FileKind {
    RegularFile,
    Directory,
}

/// The attributes reported for a path.
#[derive(Clone, Copy, Debug, PartialEq, Eq, Structural)]
pub struct Attr {
    pub ino: u64,
    pub size: u64,
    pub blocks: u64,
    pub kind: FileKind,
    pub perm: u16,
    pub nlink: u32,
    pub uid: u32,
    pub gid: u32,
    pub blksize: u32,
}

pub const FILE_PERM: u16 = 0o644;

pub const DIR_PERM: u16 = 0o755;

pub const OWNER_UID: u32 = 501;

pub const OWNER_GID: u32 = 20;

pub const BLOCK_SIZE: u32 = 512;

pub open spec fn file_attr(ino: u64, size: u64) -> Attr {
    Attr {
        ino,
        size,
        blocks: 1,
        kind: FileKind::RegularFile,
        perm: FILE_PERM,
        nlink: 1,
        uid: OWNER_UID,
        gid: OWNER_GID,
        blksize: BLOCK_SIZE,
    }
}

/// Links of a directory: one per direct child, one for itself, one from
/// its parent unless it is the root; at most `u32::MAX`.
pub open spec fn link_count(children: nat, root: bool) -> u32 {
    let n = children + if root {
        1nat
    } else {
        2nat
    };
    if n > u32::MAX {
        u32::MAX
    } else {
        n as u32
    }
}

pub open spec fn dir_attr(ino: u64, children: nat, root: bool) -> Attr {
    Attr {
        ino,
        size: 0,
        blocks: 0,
        kind: FileKind::Directory,
        perm: DIR_PERM,
        nlink: link_count(children, root),
        uid: OWNER_UID,
        gid: OWNER_GID,
        blksize: BLOCK_SIZE,
    }
}

/// An entry of a directory listing.
#[derive(Clone, Debug)]
pub struct DirEntry {
    pub ino: u64,
    pub kind: FileKind,
    pub name: String,
}

/// What a read asks of the caller.
#[derive(Clone, Debug)]
pub enum ReadStep {
    /// The bytes to return.
    Ready(Vec<u8>),
    /// Fetch the first `HEAD_BYTES` of `path`, then call `finish_head_read`.
    FetchHead { path: String, len: u64 },
    /// Fetch the whole of `path`, then call `finish_body_read`.
    FetchBody { path: String, offset: u64, len: u64 },
}

/// A copy of `es`, entry for entry.
fn copy_entries(es: &Vec<DirEntry>) -> (r: Vec<DirEntry>)
    ensures
        r@ == es@,
{
    let mut out: Vec<DirEntry> = Vec::new();
    let mut i: usize = 0;
    while i < es.len()
        invariant
            0 <= i <= es.len(),
            out@ == es@.take(i as int),
        decreases es.len() - i,
    {
        let e = DirEntry { ino: es[i].ino, kind: es[i].kind, name: es[i].name.clone() };
        assert(e == es@[i as int]);
        out.push(e);
        assert(es@.take(i + 1) == es@.take(i as int).push(es@[i as int]));
        i = i + 1;
    }
    assert(es@.take(es@.len() as int) == es@);
    out
}

/// UTF-8 byte strings in lexicographic order, as `String`s compare.
pub open spec fn bytes_le(a: Seq<u8>, b: Seq<u8>) -> bool
    decreases a.len(),
{
    if a.len() == 0 {
        true
    } else if b.len() == 0 {
        false
    } else if a[0] != b[0] {
        a[0] < b[0]
    } else {
        bytes_le(a.drop_first(), b.drop_first())
    }
}

/// Relies on `slice::sort`: the same strings, ascending in `String`'s
/// order, which compares the UTF-8 bytes lexicographically.
#[verifier::external_body]
fn sort_names(v: &mut Vec<String>)
    ensures
        final(v)@.to_multiset() == old(v)@.to_multiset(),
        forall|i: int|
            0 <= i < final(v)@.len() - 1 ==> bytes_le(
                encode_utf8(#[trigger] final(v)@[i]@),
                encode_utf8(final(v)@[i + 1]@),
            ),
{
    v.sort()
}

proof fn lemma_put_keeps_injective(m: Map<u64, Seq<char>>, l: u64, r: Seq<char>)
    requires
        injective(m),
    ensures
        injective(bimap_put(m, l, r)),
{
}

proof fn lemma_put_fresh(m: Map<u64, Seq<char>>, l: u64, r: Seq<char>)
    requires
        !m.contains_key(l),
        !has_path(m, r),
    ensures
        bimap_put(m, l, r) == m.insert(l, r),
        forall|q: Seq<char>| has_path(m.insert(l, r), q) <==> has_path(m, q) || q == r,
{
    assert(bimap_put(m, l, r) =~= m.insert(l, r));
    let n = m.insert(l, r);
    assert forall|q: Seq<char>| has_path(n, q) <==> has_path(m, q) || q == r by {
        if has_path(n, q) {
            let k = choose|k: u64| n.contains_key(k) && #[trigger] n[k] == q;
            if k != l {
                assert(m.contains_key(k) && m[k] == q);
            }
        }
        if has_path(m, q) {
            let k = choose|k: u64| m.contains_key(k) && #[trigger] m[k] == q;
            assert(n.contains_key(k) && n[k] == q);
        }
        if q == r {
            assert(n.contains_key(l) && n[l] == q);
        }
    }
}

proof fn lemma_put_keeps_paths(m: Map<u64, Seq<char>>, l: u64, r: Seq<char>, q: Seq<char>)
    requires
        !m.contains_key(l),
        has_path(m, q) || q == r,
    ensures
        has_path(bimap_put(m, l, r), q),
{
    let n = bimap_put(m, l, r);
    if q == r {
        assert(n.contains_key(l) && n[l] == q);
    } else {
        let k = choose|k: u64| m.contains_key(k) && #[trigger] m[k] == q;
        assert(n.contains_key(k) && n[k] == q);
    }
}

/// The state of a mounted archive.
pub struct ArchiveFs {
    index: Index,
    inodes: BiMap<u64, String>,
    read_cache: ReadCache,
    head_cache: HashMap<u64, Vec<u8>>,
    attribute_cache: HashMap<u64, Attr>,
    lookup_cache: HashMap<u64, Vec<(String, Attr)>>,
    listing_cache: HashMap<u64, Vec<DirEntry>>,
    /// One past the last inode handed out.
    inode_end: Ghost<u64>,
}

/// `a` holds the attributes of path `p`, in the archive with index `v`
/// and inode table `t`.
pub open spec fn attr_fits(t: Map<u64, Seq<char>>, v: IndexView, a: Attr, p: Seq<char>) -> bool {
    &&& t.contains_key(a.ino)
    &&& t[a.ino] == p
    &&& if v.is_file(p) {
        v.file_size(p) == Some(a.size) && a == file_attr(a.ino, a.size)
    } else {
        match v.direct_children(p) {
            Ok(s) => a == dir_attr(a.ino, s.len(), p.len() == 0),
            Err(_) => false,
        }
    }
}

/// What an entry reports for path `c`.
pub open spec fn kind_in(v: IndexView, c: Seq<char>) -> FileKind {
    if v.is_file(c) {
        FileKind::RegularFile
    } else {
        FileKind::Directory
    }
}

/// `es` lists directory inode `ino` of inode table `t` in the archive with
/// index `v`: itself as ".", its parent as "..", then its direct children
/// that have an inode, by name in ascending order.
#[verifier::opaque]
pub open spec fn listing_fits(t: Map<u64, Seq<char>>, v: IndexView, ino: u64, es: Seq<DirEntry>) -> bool {
    let p = t[ino];
    let kids = v.direct_children(p)->Ok_0;
    &&& t.contains_key(ino)
    &&& v.is_dir(p)
    &&& v.direct_children(p) is Ok
    &&& es.len() >= 2
    &&& es[0].ino == ino && es[0].kind == FileKind::Directory && es[0].name@ == seq!['.']
    &&& es[1].kind == FileKind::Directory && es[1].name@ == seq!['.', '.']
    &&& (if has_path(t, parent_dir(p)) {
        t.contains_key(es[1].ino) && t[es[1].ino] == parent_dir(p)
    } else {
        es[1].ino == ino
    })
    &&& forall|k: int|
        2 <= k < es.len() ==> {
            let c = join(p, (#[trigger] es[k]).name@);
            &&& kids.contains(c)
            &&& t.contains_key(es[k].ino)
            &&& t[es[k].ino] == c
            &&& es[k].kind == kind_in(v, c)
        }
    &&& sorted_names(es)
    &&& distinct_names(es)
    &&& lists_all(t, kids, p, es)
}

/// The entries after "." and ".." come in ascending order of name.
#[verifier::opaque]
pub open spec fn sorted_names(es: Seq<DirEntry>) -> bool {
    forall|k: int|
        2 <= k < es.len() - 1 ==> bytes_le(encode_utf8((#[trigger] es[k]).name@), encode_utf8(es[k + 1].name@))
}

/// The entries after "." and ".." have distinct names.
#[verifier::opaque]
pub open spec fn distinct_names(es: Seq<DirEntry>) -> bool {
    forall|j: int, k: int| 2 <= j < k < es.len() ==> (#[trigger] es[j]).name@ != (#[trigger] es[k]).name@
}

/// Every path of `kids` that has an inode in `t` is `p` joined with the
/// name of an entry after "." and "..".
#[verifier::opaque]
pub open spec fn lists_all(t: Map<u64, Seq<char>>, kids: Set<Seq<char>>, p: Seq<char>, es: Seq<DirEntry>) -> bool {
    forall|c: Seq<char>|
        kids.contains(c) && #[trigger] has_path(t, c) ==> exists|k: int| 2 <= k < es.len() && join(p, es[k].name@) == c
}

/// Every cached attribute and listing is what would be computed afresh.
#[verifier::opaque]
pub open spec fn caches_ok(
    t: Map<u64, Seq<char>>,
    v: IndexView,
    attrs: Map<u64, Attr>,
    lookups: Map<u64, Vec<(String, Attr)>>,
    listings: Map<u64, Vec<DirEntry>>,
) -> bool {
    &&& forall|k: u64| #[trigger] attrs.contains_key(k) ==> t.contains_key(k) && attr_fits(t, v, attrs[k], t[k])
    &&& forall|k: u64|
        #[trigger] lookups.contains_key(k) ==> t.contains_key(k) && forall|i: int|
            0 <= i < lookups[k]@.len() ==> attr_fits(t, v, (#[trigger] lookups[k]@[i]).1, join(t[k], lookups[k]@[i].0@))
    &&& forall|k: u64| #[trigger] listings.contains_key(k) ==> listing_fits(t, v, k, listings[k]@)
}

/// Inodes that the first `n` of `ps` may take: each path, and each of its
/// ancestors, of which a path has fewer than its length.
pub open spec fn inode_cost(ps: Seq<Seq<char>>, n: int) -> nat
    decreases n,
{
    if n <= 0 {
        0
    } else {
        inode_cost(ps, n - 1) + ps[n - 1].len() + 1
    }
}

/// Some path of `ps` is empty.
pub open spec fn has_empty_path(ps: Seq<Seq<char>>) -> bool {
    exists|i: int| 0 <= i < ps.len() && (#[trigger] ps[i]).len() == 0
}

/// Inode table facts kept while inodes are handed out.
pub open spec fn table_ok(m: Map<u64, Seq<char>>, next: u64) -> bool {
    &&& injective(m)
    &&& m.contains_key(ROOT_INO)
    &&& m[ROOT_INO] == Seq::<char>::empty()
    &&& next >= 2
    &&& forall|k: u64| #[trigger] m.contains_key(k) <==> 1 <= k < next
}

/// `a` is an ancestor of `p`: `p` cut before one of its separators.
pub open spec fn is_ancestor(a: Seq<char>, p: Seq<char>) -> bool {
    exists|i: int| 0 <= i < p.len() && p[i] == '/' && a == #[trigger] p.take(i)
}

/// `q` is one of the first `n` paths of `ps` or an ancestor of one.
pub open spec fn covered(ps: Seq<Seq<char>>, n: int, q: Seq<char>) -> bool {
    exists|j: int| 0 <= j < n && (q == #[trigger] ps[j] || is_ancestor(q, ps[j]))
}

/// The paths that a mount of index `v` gives inodes to: the root, every
/// archived file and listed empty directory, and every ancestor of these.
pub open spec fn mount_path(v: IndexView, q: Seq<char>) -> bool {
    ||| q.len() == 0
    ||| covered(crate::codec::path_keys(v.mapping), v.mapping.len() as int, q)
    ||| covered(v.empty_dirs, v.empty_dirs.len() as int, q)
}

impl ArchiveFs {
    pub closed spec fn table(&self) -> Map<u64, Seq<char>> {
        ino_pairs(self.inodes)
    }

    pub closed spec fn archive_index(&self) -> IndexView {
        self.index@
    }

    /// The bound on the size of a file that the read cache keeps.
    pub closed spec fn body_cache_max_size(&self) -> nat {
        self.read_cache.max_size()
    }

    /// The bound on the number of files that the read cache keeps.
    pub closed spec fn body_cache_max_files(&self) -> nat {
        self.read_cache.max_number()
    }

    /// One past the last inode: the inodes are exactly `1..inode_end()`.
    pub closed spec fn inode_end(&self) -> u64 {
        self.inode_end@
    }

    pub closed spec fn body_cache(&self) -> Seq<(Seq<char>, Seq<u8>)> {
        self.read_cache.entries()
    }

    pub closed spec fn head_cache_view(&self) -> Map<u64, Vec<u8>> {
        self.head_cache@
    }

    /// `a` holds the attributes of path `p`.
    pub open spec fn describes(&self, a: Attr, p: Seq<char>) -> bool {
        attr_fits(self.table(), self.archive_index(), a, p)
    }

    pub closed spec fn wf(&self) -> bool {
        &&& injective(self.table())
        &&& self.table().contains_key(ROOT_INO)
        &&& self.table()[ROOT_INO] == Seq::<char>::empty()
        &&& self.read_cache.wf()
        &&& caches_ok(
            self.table(),
            self.archive_index(),
            self.attribute_cache@,
            self.lookup_cache@,
            self.listing_cache@,
        )
    }

    /// The mount state for `index`: the root is inode 1, then each file and
    /// each empty directory, and each ancestor not seen yet, takes the next
    /// inode. Refused as malformed where a path is empty or inodes run out.
    pub fn new(index: Index, max_files: usize, max_size: usize) -> (r: Result<ArchiveFs, ArchiveError>)
        ensures
            r is Ok ==> {
                let fs = r->Ok_0;
                &&& fs.wf()
                &&& fs.archive_index() == index@
                &&& injective(fs.table())
                &&& fs.table().contains_key(ROOT_INO)
                &&& fs.table()[ROOT_INO] == Seq::<char>::empty()
                &&& forall|k: u64| #[trigger] fs.table().contains_key(k) <==> 1 <= k < fs.inode_end()
                &&& forall|q: Seq<char>| has_path(fs.table(), q) <==> mount_path(index@, q)
                &&& fs.body_cache().len() == 0
                &&& fs.body_cache_max_size() == max_size
                &&& fs.body_cache_max_files() == max_files
            },
            r is Err ==> r == Err::<ArchiveFs, ArchiveError>(ArchiveError::Format),
            ({
                let keys = crate::codec::path_keys(index@.mapping);
                let dirs = index@.empty_dirs;
                !has_empty_path(keys) && !has_empty_path(dirs) && 2 + inode_cost(keys, keys.len() as int)
                    + inode_cost(dirs, dirs.len() as int) <= u64::MAX ==> r is Ok
            }),
    {
        let ghost keys = crate::codec::path_keys(index@.mapping);
        let ghost dirs = index@.empty_dirs;
        let ghost budget = 2 + inode_cost(keys, keys.len() as int) + inode_cost(dirs, dirs.len() as int);
        let mut t = table_new();
        table_insert(&mut t, ROOT_INO, String::new());
        let mut next: u64 = 2;
        assert(ino_pairs(t) =~= Map::empty().insert(ROOT_INO, Seq::<char>::empty()));
        assert forall|q: Seq<char>| has_path(ino_pairs(t), q) <==> (q.len() == 0 || covered(keys, 0, q)) by {
            if q.len() == 0 {
                assert(ino_pairs(t)[ROOT_INO] =~= q);
            }
        }
        let mut i: usize = 0;
        while i < index.mapping.len()
            invariant
                table_ok(ino_pairs(t), next),
                0 <= i <= index.mapping.len(),
                keys == crate::codec::path_keys(index@.mapping),
                dirs == index@.empty_dirs,
                forall|q: Seq<char>| has_path(ino_pairs(t), q) <==> (q.len() == 0 || covered(keys, i as int, q)),
                budget == 2 + inode_cost(keys, keys.len() as int) + inode_cost(dirs, dirs.len() as int),
                next <= 2 + inode_cost(keys, i as int),
            decreases index.mapping.len() - i,
        {
            let ghost before = ino_pairs(t);
            proof {
                lemma_cost_grows(keys, i + 1, keys.len() as int);
                if !has_empty_path(keys) {
                    assert(keys[i as int].len() != 0);
                }
            }
            assert(index.mapping@[i as int].0@ == keys[i as int]);
            let added = add_with_parents(&mut t, &mut next, &index.mapping[i].0);
            if added.is_err() {
                return Err(ArchiveError::Format);
            }
            assert(added is Ok);
            proof {
                lemma_covered_step(keys, i as int);
                assert forall|q: Seq<char>|
                    has_path(ino_pairs(t), q) <==> (q.len() == 0 || covered(keys, i + 1, q)) by {
                    assert(has_path(before, q) <==> (q.len() == 0 || covered(keys, i as int, q)));
                    assert(has_path(ino_pairs(t), q) <==> (has_path(before, q) || q == keys[i as int]
                        || is_ancestor(q, keys[i as int])));
                    assert(covered(keys, i + 1, q) <==> (covered(keys, i as int, q) || q == keys[i as int]
                        || is_ancestor(q, keys[i as int])));
                }
            }
            i = i + 1;
        }
        let mut d: usize = 0;
        assert(keys.len() == index@.mapping.len());
        assert forall|q: Seq<char>| !covered(dirs, 0, q) by {}
        while d < index.empty_dirs.len()
            invariant
                table_ok(ino_pairs(t), next),
                0 <= d <= index.empty_dirs.len(),
                keys == crate::codec::path_keys(index@.mapping),
                dirs == index@.empty_dirs,
                forall|q: Seq<char>|
                    has_path(ino_pairs(t), q) <==> (q.len() == 0 || covered(keys, keys.len() as int, q) || covered(
                        dirs,
                        d as int,
                        q,
                    )),
                budget == 2 + inode_cost(keys, keys.len() as int) + inode_cost(dirs, dirs.len() as int),
                next <= 2 + inode_cost(keys, keys.len() as int) + inode_cost(dirs, d as int),
            decreases index.empty_dirs.len() - d,
        {
            proof {
                lemma_cost_grows(dirs, d + 1, dirs.len() as int);
                if !has_empty_path(dirs) {
                    assert(dirs[d as int].len() != 0);
                }
            }
            let ghost before = ino_pairs(t);
            assert(index.empty_dirs@[d as int]@ == dirs[d as int]);
            let added = add_with_parents(&mut t, &mut next, &index.empty_dirs[d]);
            if added.is_err() {
                return Err(ArchiveError::Format);
            }
            proof {
                lemma_covered_step(dirs, d as int);
                assert forall|q: Seq<char>|
                    has_path(ino_pairs(t), q) <==> (q.len() == 0 || covered(keys, keys.len() as int, q) || covered(
                        dirs,
                        d + 1,
                        q,
                    )) by {
                    assert(has_path(before, q) <==> (q.len() == 0 || covered(keys, keys.len() as int, q)
                        || covered(dirs, d as int, q)));
                    assert(has_path(ino_pairs(t), q) <==> (has_path(before, q) || q == dirs[d as int]
                        || is_ancestor(q, dirs[d as int])));
                    assert(covered(dirs, d + 1, q) <==> (covered(dirs, d as int, q) || q == dirs[d as int]
                        || is_ancestor(q, dirs[d as int])));
                }
            }
            d = d + 1;
        }
        let fs = ArchiveFs {
            index,
            inodes: t,
            read_cache: ReadCache::new(max_size, max_files),
            head_cache: HashMap::new(),
            attribute_cache: HashMap::new(),
            lookup_cache: HashMap::new(),
            listing_cache: HashMap::new(),
            inode_end: Ghost(next),
        };
        proof {
            reveal(caches_ok);
        }
        Ok(fs)
    }
}

/// The first `n + 1` paths cover what the first `n` cover, path `n`, and
/// its ancestors.
proof fn lemma_covered_step(ps: Seq<Seq<char>>, n: int)
    requires
        0 <= n < ps.len(),
    ensures
        forall|q: Seq<char>|
            covered(ps, n + 1, q) <==> (covered(ps, n, q) || q == ps[n] || is_ancestor(q, ps[n])),
{
    assert forall|q: Seq<char>|
        covered(ps, n + 1, q) <==> (covered(ps, n, q) || q == ps[n] || is_ancestor(q, ps[n])) by {
        if covered(ps, n + 1, q) {
            let j = choose|j: int| 0 <= j < n + 1 && (q == #[trigger] ps[j] || is_ancestor(q, ps[j]));
            if j < n {
                assert(covered(ps, n, q));
            }
        }
        if covered(ps, n, q) {
            let j = choose|j: int| 0 <= j < n && (q == #[trigger] ps[j] || is_ancestor(q, ps[j]));
            assert(0 <= j < n + 1 && (q == ps[j] || is_ancestor(q, ps[j])));
        }
        if q == ps[n] || is_ancestor(q, ps[n]) {
            assert(0 <= n < n + 1 && (q == ps[n] || is_ancestor(q, ps[n])));
        }
    }
}

proof fn lemma_cost_grows(ps: Seq<Seq<char>>, i: int, n: int)
    requires
        0 <= i <= n,
    ensures
        inode_cost(ps, i) <= inode_cost(ps, n),
    decreases n - i,
{
    if i < n {
        lemma_cost_grows(ps, i, n - 1);
    }
}

/// Gives `p` and each of its ancestors the next inode, where it has none.
fn add_with_parents(t: &mut BiMap<u64, String>, next: &mut u64, p: &String) -> (r: Result<(), ArchiveError>)
    requires
        table_ok(ino_pairs(*old(t)), *old(next)),
    ensures
        table_ok(ino_pairs(*final(t)), *final(next)),
        r is Ok ==> forall|q: Seq<char>|
            #![trigger has_path(ino_pairs(*final(t)), q)]
            has_path(ino_pairs(*final(t)), q) <==> (has_path(ino_pairs(*old(t)), q) || q == p@ || is_ancestor(
                q,
                p@,
            )),
        r is Err ==> r == Err::<(), ArchiveError>(ArchiveError::Format),
        *final(next) <= *old(next) + p@.len() + 1,
        p@.len() != 0 && *old(next) + p@.len() + 1 <= u64::MAX ==> r is Ok,
{
    if p.unicode_len() == 0 || *next == u64::MAX {
        return Err(ArchiveError::Format);
    }
    let ghost start = *next;
    let ghost m0 = ino_pairs(*t);
    if table_ino(t, p).is_none() {
        proof {
            lemma_put_fresh(m0, *next, p@);
            lemma_put_keeps_injective(m0, *next, p@);
        }
        table_insert(t, *next, p.clone());
        *next = *next + 1;
    }
    let mut cur = p.clone();
    while has_parent(cur.as_str())
        invariant
            table_ok(ino_pairs(*t), *next),
            forall|q: Seq<char>|
                has_path(ino_pairs(*t), q) ==> (has_path(m0, q) || q == p@ || is_ancestor(q, p@)),
            forall|q: Seq<char>| has_path(m0, q) ==> has_path(ino_pairs(*t), q),
            has_path(ino_pairs(*t), p@),
            has_path(ino_pairs(*t), cur@),
            cur@.len() <= p@.len(),
            cur@ == p@.take(cur@.len() as int),
            forall|i: int|
                cur@.len() <= i < p@.len() && p@[i] == '/' ==> has_path(ino_pairs(*t), #[trigger] p@.take(i)),
            *next + cur@.len() <= start + 1 + p@.len(),
            start <= *next,
            start == *old(next),
        decreases cur@.len(),
    {
        let par = parent_of(cur.as_str());
        let ghost ls = par@.len() as int;
        proof {
            assert(p@[ls] == cur@[ls]);
            assert(par@ =~= p@.take(ls));
            assert(is_ancestor(par@, p@));
        }
        if table_ino(t, &par).is_none() {
            if *next == u64::MAX {
                return Err(ArchiveError::Format);
            }
            let ghost m1 = ino_pairs(*t);
            proof {
                lemma_put_fresh(m1, *next, par@);
                lemma_put_keeps_injective(m1, *next, par@);
            }
            table_insert(t, *next, par.clone());
            *next = *next + 1;
        }
        proof {
            assert forall|i: int|
                ls <= i < p@.len() && p@[i] == '/' implies has_path(ino_pairs(*t), #[trigger] p@.take(i)) by {
                if i == ls {
                } else if i < cur@.len() {
                    assert(cur@[i] == p@[i]);
                } else if i == cur@.len() {
                    assert(p@.take(i) =~= cur@);
                }
            }
        }
        cur = par;
    }
    proof {
        assert forall|q: Seq<char>|
            (has_path(m0, q) || q == p@ || is_ancestor(q, p@)) implies has_path(ino_pairs(*t), q) by {
            if is_ancestor(q, p@) && !has_path(m0, q) {
                let i = choose|i: int| 0 <= i < p@.len() && p@[i] == '/' && q == #[trigger] p@.take(i);
                if i < cur@.len() {
                    assert(cur@[i] == p@[i]);
                    assert(has_sep(cur@));
                } else if i == cur@.len() {
                    assert(p@.take(i) =~= cur@);
                }
            }
        }
    }
    Ok(())
}

impl ArchiveFs {
    /// The attributes of path `p`; not found where nothing describes it.
    fn attr_of_path(&self, p: &String) -> (r: Result<Attr, ArchiveError>)
        requires
            self.wf(),
        ensures
            r is Ok ==> self.describes(r->Ok_0, p@),
            r is Err ==> r == Err::<Attr, ArchiveError>(ArchiveError::NotFound) && forall|a: Attr|
                !self.describes(a, p@),
    {
        let ino = match table_ino(&self.inodes, p) {
            Some(i) => i,
            None => return Err(ArchiveError::NotFound),
        };
        if self.index.is_file(p.as_str()) {
            match self.index.file_size(p.as_str()) {
                Some(size) => Ok(
                    Attr {
                        ino,
                        size,
                        blocks: 1,
                        kind: FileKind::RegularFile,
                        perm: FILE_PERM,
                        nlink: 1,
                        uid: OWNER_UID,
                        gid: OWNER_GID,
                        blksize: BLOCK_SIZE,
                    },
                ),
                None => Err(ArchiveError::NotFound),
            }
        } else {
            let children = match self.index.get_direct_children(p.as_str()) {
                Ok(c) => c,
                Err(_) => return Err(ArchiveError::NotFound),
            };
            proof {
                paths_view(children@).unique_seq_to_set();
            }
            let root = p.unicode_len() == 0;
            let n = children.len() as u64;
            let extra: u64 = if root {
                1
            } else {
                2
            };
            let nlink: u32 = if n > 0xFFFF_FFFF - extra {
                0xFFFF_FFFF
            } else {
                (n + extra) as u32
            };
            Ok(
                Attr {
                    ino,
                    size: 0,
                    blocks: 0,
                    kind: FileKind::Directory,
                    perm: DIR_PERM,
                    nlink,
                    uid: OWNER_UID,
                    gid: OWNER_GID,
                    blksize: BLOCK_SIZE,
                },
            )
        }
    }

    /// The attributes of entry `name` of directory inode `parent`.
    pub fn lookup(&mut self, parent: u64, name: &str) -> (r: Result<Attr, ArchiveError>)
        requires
            old(self).wf(),
        ensures
            final(self).wf(),
            final(self).table() == old(self).table(),
            final(self).archive_index() == old(self).archive_index(),
            final(self).body_cache() == old(self).body_cache(),
            final(self).head_cache_view() == old(self).head_cache_view(),
            r is Ok ==> old(self).table().contains_key(parent) && old(self).describes(
                r->Ok_0,
                join(old(self).table()[parent], name@),
            ),
            r is Err ==> r == Err::<Attr, ArchiveError>(ArchiveError::NotFound) && (!old(self).table().contains_key(
                parent,
            ) || forall|a: Attr| !old(self).describes(a, join(old(self).table()[parent], name@))),
    {
        proof {
            reveal(caches_ok);
        }
        let key = name.to_owned();
        match self.lookup_cache.get(&parent) {
            Some(v) => {
                let mut i: usize = 0;
                while i < v.len()
                    invariant
                        self.wf(),
                        self.lookup_cache@.contains_key(parent),
                        *v == self.lookup_cache@[parent],
                        key@ == name@,
                        0 <= i <= v.len(),
                    decreases v.len() - i,
                {
                    if v[i].0 == key {
                        proof {
                            reveal(caches_ok);
                        }
                        assert(self.describes(v@[i as int].1, join(self.table()[parent], v@[i as int].0@)));
                        return Ok(v[i].1);
                    }
                    i = i + 1;
                }
            },
            None => {},
        }
        let a = match table_path(&self.inodes, parent) {
            Some(dir) => {
                let p = join_path(dir.as_str(), name);
                self.attr_of_path(&p)
            },
            None => return Err(ArchiveError::NotFound),
        };
        match a {
            Ok(a) => {
                let ghost t = self.table();
                let mut v = match self.lookup_cache.remove(&parent) {
                    Some(v) => v,
                    None => Vec::new(),
                };
                let ghost before = v@;
                v.push((key, a));
                assert(forall|i: int| 0 <= i < before.len() ==> v@[i] == before[i]);
                self.lookup_cache.insert(parent, v);
                Ok(a)
            },
            Err(e) => Err(e),
        }
    }

    /// The attributes of inode `ino`.
    pub fn getattr(&mut self, ino: u64) -> (r: Result<Attr, ArchiveError>)
        requires
            old(self).wf(),
        ensures
            final(self).wf(),
            final(self).table() == old(self).table(),
            final(self).archive_index() == old(self).archive_index(),
            final(self).body_cache() == old(self).body_cache(),
            final(self).head_cache_view() == old(self).head_cache_view(),
            r is Ok ==> old(self).table().contains_key(ino) && old(self).describes(r->Ok_0, old(self).table()[ino])
                && r->Ok_0.ino == ino,
            r is Err ==> r == Err::<Attr, ArchiveError>(ArchiveError::NotFound) && (!old(self).table().contains_key(ino)
                || forall|a: Attr| !old(self).describes(a, old(self).table()[ino])),
    {
        proof {
            reveal(caches_ok);
        }
        match self.attribute_cache.get(&ino) {
            Some(a) => {
                return Ok(*a);
            },
            None => {},
        }
        let a = match table_path(&self.inodes, ino) {
            Some(p) => self.attr_of_path(p),
            None => return Err(ArchiveError::NotFound),
        };
        match a {
            Ok(a) => {
                self.attribute_cache.insert(ino, a);
                Ok(a)
            },
            Err(e) => Err(e),
        }
    }

    /// How a read of `size` bytes at `offset` of file inode `ino` is served:
    /// from a cache, or by fetching the head (a read at offset 0 of fewer
    /// than `HEAD_BYTES`) or the whole file.
    pub fn begin_read(&self, ino: u64, offset: u64, size: u32) -> (r: Result<ReadStep, ArchiveError>)
        requires
            self.wf(),
        ensures
            match r {
                Err(e) => {
                    ||| (e == ArchiveError::NotFound && (!self.table().contains_key(ino)
                        || !self.archive_index().is_file(self.table()[ino])))
                    ||| (e == ArchiveError::Format && self.table().contains_key(ino)
                        && self.archive_index().is_file(self.table()[ino])
                        && self.archive_index().file_size(self.table()[ino]) is None)
                },
                Ok(step) => {
                    let p = self.table()[ino];
                    let n = read_len(offset, size, self.archive_index().file_size(p)->0);
                    &&& self.table().contains_key(ino)
                    &&& self.archive_index().file_size(p) is Some
                    &&& if offset == 0 && size < HEAD_BYTES {
                        match step {
                            ReadStep::Ready(d) => self.head_cache_view().contains_key(ino) && d@ == window(
                                self.head_cache_view()[ino]@,
                                0,
                                n as int,
                            ),
                            ReadStep::FetchHead { path, len } => !self.head_cache_view().contains_key(ino)
                                && path@ == p && len == n,
                            ReadStep::FetchBody { .. } => false,
                        }
                    } else {
                        match step {
                            ReadStep::Ready(d) => exists|b: Seq<u8>|
                                self.body_cache().contains((p, b)) && d@ == window(b, offset as int, n as int),
                            ReadStep::FetchBody { path, offset: o, len } => !has_entry(self.body_cache(), p)
                                && path@ == p && o == offset && len == n,
                            ReadStep::FetchHead { .. } => false,
                        }
                    }
                },
            },
    {
        let p = match table_path(&self.inodes, ino) {
            Some(p) => p,
            None => return Err(ArchiveError::NotFound),
        };
        if !self.index.is_file(p.as_str()) {
            return Err(ArchiveError::NotFound);
        }
        let file_size = match self.index.file_size(p.as_str()) {
            Some(s) => s,
            None => return Err(ArchiveError::Format),
        };
        let n = read_length(offset, size, file_size);
        if offset == 0 && size < HEAD_BYTES {
            match self.head_cache.get(&ino) {
                Some(h) => Ok(ReadStep::Ready(slice_window(h.as_slice(), 0, n))),
                None => Ok(ReadStep::FetchHead { path: p.clone(), len: n }),
            }
        } else {
            match self.read_cache.get(p) {
                Some(b) => {
                    let d = slice_window(b.as_slice(), offset, n);
                    proof {
                        let i = choose|i: int|
                            0 <= i < self.body_cache().len() && self.body_cache()[i] == (p@, b@);
                        assert(self.body_cache().contains((p@, b@)));
                    }
                    Ok(ReadStep::Ready(d))
                },
                None => Ok(ReadStep::FetchBody { path: p.clone(), offset, len: n }),
            }
        }
    }

    /// Completes a head read of inode `ino`: keeps `head` for later reads
    /// and returns its first `len` bytes.
    pub fn finish_head_read(&mut self, ino: u64, head: Vec<u8>, len: u64) -> (r: Vec<u8>)
        requires
            old(self).wf(),
        ensures
            final(self).wf(),
            final(self).table() == old(self).table(),
            final(self).archive_index() == old(self).archive_index(),
            final(self).body_cache() == old(self).body_cache(),
            final(self).head_cache_view() == old(self).head_cache_view().insert(ino, head),
            r@ == window(head@, 0, len as int),
    {
        let r = slice_window(head.as_slice(), 0, len);
        self.head_cache.insert(ino, head);
        r
    }

    /// Completes a whole-file read of `path`: offers `body` to the read
    /// cache and returns its bytes from `offset` on, at most `len`.
    pub fn finish_body_read(&mut self, path: &str, body: &[u8], offset: u64, len: u64) -> (r: Vec<u8>)
        requires
            old(self).wf(),
        ensures
            final(self).wf(),
            final(self).table() == old(self).table(),
            final(self).archive_index() == old(self).archive_index(),
            final(self).head_cache_view() == old(self).head_cache_view(),
            final(self).body_cache_max_size() == old(self).body_cache_max_size(),
            final(self).body_cache_max_files() == old(self).body_cache_max_files(),
            final(self).body_cache() == if body@.len() > old(self).body_cache_max_size()
                || old(self).body_cache_max_files() == 0 {
                old(self).body_cache()
            } else {
                cache_put(evicted(old(self).body_cache(), old(self).body_cache_max_files()), path@, body@)
            },
            r@ == window(body@, offset as int, len as int),
    {
        self.read_cache.offer(path, body);
        slice_window(body, offset, len)
    }
}

/// The parent directory of `p`, the root being its own parent.
pub open spec fn parent_dir(p: Seq<char>) -> Seq<char> {
    if p.len() == 0 {
        p
    } else {
        parent(p)
    }
}

impl ArchiveFs {
    /// What `kind` reports for path `c`.
    pub open spec fn kind_of(&self, c: Seq<char>) -> FileKind {
        kind_in(self.archive_index(), c)
    }

    /// `ino` has no listing: no such inode, not a directory, or its
    /// children cannot be had.
    pub open spec fn unlisted(&self, ino: u64) -> bool {
        ||| !self.table().contains_key(ino)
        ||| !self.archive_index().is_dir(self.table()[ino])
        ||| self.archive_index().direct_children(self.table()[ino]) is Err
    }

    /// `es` lists directory inode `ino`.
    pub open spec fn lists(&self, ino: u64, es: Seq<DirEntry>) -> bool {
        listing_fits(self.table(), self.archive_index(), ino, es)
    }

    /// The listing of directory inode `ino`.
    pub fn readdir(&mut self, ino: u64) -> (r: Result<Vec<DirEntry>, ArchiveError>)
        requires
            old(self).wf(),
        ensures
            final(self).wf(),
            final(self).table() == old(self).table(),
            final(self).archive_index() == old(self).archive_index(),
            final(self).body_cache() == old(self).body_cache(),
            final(self).head_cache_view() == old(self).head_cache_view(),
            match r {
                Err(e) => e == ArchiveError::NotFound && old(self).unlisted(ino),
                Ok(es) => old(self).lists(ino, es@),
            },
    {
        proof {
            reveal(caches_ok);
        }
        match self.listing_cache.get(&ino) {
            Some(es) => {
                return Ok(copy_entries(es));
            },
            None => {},
        }
        match self.compute_listing(ino) {
            Ok(es) => {
                let kept = copy_entries(&es);
                self.listing_cache.insert(ino, kept);
                Ok(es)
            },
            Err(e) => Err(e),
        }
    }

    #[verifier::rlimit(100)]
    fn compute_listing(&self, ino: u64) -> (r: Result<Vec<DirEntry>, ArchiveError>)
        requires
            self.wf(),
        ensures
            match r {
                Err(e) => e == ArchiveError::NotFound && self.unlisted(ino),
                Ok(es) => self.lists(ino, es@),
            },
    {
        let p = match table_path(&self.inodes, ino) {
            Some(p) => p,
            None => return Err(ArchiveError::NotFound),
        };
        if !self.index.is_dir(p.as_str()) {
            return Err(ArchiveError::NotFound);
        }
        let names = self.child_names(p)?;
        let parent_path: String = if p.unicode_len() == 0 {
            p.clone()
        } else {
            parent_of(p.as_str())
        };
        let parent_ino = match table_ino(&self.inodes, &parent_path) {
            Some(i) => i,
            None => ino,
        };
        let ghost kids = self.index@.direct_children(p@)->Ok_0;
        let out = self.listing(ino, p, parent_ino, &names, Ghost(kids));
        proof {
            assert(parent_path@ == parent_dir(p@));
            lemma_listing_fits_intro(self.table(), self.archive_index(), ino, out@);
        }
        Ok(out)
    }

    /// The names of the direct children of directory `p`, each once, in
    /// ascending order.
    fn child_names(&self, p: &String) -> (r: Result<Vec<String>, ArchiveError>)
        requires
            self.wf(),
        ensures
            match r {
                Err(e) => e == ArchiveError::NotFound && self.archive_index().direct_children(p@) is Err,
                Ok(names) => {
                    &&& self.archive_index().direct_children(p@) is Ok
                    &&& forall|k: int|
                        0 <= k < names@.len() ==> self.archive_index().direct_children(p@)->Ok_0.contains(
                            join(p@, #[trigger] names@[k]@),
                        )
                    &&& forall|k: int|
                        0 <= k < names@.len() - 1 ==> bytes_le(
                            encode_utf8(#[trigger] names@[k]@),
                            encode_utf8(names@[k + 1]@),
                        )
                    &&& paths_view(names@).no_duplicates()
                    &&& names_cover(self.archive_index().direct_children(p@)->Ok_0, p@, names@)
                },
            },
    {
        let children = match self.index.get_direct_children(p.as_str()) {
            Ok(c) => c,
            Err(_) => return Err(ArchiveError::NotFound),
        };
        let ghost kids = self.index@.direct_children(p@)->Ok_0;
        let mut names: Vec<String> = Vec::new();
        let mut i: usize = 0;
        while i < children.len()
            invariant
                self.index@.direct_children(p@) is Ok,
                kids == self.index@.direct_children(p@)->Ok_0,
                paths_view(children@).to_set() == kids,
                paths_view(children@).no_duplicates(),
                0 <= i <= children.len(),
                names@.len() == i,
                forall|k: int| 0 <= k < names@.len() ==> kids.contains(join(p@, #[trigger] names@[k]@)),
                forall|k: int| 0 <= k < i ==> join(p@, #[trigger] names@[k]@) == paths_view(children@)[k],
                paths_view(names@).no_duplicates(),
            decreases children.len() - i,
        {
            let c = &children[i];
            assert(kids.contains(c@)) by {
                assert(paths_view(children@)[i as int] == c@);
            }
            proof {
                lemma_children_are_joined(self.index@, p@, c@);
                let x = choose|x: Seq<char>| c@ == join(p@, x);
                lemma_join_under(p@, x);
            }
            let name = strip_under(c.as_str(), p.as_str());
            proof {
                let x = choose|x: Seq<char>| c@ == join(p@, x);
                lemma_join_under(p@, x);
                assert(name@ == x);
            }
            let ghost before = names@;
            names.push(name);
            assert(forall|k: int| 0 <= k < before.len() ==> names@[k] == before[k]);
            proof {
                assert(join(p@, names@[i as int]@) == paths_view(children@)[i as int]);
                assert forall|x: int, y: int| 0 <= x < names@.len() && 0 <= y < names@.len() && x != y implies paths_view(
                    names@,
                )[x] != paths_view(names@)[y] by {
                    if paths_view(names@)[x] == paths_view(names@)[y] {
                        assert(join(p@, names@[x]@) == paths_view(children@)[x]);
                        assert(join(p@, names@[y]@) == paths_view(children@)[y]);
                    }
                }
            }
            i = i + 1;
        }
        let ghost unsorted = names@;
        proof {
            assert forall|c: Seq<char>| #[trigger] kids.contains(c) implies exists|k: int|
                0 <= k < unsorted.len() && join(p@, unsorted[k]@) == c by {
                assert(paths_view(children@).to_set().contains(c));
                let k = choose|k: int| 0 <= k < paths_view(children@).len() && paths_view(children@)[k] == c;
                assert(join(p@, unsorted[k]@) == c);
            }
        }
        sort_names(&mut names);
        proof {
            assert forall|k: int| 0 <= k < names@.len() implies kids.contains(join(p@, #[trigger] names@[k]@)) by {
                unsorted.to_multiset_ensures();
                names@.to_multiset_ensures();
                assert(names@.contains(names@[k]));
                assert(names@.to_multiset().count(names@[k]) > 0);
                assert(unsorted.to_multiset().count(names@[k]) > 0);
                assert(unsorted.contains(names@[k]));
                let j = choose|j: int| 0 <= j < unsorted.len() && unsorted[j] == names@[k];
                assert(kids.contains(join(p@, unsorted[j]@)));
            }
            lemma_perm_keeps_distinct(unsorted, names@);
            reveal(names_cover);
            assert forall|c: Seq<char>| #[trigger] kids.contains(c) implies exists|k: int|
                0 <= k < names@.len() && join(p@, names@[k]@) == c by {
                let j = choose|j: int| 0 <= j < unsorted.len() && join(p@, unsorted[j]@) == c;
                unsorted.to_multiset_ensures();
                names@.to_multiset_ensures();
                assert(unsorted.contains(unsorted[j]));
                assert(unsorted.to_multiset().count(unsorted[j]) > 0);
                assert(names@.contains(unsorted[j]));
                let k = choose|k: int| 0 <= k < names@.len() && names@[k] == unsorted[j];
                assert(join(p@, names@[k]@) == c);
            }
        }
        Ok(names)
    }

    /// The entries for directory `p` of inode `ino` with parent inode
    /// `parent_ino` and children `names`.
    #[verifier::rlimit(100)]
    fn listing(&self, ino: u64, p: &String, parent_ino: u64, names: &Vec<String>, all: Ghost<Set<Seq<char>>>) -> (r: Vec<DirEntry>)
        requires
            self.wf(),
            forall|k: int|
                0 <= k < names@.len() ==> all@.contains(
                    join(p@, #[trigger] names@[k]@),
                ),
            forall|k: int|
                0 <= k < names@.len() - 1 ==> bytes_le(
                    encode_utf8(#[trigger] names@[k]@),
                    encode_utf8(names@[k + 1]@),
                ),
            paths_view(names@).no_duplicates(),
            names_cover(all@, p@, names@),
        ensures
            distinct_names(r@),
            lists_all(self.table(), all@, p@, r@),
            r@.len() >= 2,
            r@[0].ino == ino && r@[0].kind == FileKind::Directory && r@[0].name@ == seq!['.'],
            r@[1].ino == parent_ino && r@[1].kind == FileKind::Directory && r@[1].name@ == seq!['.', '.'],
            forall|k: int|
                2 <= k < r@.len() ==> {
                    let c = join(p@, (#[trigger] r@[k]).name@);
                    &&& all@.contains(c)
                    &&& self.table().contains_key(r@[k].ino)
                    &&& self.table()[r@[k].ino] == c
                    &&& r@[k].kind == self.kind_of(c)
                },
            sorted_names(r@),
    {
        let ghost kids = all@;
        let mut out: Vec<DirEntry> = Vec::new();
        proof {
            reveal_strlit(".");
            reveal_strlit("..");
        }
        out.push(DirEntry { ino, kind: FileKind::Directory, name: ".".to_owned() });
        out.push(DirEntry { ino: parent_ino, kind: FileKind::Directory, name: "..".to_owned() });
        assert(out@[0].name@ =~= seq!['.']);
        assert(out@[1].name@ =~= seq!['.', '.']);
        assert(picked_ok(names@, out@, 0, self.table(), p@)) by {
            reveal(picked_ok);
        }
        let mut k: usize = 0;
        while k < names.len()
            invariant
                kids == all@,
                out@.len() >= 2,
                out@[0].ino == ino && out@[0].kind == FileKind::Directory && out@[0].name@ == seq!['.'],
                out@[1].ino == parent_ino && out@[1].kind == FileKind::Directory && out@[1].name@ == seq!['.', '.'],
                0 <= k <= names.len(),
                forall|j: int| 0 <= j < names@.len() ==> kids.contains(join(p@, #[trigger] names@[j]@)),
                forall|j: int|
                    0 <= j < names@.len() - 1 ==> bytes_le(
                        encode_utf8(#[trigger] names@[j]@),
                        encode_utf8(names@[j + 1]@),
                    ),
                forall|j: int|
                    2 <= j < out@.len() ==> {
                        let c = join(p@, (#[trigger] out@[j]).name@);
                        &&& kids.contains(c)
                        &&& self.table().contains_key(out@[j].ino)
                        &&& self.table()[out@[j].ino] == c
                        &&& out@[j].kind == self.kind_of(c)
                    },
                forall|j: int|
                    2 <= j < out@.len() - 1 ==> bytes_le(encode_utf8((#[trigger] out@[j]).name@), encode_utf8(out@[j + 1].name@)),
                out@.len() > 2 ==> exists|m: int| 0 <= m < k && out@[out@.len() - 1].name@ == names@[m]@,
                paths_view(names@).no_duplicates(),
                picked_ok(names@, out@, k as int, self.table(), p@),
            decreases names.len() - k,
        {
            let c = join_path(p.as_str(), names[k].as_str());
            match table_ino(&self.inodes, &c) {
                Some(i) => {
                    let kind = if self.index.is_file(c.as_str()) {
                        FileKind::RegularFile
                    } else {
                        FileKind::Directory
                    };
                    let ghost before = out@;
                    out.push(DirEntry { ino: i, kind, name: names[k].clone() });
                    proof {
                        if before.len() > 2 {
                            let m = choose|m: int| 0 <= m < k && before[before.len() - 1].name@ == names@[m]@;
                            lemma_sorted_chain(names@, m, k as int);
                        }
                        lemma_picked_push(names@, before, k as int, self.table(), p@, out@[out@.len() - 1]);
                        assert(before.push(out@[out@.len() - 1]) =~= out@);
                    }
                },
                None => {
                    proof {
                        lemma_picked_skip(names@, out@, k as int, self.table(), p@);
                    }
                },
            }
            k = k + 1;
        }
        proof {
            lemma_picked_done(names@, out@, self.table(), p@, kids);
        }
        assert(sorted_names(out@)) by {
            reveal(sorted_names);
        }
        out
    }
}

/// Joining below `p` tells different names apart.
proof fn lemma_join_injective(p: Seq<char>, x: Seq<char>, y: Seq<char>)
    requires
        join(p, x) == join(p, y),
    ensures
        x == y,
{
    lemma_join_under(p, x);
    lemma_join_under(p, y);
}

/// A permutation of strings with distinct views has distinct views.
proof fn lemma_perm_keeps_distinct(a: Seq<String>, b: Seq<String>)
    requires
        a.to_multiset() == b.to_multiset(),
        paths_view(a).no_duplicates(),
    ensures
        paths_view(b).no_duplicates(),
{
    a.to_multiset_ensures();
    b.to_multiset_ensures();
    assert forall|x: int, y: int| 0 <= x < b.len() && 0 <= y < b.len() && x != y implies paths_view(b)[x]
        != paths_view(b)[y] by {
        if paths_view(b)[x] == paths_view(b)[y] {
            assert(b.contains(b[x]) && b.contains(b[y]));
            assert(b.to_multiset().count(b[x]) > 0 && b.to_multiset().count(b[y]) > 0);
            assert(a.contains(b[x]) && a.contains(b[y]));
            let i = choose|i: int| 0 <= i < a.len() && a[i] == b[x];
            if b[x] == b[y] {
                let r = b.remove(x);
                r.to_multiset_ensures();
                let y2 = if y < x { y } else { y - 1 };
                assert(r[y2] == b[y]);
                assert(r.contains(b[x]));
                assert(r.to_multiset().count(b[x]) > 0);
                assert(b.to_multiset().count(b[x]) >= 2);
                let ra = a.remove(i);
                ra.to_multiset_ensures();
                assert(ra.to_multiset().count(b[x]) > 0);
                assert(ra.contains(b[x]));
                let j2 = choose|j2: int| 0 <= j2 < ra.len() && ra[j2] == b[x];
                let j = if j2 < i { j2 } else { j2 + 1 };
                assert(a[j] == b[x] && j != i);
                assert(paths_view(a)[i] == paths_view(a)[j]);
            } else {
                let j = choose|j: int| 0 <= j < a.len() && a[j] == b[y];
                assert(i != j);
                assert(paths_view(a)[i] == paths_view(a)[j]);
            }
        }
    }
}

/// Entries after "." and ".." carry names among the first `k` of `names`,
/// each at most once, and each of those names whose path has an inode.
#[verifier::opaque]
spec fn picked_ok(names: Seq<String>, out: Seq<DirEntry>, k: int, t: Map<u64, Seq<char>>, p: Seq<char>) -> bool {
    &&& forall|j: int| 2 <= j < out.len() ==> exists|m: int| 0 <= m < k && (#[trigger] out[j]).name@ == names[m]@
    &&& forall|j: int, l: int| 2 <= j < l < out.len() ==> (#[trigger] out[j]).name@ != (#[trigger] out[l]).name@
    &&& forall|m: int|
        0 <= m < k && has_path(t, join(p, #[trigger] names[m]@)) ==> exists|j: int|
            2 <= j < out.len() && out[j].name@ == names[m]@
}

proof fn lemma_picked_push(names: Seq<String>, out: Seq<DirEntry>, k: int, t: Map<u64, Seq<char>>, p: Seq<char>, e: DirEntry)
    requires
        picked_ok(names, out, k, t, p),
        paths_view(names).no_duplicates(),
        0 <= k < names.len(),
        out.len() >= 2,
        e.name@ == names[k]@,
    ensures
        picked_ok(names, out.push(e), k + 1, t, p),
{
    reveal(picked_ok);
    let o = out.push(e);
    let n = out.len() as int;
    assert forall|j: int| 2 <= j < n implies (#[trigger] o[j]).name@ != o[n].name@ by {
        assert(o[j] == out[j]);
        let m = choose|m: int| 0 <= m < k && (#[trigger] out[j]).name@ == names[m]@;
        assert(paths_view(names)[m] != paths_view(names)[k]);
    }
    assert forall|j: int| 2 <= j < o.len() implies exists|m: int| 0 <= m < k + 1 && (#[trigger] o[j]).name@ == names[m]@ by {
        if j < n {
            assert(o[j] == out[j]);
            let m = choose|m: int| 0 <= m < k && (#[trigger] out[j]).name@ == names[m]@;
            assert(0 <= m < k + 1 && o[j].name@ == names[m]@);
        } else {
            assert(o[j].name@ == names[k]@);
        }
    }
    assert forall|j: int, l: int| 2 <= j < l < o.len() implies (#[trigger] o[j]).name@ != (#[trigger] o[l]).name@ by {
        if l < n {
            assert(o[j] == out[j] && o[l] == out[l]);
        }
    }
    assert forall|m: int|
        0 <= m < k + 1 && has_path(t, join(p, #[trigger] names[m]@)) implies exists|j: int|
        2 <= j < o.len() && o[j].name@ == names[m]@ by {
        if m < k {
            let j = choose|j: int| 2 <= j < out.len() && out[j].name@ == names[m]@;
            assert(o[j] == out[j]);
        } else {
            assert(o[n].name@ == names[m]@);
        }
    }
}

/// Every path of `kids` is `p` joined with one of `names`.
#[verifier::opaque]
pub open spec fn names_cover(kids: Set<Seq<char>>, p: Seq<char>, names: Seq<String>) -> bool {
    forall|c: Seq<char>| #[trigger] kids.contains(c) ==> exists|k: int| 0 <= k < names.len() && join(p, names[k]@) == c
}

proof fn lemma_picked_done(names: Seq<String>, out: Seq<DirEntry>, t: Map<u64, Seq<char>>, p: Seq<char>, kids: Set<Seq<char>>)
    requires
        picked_ok(names, out, names.len() as int, t, p),
        names_cover(kids, p, names),
    ensures
        distinct_names(out),
        lists_all(t, kids, p, out),
{
    reveal(picked_ok);
    reveal(names_cover);
    reveal(distinct_names);
    reveal(lists_all);
    assert forall|c: Seq<char>| kids.contains(c) && #[trigger] has_path(t, c) implies exists|k: int|
        2 <= k < out.len() && join(p, out[k].name@) == c by {
        let m = choose|m: int| 0 <= m < names.len() && join(p, names[m]@) == c;
        assert(has_path(t, join(p, names[m]@)));
        let j = choose|j: int| 2 <= j < out.len() && out[j].name@ == names[m]@;
        assert(join(p, out[j].name@) == c);
    }
}

/// Assembles the listing predicate from its parts.
#[verifier::rlimit(100)]
proof fn lemma_listing_fits_intro(t: Map<u64, Seq<char>>, v: IndexView, ino: u64, es: Seq<DirEntry>)
    requires
        t.contains_key(ino),
        v.is_dir(t[ino]),
        v.direct_children(t[ino]) is Ok,
        es.len() >= 2,
        es[0].ino == ino && es[0].kind == FileKind::Directory && es[0].name@ == seq!['.'],
        es[1].kind == FileKind::Directory && es[1].name@ == seq!['.', '.'],
        (if has_path(t, parent_dir(t[ino])) {
            t.contains_key(es[1].ino) && t[es[1].ino] == parent_dir(t[ino])
        } else {
            es[1].ino == ino
        }),
        forall|k: int|
            2 <= k < es.len() ==> {
                let c = join(t[ino], (#[trigger] es[k]).name@);
                &&& v.direct_children(t[ino])->Ok_0.contains(c)
                &&& t.contains_key(es[k].ino)
                &&& t[es[k].ino] == c
                &&& es[k].kind == kind_in(v, c)
            },
        sorted_names(es),
        distinct_names(es),
        lists_all(t, v.direct_children(t[ino])->Ok_0, t[ino], es),
    ensures
        listing_fits(t, v, ino, es),
{
    reveal(listing_fits);
}

proof fn lemma_picked_skip(names: Seq<String>, out: Seq<DirEntry>, k: int, t: Map<u64, Seq<char>>, p: Seq<char>)
    requires
        picked_ok(names, out, k, t, p),
        0 <= k < names.len(),
        !has_path(t, join(p, names[k]@)),
    ensures
        picked_ok(names, out, k + 1, t, p),
{
    reveal(picked_ok);
    assert forall|j: int| 2 <= j < out.len() implies exists|m: int| 0 <= m < k + 1 && (#[trigger] out[j]).name@ == names[m]@ by {
        let m = choose|m: int| 0 <= m < k && (#[trigger] out[j]).name@ == names[m]@;
        assert(0 <= m < k + 1 && out[j].name@ == names[m]@);
    }
}

/// In names sorted pairwise, an earlier name comes no later than a later one.
proof fn lemma_sorted_chain(names: Seq<String>, m: int, k: int)
    requires
        0 <= m < k < names.len(),
        forall|j: int|
            0 <= j < names.len() - 1 ==> bytes_le(encode_utf8(#[trigger] names[j]@), encode_utf8(names[j + 1]@)),
    ensures
        bytes_le(encode_utf8(names[m]@), encode_utf8(names[k]@)),
    decreases k - m,
{
    if m + 1 < k {
        lemma_sorted_chain(names, m + 1, k);
        lemma_bytes_le_trans(encode_utf8(names[m]@), encode_utf8(names[m + 1]@), encode_utf8(names[k]@));
    }
}

proof fn lemma_bytes_le_trans(a: Seq<u8>, b: Seq<u8>, c: Seq<u8>)
    requires
        bytes_le(a, b),
        bytes_le(b, c),
    ensures
        bytes_le(a, c),
    decreases a.len(),
{
    if a.len() > 0 && b.len() > 0 && c.len() > 0 {
        if a[0] == b[0] && b[0] == c[0] {
            lemma_bytes_le_trans(a.drop_first(), b.drop_first(), c.drop_first());
        }
    }
}

} // verus!
