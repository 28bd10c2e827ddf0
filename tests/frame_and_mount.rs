use zipurat::builder::Builder;
use zipurat::error::ArchiveError;
use zipurat::format::{header, index_from_record, locate_index, trailer};
use zipurat::codec::encode_index;
use zipurat::index::{Index, MAGIC};
use zipurat::locator::parse_sftp_url;
use zipurat::path::{
    basename_of, first_component_of, has_parent, is_under, join_path, name_matches, parent_of,
    strip_under,
};
use zipurat::vfs::{slice_window, ArchiveFs, FileKind, ReadCache, ReadStep, HEAD_BYTES, read_length};

fn sample() -> Index {
    let mut b = Builder::new();
    let h1 = *blake3::hash(b"hello").as_bytes();
    let h2 = *blake3::hash(b"world").as_bytes();
    b.record_chunk("a.txt".to_string(), h1, 5, 30);
    b.record_duplicate("sub/b.txt".to_string(), 0);
    b.record_chunk("sub/c.txt".to_string(), h2, 5, 31);
    b.record_empty_dir("empty".to_string());
    b.finish()
}

fn archive(chunks: &[u8], seg: &[u8]) -> Vec<u8> {
    let mut a = header();
    a.extend_from_slice(chunks);
    a.extend_from_slice(seg);
    a.extend_from_slice(&trailer(seg.len() as u64));
    a
}

#[test]
fn magic_frames_the_archive() {
    let a = archive(&[7u8; 61], &[5u8; 20]);
    assert_eq!(&a[..8], &0xA9A98D26AA1F3FDDu64.to_le_bytes());
    assert_eq!(&a[a.len() - 8..], &MAGIC.to_le_bytes());
    assert_eq!(&a[a.len() - 16..a.len() - 8], &20u64.to_le_bytes());
}

#[test]
fn trailer_locates_the_index_segment() {
    let a = archive(&[7u8; 61], &[5u8; 20]);
    let total = a.len() as u64;
    assert_eq!(locate_index(total, &a[a.len() - 16..]), Ok((69, 20)));
}

#[test]
fn truncated_archive_is_refused() {
    let a = archive(&[7u8; 61], &[5u8; 20]);
    let t = &a[..a.len() - 1];
    assert_eq!(locate_index(t.len() as u64, &t[t.len() - 16..]), Err(ArchiveError::Format));
}

#[test]
fn flipped_magic_bit_is_refused() {
    let a = archive(&[7u8; 61], &[5u8; 20]);
    for bit in 0..64 {
        let mut b = a.clone();
        let n = b.len();
        b[n - 8 + bit / 8] ^= 1 << (bit % 8);
        assert_eq!(locate_index(n as u64, &b[n - 16..]), Err(ArchiveError::Format));
    }
}

#[test]
fn oversized_index_length_is_refused() {
    let a = archive(&[], &[5u8; 3]);
    let mut b = a.clone();
    let n = b.len();
    b[n - 16..n - 8].copy_from_slice(&100u64.to_le_bytes());
    assert_eq!(locate_index(n as u64, &b[n - 16..]), Err(ArchiveError::Format));
    assert_eq!(locate_index(10, &b[n - 16..]), Err(ArchiveError::Format));
}

#[test]
fn record_with_other_magic_is_refused() {
    let mut idx = sample();
    let ok = encode_index(&idx).unwrap();
    assert!(index_from_record(&ok).is_ok());
    idx.magic_number = 1;
    let bad = encode_index(&idx).unwrap();
    assert_eq!(index_from_record(&bad).err(), Some(ArchiveError::Format));
}

#[test]
fn path_components() {
    assert!(is_under("a/b", "a"));
    assert!(!is_under("ab", "a"));
    assert!(is_under("a", ""));
    assert_eq!(strip_under("a/b/c", "a"), "b/c");
    assert_eq!(strip_under("a", "a"), "");
    assert_eq!(first_component_of("a/b/c"), "a");
    assert_eq!(basename_of("a/b/c.txt"), "c.txt");
    assert_eq!(parent_of("a/b/c.txt"), "a/b");
    assert_eq!(parent_of("c.txt"), "");
    assert!(has_parent("a/b"));
    assert!(!has_parent("a"));
    assert_eq!(join_path("", "x"), "x");
    assert_eq!(join_path("a", "x"), "a/x");
    assert!(name_matches("hello", "ell"));
    assert!(!name_matches("hello", "elo"));
    assert!(name_matches("x", ""));
}

#[test]
fn mount_lists_and_describes() {
    let mut fs = ArchiveFs::new(sample(), 4, 1000).unwrap();
    let root = fs.readdir(1).unwrap();
    let names: Vec<&str> = root.iter().map(|e| e.name.as_str()).collect();
    assert_eq!(names, vec![".", "..", "a.txt", "empty", "sub"]);
    assert_eq!(root[0].ino, 1);
    assert_eq!(root[1].ino, 1);
    assert_eq!(root[2].kind, FileKind::RegularFile);
    assert_eq!(root[3].kind, FileKind::Directory);
    let empty = fs.lookup(1, "empty").unwrap();
    assert_eq!(empty.kind, FileKind::Directory);
    assert_eq!(empty.nlink, 2);
    assert_eq!(empty.perm, 0o755);
    let sub = fs.lookup(1, "sub").unwrap();
    assert_eq!(sub.nlink, 4);
    let root_attr = fs.getattr(1).unwrap();
    assert_eq!(root_attr.nlink, 4);
    assert_eq!(root_attr.kind, FileKind::Directory);
    let c = fs.lookup(sub.ino, "c.txt").unwrap();
    assert_eq!(c.size, 5);
    assert_eq!(c.kind, FileKind::RegularFile);
    assert_eq!(c.perm, 0o644);
    assert_eq!((c.nlink, c.uid, c.gid, c.blksize, c.blocks), (1, 501, 20, 512, 1));
    assert_eq!(fs.getattr(c.ino), Ok(c));
    assert_eq!(fs.getattr(c.ino), Ok(c));
    let listing = fs.readdir(sub.ino).unwrap();
    assert_eq!(listing[1].ino, 1);
    let names: Vec<&str> = listing.iter().map(|e| e.name.as_str()).collect();
    assert_eq!(names, vec![".", "..", "b.txt", "c.txt"]);
}

#[test]
fn mount_misses_are_not_found() {
    let mut fs = ArchiveFs::new(sample(), 4, 1000).unwrap();
    assert_eq!(fs.lookup(1, "nope").err(), Some(ArchiveError::NotFound));
    assert_eq!(fs.lookup(999, "a.txt").err(), Some(ArchiveError::NotFound));
    assert_eq!(fs.getattr(999).err(), Some(ArchiveError::NotFound));
    let a = fs.lookup(1, "a.txt").unwrap();
    assert_eq!(fs.readdir(a.ino).err(), Some(ArchiveError::NotFound));
    assert_eq!(fs.begin_read(1, 0, 10).err(), Some(ArchiveError::NotFound));
}

#[test]
fn reads_fetch_then_hit_the_caches() {
    let mut fs = ArchiveFs::new(sample(), 4, 1000).unwrap();
    let sub = fs.lookup(1, "sub").unwrap();
    let c = fs.lookup(sub.ino, "c.txt").unwrap();
    match fs.begin_read(c.ino, 0, 4096).unwrap() {
        ReadStep::FetchHead { path, len } => {
            assert_eq!(path, "sub/c.txt");
            assert_eq!(len, 5);
            assert_eq!(fs.finish_head_read(c.ino, b"world".to_vec(), len), b"world");
        }
        other => panic!("unexpected {:?}", other),
    }
    match fs.begin_read(c.ino, 0, 4096).unwrap() {
        ReadStep::Ready(d) => assert_eq!(d, b"world"),
        other => panic!("unexpected {:?}", other),
    }
    match fs.begin_read(c.ino, 1, HEAD_BYTES).unwrap() {
        ReadStep::FetchBody { path, offset, len } => {
            assert_eq!((path.as_str(), offset, len), ("sub/c.txt", 1, 4));
            assert_eq!(fs.finish_body_read(&path, b"world", offset, len), b"orld");
        }
        other => panic!("unexpected {:?}", other),
    }
    match fs.begin_read(c.ino, 3, 100).unwrap() {
        ReadStep::Ready(d) => assert_eq!(d, b"ld"),
        other => panic!("unexpected {:?}", other),
    }
}

#[test]
fn mount_refuses_an_empty_path() {
    let mut idx = sample();
    idx.empty_dirs.push(String::new());
    assert_eq!(ArchiveFs::new(idx, 1, 1).err(), Some(ArchiveError::Format));
}

#[test]
fn tiled_reads_give_the_whole_file() {
    let body: Vec<u8> = (0..100u8).collect();
    let mut whole = Vec::new();
    let mut off = 0u64;
    for size in [7u32, 30, 1, 50, 40] {
        let n = read_length(off, size, 100);
        whole.extend(slice_window(&body, off, n));
        off += n;
    }
    assert_eq!(whole, body);
    assert_eq!(read_length(100, 10, 100), 0);
    assert_eq!(read_length(95, 10, 100), 5);
    assert_eq!(slice_window(&body, 98, 10), vec![98, 99]);
    assert_eq!(slice_window(&body, 200, 10), Vec::<u8>::new());
}

#[test]
fn read_cache_is_bounded_and_first_in_first_out() {
    let mut c = ReadCache::new(4, 2);
    c.offer("a", b"1");
    c.offer("b", b"22");
    c.offer("big", b"55555");
    assert!(c.get(&"big".to_string()).is_none());
    c.offer("c", b"333");
    assert!(c.get(&"a".to_string()).is_none());
    assert_eq!(c.get(&"b".to_string()).unwrap(), b"22");
    assert_eq!(c.get(&"c".to_string()).unwrap(), b"333");
    let mut none = ReadCache::new(10, 0);
    none.offer("a", b"1");
    assert!(none.get(&"a".to_string()).is_none());
}

#[test]
fn sftp_locators_are_parsed() {

    let t = parse_sftp_url("sftp://u@h:/tmp/x.zpr").unwrap();
    assert_eq!((t.user.as_str(), t.host.as_str(), t.port, t.path.as_str()), ("u", "h", 22, "/tmp/x.zpr"));
    let t = parse_sftp_url("sftp://me@example.org:2222:backups/a.zpr").unwrap();
    assert_eq!((t.user.as_str(), t.host.as_str(), t.port, t.path.as_str()), ("me", "example.org", 2222, "backups/a.zpr"));
    let t = parse_sftp_url("sftp://u@h:rel:x").unwrap();
    assert_eq!((t.port, t.path.as_str()), (22, "rel:x"));
    assert!(parse_sftp_url("/tmp/x.zpr").is_none());
    assert!(parse_sftp_url("sftp://h:/tmp/x").is_none());
    assert!(parse_sftp_url("sftp://u@h").is_none());
    let t = parse_sftp_url("sftp://u@h:99999999999999999999:/p").unwrap();
    assert_eq!((t.port, t.path.as_str()), (22, "99999999999999999999:/p"));
}

#[test]
fn mount_numbers_every_path_and_ancestor() {
    let mut b = Builder::new();
    b.record_chunk("x/y/z.txt".to_string(), [1u8; 32], 3, 10);
    b.record_empty_dir("e/f".to_string());
    let mut fs = ArchiveFs::new(b.finish(), 2, 100).unwrap();
    let x = fs.lookup(1, "x").unwrap();
    let y = fs.lookup(x.ino, "y").unwrap();
    let z = fs.lookup(y.ino, "z.txt").unwrap();
    let e = fs.lookup(1, "e").unwrap();
    let f = fs.lookup(e.ino, "f").unwrap();
    let mut inos = vec![1, x.ino, y.ino, z.ino, e.ino, f.ino];
    inos.sort();
    assert_eq!(inos, vec![1, 2, 3, 4, 5, 6]);
    assert_eq!(fs.getattr(y.ino).unwrap().ino, y.ino);
    let root = fs.readdir(1).unwrap();
    let names: Vec<&str> = root.iter().map(|e| e.name.as_str()).collect();
    assert_eq!(names, vec![".", "..", "e", "x"]);
    let listing = fs.readdir(y.ino).unwrap();
    assert_eq!(listing[1].ino, x.ino);
    assert_eq!(listing[2].ino, z.ino);
}

#[test]
fn whole_file_reads_fill_the_bounded_cache() {
    let mut fs = ArchiveFs::new(sample(), 1, 5).unwrap();
    let a = fs.lookup(1, "a.txt").unwrap();
    let sub = fs.lookup(1, "sub").unwrap();
    let c = fs.lookup(sub.ino, "c.txt").unwrap();
    assert_eq!(fs.finish_body_read("a.txt", b"hello", 2, 2), b"ll");
    match fs.begin_read(a.ino, 1, HEAD_BYTES).unwrap() {
        ReadStep::Ready(d) => assert_eq!(d, b"ello"),
        other => panic!("unexpected {:?}", other),
    }
    fs.finish_body_read("sub/c.txt", b"world", 0, 5);
    assert!(matches!(fs.begin_read(a.ino, 1, HEAD_BYTES).unwrap(), ReadStep::FetchBody { .. }));
    assert!(matches!(fs.begin_read(c.ino, 1, HEAD_BYTES).unwrap(), ReadStep::Ready(_)));
}
