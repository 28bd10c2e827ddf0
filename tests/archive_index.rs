use zipurat::builder::{compare_blocks, randomize_order, BlockOutcome, Builder};
use zipurat::codec::{decode_index, encode_index, SimpleBinRepr};
use zipurat::digest::{check_digest, may_skip_restore, verify_content};
use zipurat::error::ArchiveError;
use zipurat::index::{Index, MAGIC};

fn digest(b: &[u8]) -> [u8; 32] {
    *blake3::hash(b).as_bytes()
}

/// a.txt:"hello", sub/b.txt:"hello", sub/c.txt:"world", empty/
fn sample() -> Index {
    let mut b = Builder::new();
    let h1 = digest(b"hello");
    let h2 = digest(b"world");
    assert!(b.dedup_candidates(&h1).is_empty());
    b.record_chunk("a.txt".to_string(), h1, 5, 30);
    let cands = b.dedup_candidates(&h1);
    assert_eq!(cands.len(), 1);
    assert_eq!(cands[0].1, "a.txt");
    b.record_duplicate("sub/b.txt".to_string(), cands[0].0);
    assert!(b.dedup_candidates(&h2).is_empty());
    b.record_chunk("sub/c.txt".to_string(), h2, 5, 31);
    b.record_empty_dir("empty".to_string());
    b.finish()
}

fn sorted(mut v: Vec<String>) -> Vec<String> {
    v.sort();
    v
}

#[test]
fn listing_the_root_shows_files_dirs_and_empty_dirs() {
    let idx = sample();
    let kids = sorted(idx.get_direct_children("").unwrap());
    assert_eq!(kids, vec!["a.txt", "empty", "sub"]);
}

#[test]
fn du_of_root_sums_all_files() {
    let idx = sample();
    assert_eq!(idx.du(""), Ok(15));
    assert_eq!(idx.du("sub"), Ok(10));
    assert_eq!(idx.du("a.txt"), Ok(5));
}

#[test]
fn identical_files_share_a_chunk() {
    let idx = sample();
    assert_eq!(idx.index("a.txt"), idx.index("sub/b.txt"));
    assert_eq!(idx.index("a.txt"), Some((8, 30)));
    assert_eq!(idx.index("sub/c.txt"), Some((38, 31)));
    assert_eq!(idx.hashes.len(), 2);
    assert_eq!(idx.mapping.len() - idx.hashes.len(), 1);
}

#[test]
fn search_matches_names_and_parent_names() {
    let idx = sample();
    assert_eq!(sorted(idx.search("sub")), vec!["sub"]);
    assert_eq!(sorted(idx.search("TXT")), vec!["a.txt", "sub/b.txt", "sub/c.txt"]);
    assert_eq!(sorted(idx.search("C.t")), vec!["sub/c.txt"]);
    assert_eq!(sorted(idx.search("empt")), vec!["empty"]);
    assert!(idx.search("ell").is_empty());
}

#[test]
fn subindex_strips_the_directory() {
    let idx = sample();
    let sub = idx.subindex("sub").unwrap();
    let keys = sorted(sub.mapping.iter().map(|e| e.0.clone()).collect());
    assert_eq!(keys, vec!["b.txt", "c.txt"]);
    assert_eq!(sub.hashes.len(), 2);
    assert_eq!(sub.sizes.len(), 2);
    assert_eq!(sub.magic_number, MAGIC);
    let root = idx.subindex("").unwrap();
    assert_eq!(root.mapping.len(), 3);
    assert_eq!(root.empty_dirs, vec!["empty"]);
}

#[test]
fn subindex_of_an_empty_dir_is_empty() {
    let idx = sample();
    let e = idx.subindex("empty").unwrap();
    assert!(e.mapping.is_empty() && e.hashes.is_empty() && e.sizes.is_empty() && e.empty_dirs.is_empty());
    assert_eq!(e.magic_number, MAGIC);
    assert_eq!(idx.get_direct_children("empty").unwrap().len(), 0);
}

#[test]
fn subindex_of_a_file_is_refused() {
    let idx = sample();
    assert_eq!(idx.subindex("a.txt").err(), Some(ArchiveError::NotADirectory));
    assert_eq!(idx.subindex("nope").err(), Some(ArchiveError::NotADirectory));
    assert_eq!(idx.get_direct_children("a.txt").err(), Some(ArchiveError::NotADirectory));
}

#[test]
fn files_and_directories() {
    let idx = sample();
    assert!(idx.is_file("a.txt"));
    assert!(!idx.is_file("sub"));
    assert!(idx.is_dir("sub"));
    assert!(idx.is_dir(""));
    assert!(idx.is_dir("empty"));
    assert!(!idx.is_dir("su"));
    assert!(!idx.is_dir("a.txt"));
    assert!(idx.lists_empty_dir("empty"));
}

#[test]
fn unknown_paths_are_not_found() {
    let idx = sample();
    assert_eq!(idx.du("nope"), Err(ArchiveError::NotFound));
    assert_eq!(idx.index("nope"), None);
    assert_eq!(idx.index_length_and_hash("nope"), Err(ArchiveError::NotFound));
}

#[test]
fn chunk_length_and_digest() {
    let idx = sample();
    assert_eq!(idx.index_length_and_hash("sub/b.txt"), Ok((8, 30, digest(b"hello"))));
}

#[test]
fn missing_size_or_digest_is_malformed() {
    let mut idx = sample();
    idx.sizes.clear();
    assert_eq!(idx.du("a.txt"), Err(ArchiveError::Format));
    assert_eq!(idx.du(""), Err(ArchiveError::Format));
    idx.hashes.clear();
    assert_eq!(idx.index_length_and_hash("a.txt"), Err(ArchiveError::Format));
}

#[test]
fn index_record_round_trips() {
    let idx = sample();
    let bytes = encode_index(&idx).unwrap();
    let mut with_tail = bytes.clone();
    with_tail.extend_from_slice(&[1, 2, 3]);
    let back = decode_index(&with_tail).unwrap();
    assert_eq!(back.hashes, idx.hashes);
    assert_eq!(back.sizes, idx.sizes);
    assert_eq!(back.mapping, idx.mapping);
    assert_eq!(back.empty_dirs, idx.empty_dirs);
    assert_eq!(back.magic_number, MAGIC);
}

#[test]
fn index_record_layout() {
    let mut idx = Index::new(7);
    idx.hashes.push(((8, 2), [9u8; 32]));
    idx.sizes.push((8, 3));
    idx.mapping.push(("é".to_string(), (8, 2)));
    let b = encode_index(&idx).unwrap();
    let mut want: Vec<u8> = Vec::new();
    want.extend_from_slice(&1u64.to_le_bytes());
    want.extend_from_slice(&8u64.to_le_bytes());
    want.extend_from_slice(&2u64.to_le_bytes());
    want.extend_from_slice(&1u64.to_le_bytes());
    want.extend_from_slice(&[9u8; 32]);
    want.extend_from_slice(&1u64.to_le_bytes());
    want.extend_from_slice(&3u64.to_le_bytes());
    want.extend_from_slice(&1u64.to_le_bytes());
    want.extend_from_slice(&8u64.to_le_bytes());
    want.extend_from_slice(&2u64.to_le_bytes());
    want.extend_from_slice(&1u64.to_le_bytes());
    want.extend_from_slice(&2u64.to_le_bytes());
    want.extend_from_slice("é".as_bytes());
    want.extend_from_slice(&0u64.to_le_bytes());
    want.extend_from_slice(&7u64.to_le_bytes());
    assert_eq!(b, want);
}

#[test]
fn malformed_records_are_refused() {
    assert_eq!(decode_index(&[]).err(), Some(ArchiveError::Format));
    let idx = sample();
    let bytes = encode_index(&idx).unwrap();
    assert_eq!(decode_index(&bytes[..bytes.len() - 1]).err(), Some(ArchiveError::Format));
    // two chunk references but one digest
    let mut b: Vec<u8> = Vec::new();
    b.extend_from_slice(&2u64.to_le_bytes());
    for x in [8u64, 1, 9, 1] {
        b.extend_from_slice(&x.to_le_bytes());
    }
    b.extend_from_slice(&1u64.to_le_bytes());
    b.extend_from_slice(&[0u8; 32]);
    for _ in 0..4 {
        b.extend_from_slice(&0u64.to_le_bytes());
    }
    b.extend_from_slice(&MAGIC.to_le_bytes());
    assert_eq!(decode_index(&b).err(), Some(ArchiveError::Format));
    // a path that is not UTF-8
    let mut p: Vec<u8> = Vec::new();
    for _ in 0..3 {
        p.extend_from_slice(&0u64.to_le_bytes());
    }
    p.extend_from_slice(&1u64.to_le_bytes());
    p.extend_from_slice(&8u64.to_le_bytes());
    p.extend_from_slice(&1u64.to_le_bytes());
    p.extend_from_slice(&1u64.to_le_bytes());
    p.extend_from_slice(&1u64.to_le_bytes());
    p.push(0xff);
    p.extend_from_slice(&0u64.to_le_bytes());
    p.extend_from_slice(&MAGIC.to_le_bytes());
    assert_eq!(decode_index(&p).err(), Some(ArchiveError::Format));
}

#[test]
fn sizes_are_looked_up_by_chunk_offset_when_encoding() {
    let idx = sample();
    let mut shuffled = sample();
    shuffled.sizes.reverse();
    assert_eq!(encode_index(&shuffled), encode_index(&idx));
    let back = decode_index(&encode_index(&shuffled).unwrap()).unwrap();
    assert_eq!(back.sizes, idx.sizes);
    let mut missing = sample();
    missing.sizes.remove(0);
    assert_eq!(encode_index(&missing).err(), Some(ArchiveError::Format));
}

#[test]
fn sizes_listed_in_another_order_than_the_digests() {
    let mut idx = Index::new(MAGIC);
    idx.hashes.push(((8, 1), [1u8; 32]));
    idx.hashes.push(((9, 1), [2u8; 32]));
    idx.sizes.push((9, 20));
    idx.sizes.push((8, 10));
    idx.mapping.push(("a".to_string(), (8, 1)));
    idx.mapping.push(("b".to_string(), (9, 1)));
    let mut out = Vec::new();
    assert_eq!(idx.write_bin(&mut out), Ok(()));
    let back = Index::read_bin(&out).unwrap();
    assert_eq!(back.sizes, vec![(8, 10), (9, 20)]);
    assert_eq!(back.du(""), Ok(30));
}

#[test]
fn content_is_checked_against_its_digest() {
    let idx = sample();
    assert_eq!(verify_content(&idx, "sub/c.txt", b"world"), Ok(()));
    assert_eq!(verify_content(&idx, "sub/c.txt", b"worle"), Err(ArchiveError::Integrity));
    assert_eq!(verify_content(&idx, "nope", b"world"), Err(ArchiveError::NotFound));
    assert_eq!(check_digest(&[1u8; 32], &[1u8; 32]), Ok(()));
    assert_eq!(check_digest(&[1u8; 32], &[2u8; 32]), Err(ArchiveError::Integrity));
}

#[test]
fn restore_skips_only_trusted_matching_files() {
    let h = digest(b"hello");
    assert!(may_skip_restore(true, &h, Some(h)));
    assert!(!may_skip_restore(false, &h, Some(h)));
    assert!(!may_skip_restore(true, &h, Some(digest(b"world"))));
    assert!(!may_skip_restore(true, &h, None));
}

#[test]
fn block_comparison() {
    assert_eq!(compare_blocks(b"abc", b"abc"), BlockOutcome::More);
    assert_eq!(compare_blocks(b"abc", b"abd"), BlockOutcome::Differ);
    assert_eq!(compare_blocks(b"abc", b"ab"), BlockOutcome::Differ);
    assert_eq!(compare_blocks(b"", b""), BlockOutcome::Equal);
}

#[test]
fn randomized_order_keeps_the_paths() {
    let files: Vec<String> = (0..50).map(|i| format!("f{i}")).collect();
    let dirs: Vec<String> = vec!["d1".to_string(), "d2".to_string()];
    let mut f2 = files.clone();
    let mut d2 = dirs.clone();
    assert_eq!(randomize_order(&mut f2, &mut d2), Ok(()));
    assert_eq!(sorted(f2), sorted(files));
    assert_eq!(sorted(d2), dirs);
}

#[test]
fn chunks_follow_each_other() {
    let mut b = Builder::new();
    assert_eq!(b.next_chunk_offset(), 8);
    b.record_chunk("x".to_string(), [1u8; 32], 3, 10);
    assert_eq!(b.next_chunk_offset(), 18);
    b.record_chunk("y".to_string(), [2u8; 32], 4, 7);
    assert_eq!(b.next_chunk_offset(), 25);
    let idx = b.finish();
    assert_eq!(idx.index("y"), Some((18, 7)));
    assert_eq!(idx.magic_number, MAGIC);
    assert_eq!(idx.du(""), Ok(7));
}

#[test]
fn error_descriptions() {
    assert_eq!(ArchiveError::NotFound.describe(), "path not found");
    assert_eq!(ArchiveError::Exists.describe(), "archive already exists");
}

#[test]
fn values_encode_and_read_back() {
    assert_eq!(7u64.simple_bin_vec().unwrap(), 7u64.to_le_bytes().to_vec());
    assert_eq!(u64::read_bin(&7u64.to_le_bytes()), Some(7));
    assert_eq!(u64::read_bin(&[1, 2, 3]), None);
    let p: (u64, u64) = (8, 30);
    let pb = p.simple_bin_vec().unwrap();
    assert_eq!(pb.len(), 16);
    assert_eq!(<(u64, u64)>::read_bin(&pb), Some((8, 30)));
    let d = [3u8; 32];
    assert_eq!(<[u8; 32]>::read_bin(&d.simple_bin_vec().unwrap()), Some(d));
    let s = "sub/ä.txt".to_string();
    let sb = s.simple_bin_vec().unwrap();
    assert_eq!(&sb[..8], &(s.len() as u64).to_le_bytes());
    assert_eq!(String::read_bin(&sb), Some(s));
    let idx = sample();
    let mut out = vec![0xAAu8];
    idx.write_bin(&mut out).unwrap();
    assert_eq!(&out[1..], encode_index(&idx).unwrap().as_slice());
    let back = Index::read_bin(&out[1..]).unwrap();
    assert_eq!(back.mapping, idx.mapping);
    let mut bad = sample();
    bad.sizes.pop();
    let mut untouched = vec![1u8];
    assert_eq!(bad.write_bin(&mut untouched), Err(ArchiveError::Format));
    assert_eq!(untouched, vec![1u8]);
    assert!(Index::read_bin(&[0u8; 3]).is_none());
}

#[test]
fn du_of_a_directory_equals_du_of_its_subindex_root() {
    let idx = sample();
    for d in ["", "sub"] {
        let sub = idx.subindex(d).unwrap();
        assert_eq!(idx.du(d), sub.du(""));
    }
    assert_eq!(idx.subindex("sub").unwrap().du(""), Ok(10));
}

#[test]
fn duplicates_are_counted_by_the_mapping() {
    let mut b = Builder::new();
    let h = digest(b"same");
    b.record_chunk("x".to_string(), h, 4, 12);
    b.record_duplicate("y".to_string(), 0);
    b.record_duplicate("z".to_string(), 0);
    let idx = b.finish();
    assert_eq!(idx.mapping.len() - idx.hashes.len(), 2);
    assert_eq!(idx.index("z"), idx.index("x"));
}
