use filedb::crawl::{crawl_initial, WalkEntry};
use filedb::digest::{dir_hash_input, propagate_hashes};
use filedb::ops::{add, splice_paths};
use filedb::persist::{decode, encode, load_compressed, save_compressed};
use filedb::query::{all_files_elsewhere, dedup};
use filedb::report::{dump, dump_full, stats};
use filedb::store::{FileDb, FileDbEntry, FileDbError, SENTINEL};

fn dir(path: &str) -> WalkEntry {
    WalkEntry { path: path.as_bytes().to_vec(), is_dir: true, size: 0, modified: 5, accessed: 6, hash: [0u8; 32] }
}

fn file(path: &str, size: u64, h: u8) -> WalkEntry {
    WalkEntry { path: path.as_bytes().to_vec(), is_dir: false, size, modified: 7, accessed: 8, hash: [h; 32] }
}

fn times_for(root: &str) -> Vec<(u64, u64)> {
    splice_paths(root.as_bytes()).iter().map(|_| (1, 2)).collect()
}

fn two_copies() -> FileDb {
    let walk = vec![
        dir("/d"),
        dir("/d/one"),
        file("/d/one/a", 10, 1),
        file("/d/one/b", 20, 2),
        dir("/d/two"),
        file("/d/two/b", 20, 2),
        file("/d/two/a", 10, 1),
        file("/d/other", 7, 3),
    ];
    let mut db = Vec::new();
    add(&mut db, b"/d", &times_for("/d"), &walk).unwrap();
    db
}

#[test]
fn dedup_finds_whole_subtrees() {
    let mut db = two_copies();
    let groups = dedup(&mut db).unwrap();
    // /d/one with /d/two (size 30), a-files (10), b-files (20).
    assert_eq!(groups.len(), 3);
    assert_eq!(groups[0].size, 30);
    assert_eq!(groups[0].members, vec![2, 5]);
    assert_eq!(groups[1].size, 20);
    assert_eq!(groups[1].members, vec![4, 6]);
    assert_eq!(groups[2].size, 10);
    assert_eq!(groups[2].members, vec![3, 7]);
    assert_eq!(db[2].hash, db[5].hash);
    assert_ne!(db[2].hash, [0u8; 32]);
}

#[test]
fn dedup_ranks_by_saved_bytes() {
    let walk = vec![
        dir("/d"),
        file("/d/a1", 1, 1),
        file("/d/a2", 1, 1),
        file("/d/a3", 1, 1),
        file("/d/a4", 1, 1),
        file("/d/b1", 2, 2),
        file("/d/b2", 2, 2),
    ];
    let mut db = crawl_initial(b"/d", &times_for("/d"), &walk).unwrap();
    let groups = dedup(&mut db).unwrap();
    assert_eq!(groups.len(), 2);
    // 1 byte x 3 extra copies beats 2 bytes x 1 extra copy.
    assert_eq!(groups[0].size, 1);
    assert_eq!(groups[0].members.len(), 4);
    assert_eq!(groups[1].size, 2);
}

#[test]
fn directory_hash_digests_children_in_name_order() {
    let walk = vec![dir("/d"), file("/d/zeta", 1, 1), file("/d/alpha", 1, 2)];
    let mut db = crawl_initial(b"/d", &times_for("/d"), &walk).unwrap();
    let input = dir_hash_input(&db, &vec![2, 3]);
    let mut expected = vec![2u8; 32];
    expected.extend(vec![1u8; 32]);
    assert_eq!(input, expected);
    propagate_hashes(&mut db).unwrap();
    assert_eq!(db[1].hash, *blake3::hash(&expected).as_bytes());
    assert_ne!(db[1].hash.to_vec(), expected[..32].to_vec());
    assert_eq!(db[0].hash, [0u8; 32]);
    assert_eq!(db[2].hash, [1u8; 32]);
}

#[test]
fn same_child_hashes_give_same_directory_hash() {
    let w1 = vec![dir("/p"), dir("/p/x"), file("/p/x/a", 1, 5), file("/p/x/b", 2, 6)];
    let w2 = vec![dir("/q"), dir("/q/renamed"), file("/q/renamed/a", 100, 5), file("/q/renamed/b", 200, 6)];
    let mut d1 = crawl_initial(b"/p", &times_for("/p"), &w1).unwrap();
    let mut d2 = crawl_initial(b"/q", &times_for("/q"), &w2).unwrap();
    propagate_hashes(&mut d1).unwrap();
    propagate_hashes(&mut d2).unwrap();
    assert_eq!(d1[2].hash, d2[2].hash);
}

#[test]
fn elsewhere_coverage() {
    let walk = vec![
        dir("/d"),
        dir("/d/backup"),
        file("/d/backup/a", 10, 1),
        file("/d/backup/lost", 5, 9),
        file("/d/backup/empty", 0, 0),
        dir("/d/backup/sub"),
        dir("/d/live"),
        file("/d/live/a", 10, 1),
    ];
    let db = crawl_initial(b"/d", &times_for("/d"), &walk).unwrap();
    let c = all_files_elsewhere(&db, b"/d/backup", &None);
    assert_eq!(c.covered, vec![3]);
    assert_eq!(c.missing, vec![4]);
    assert_eq!(c.dirs, 2);
    assert_eq!(c.empty_files, 1);
    assert_eq!(c.covered_bytes, 10);
    assert_eq!(c.missing_bytes, 5);
    let c2 = all_files_elsewhere(&db, b"/d/backup", &Some(b"/d/nowhere".to_vec()));
    assert_eq!(c2.missing, vec![3, 4]);
    assert!(c2.covered.is_empty());
}

#[test]
fn stats_and_dump() {
    let db = two_copies();
    let st = stats(&db, &None);
    assert_eq!((st.entries, st.files, st.dirs, st.size), (9, 5, 4, 67));
    assert_eq!(st.largest, Some(1));
    let st2 = stats(&db, &Some(b"/d/one".to_vec()));
    assert_eq!((st2.files, st2.dirs, st2.size), (2, 1, 30));
    let lines = dump(&db).unwrap();
    assert_eq!(lines[3], b"/d/one/a".to_vec());
    let full = dump_full(&db).unwrap();
    let mut expected = b"/d/one/a 10 [".to_vec();
    expected.extend(vec!["1"; 32].join(", ").into_bytes());
    expected.push(b']');
    assert_eq!(full[3], expected);
}

#[test]
fn catalog_round_trip() {
    let db = two_copies();
    let bytes = save_compressed(&db);
    let packed = encode(&db);
    assert_ne!(bytes, packed);
    let back = load_compressed(&bytes).unwrap();
    assert_eq!(back.len(), db.len());
    for (a, b) in back.iter().zip(db.iter()) {
        assert_eq!(a.name, b.name);
        assert_eq!((a.is_dir, a.parent, a.size, a.modified, a.accessed, a.hash), (b.is_dir, b.parent, b.size, b.modified, b.accessed, b.hash));
    }
    assert_eq!(encode(&back), packed);
    assert_eq!(load_compressed(&packed).err(), Some(FileDbError::IoError));
}

#[test]
fn packed_layout() {
    let db = vec![FileDbEntry { name: b"/".to_vec(), is_dir: true, parent: SENTINEL, size: 258, modified: 1, accessed: 2, hash: [7u8; 32] }];
    let b = encode(&db);
    let mut expected = vec![1, 0, 0, 0, 0, 0, 0, 0];
    expected.extend([0, 0, 0, 0]);
    expected.extend([1, 0, 0, 0, 0, 0, 0, 0, b'/']);
    expected.push(1);
    expected.extend([255, 255, 255, 255]);
    expected.extend([2, 1, 0, 0, 0, 0, 0, 0]);
    expected.extend([1, 0, 0, 0, 0, 0, 0, 0]);
    expected.extend([2, 0, 0, 0, 0, 0, 0, 0]);
    expected.extend([7u8; 32]);
    assert_eq!(b, expected);
    assert_eq!(decode(&b).unwrap().len(), 1);
    let mut other_tag = b.clone();
    other_tag[8] = 1;
    assert_eq!(decode(&other_tag).err(), Some(FileDbError::CorruptIndex));
    assert_eq!(decode(&b[..b.len() - 1]).err(), Some(FileDbError::CorruptIndex));
    let mut bad_flag = b.clone();
    bad_flag[21] = 2;
    assert_eq!(decode(&bad_flag).err(), Some(FileDbError::CorruptIndex));
}

#[test]
fn corrupt_catalog_is_refused() {
    let db = vec![
        FileDbEntry { name: b"/".to_vec(), is_dir: true, parent: SENTINEL, size: 0, modified: 0, accessed: 0, hash: [0u8; 32] },
        FileDbEntry { name: b"x".to_vec(), is_dir: true, parent: 1, size: 0, modified: 0, accessed: 0, hash: [0u8; 32] },
    ];
    let bytes = save_compressed(&db);
    assert_eq!(load_compressed(&bytes).err(), Some(FileDbError::CorruptIndex));
}

#[test]
fn add_refuses_sizes_beyond_64_bits() {
    let walk = vec![dir("/d"), file("/d/a", u64::MAX - 1, 1), file("/d/b", 9, 2)];
    let mut db = Vec::new();
    assert_eq!(add(&mut db, b"/d", &times_for("/d"), &walk), Err(FileDbError::UnsupportedScale));
}

#[test]
fn packed_layout_matches_bincode() {
    let db = two_copies();
    let tuples: Vec<(u32, Vec<u8>, bool, u32, u64, u64, u64, [u8; 32])> = db
        .iter()
        .map(|e| (0u32, e.name.clone(), e.is_dir, e.parent, e.size, e.modified, e.accessed, e.hash))
        .collect();
    assert_eq!(encode(&db), bincode::serialize(&tuples).unwrap());
}

#[test]
fn dedup_refuses_unread_files() {
    let walk = vec![dir("/d"), file("/d/a", 5, 0), file("/d/b", 5, 0)];
    let mut db = crawl_initial(b"/d", &times_for("/d"), &walk).unwrap();
    assert_eq!(dedup(&mut db).err(), Some(FileDbError::FileReadError));
    assert_eq!(propagate_hashes(&mut db), Err(FileDbError::FileReadError));
}
