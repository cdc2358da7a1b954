use filedb::propagate::{propagate_sizes, sizes_fit};
use filedb::store::{check_store, FileDbEntry, SENTINEL};

fn entry(name: &str, is_dir: bool, parent: u32, size: u64) -> FileDbEntry {
    FileDbEntry {
        name: name.as_bytes().to_vec(),
        is_dir,
        parent,
        size,
        modified: 1,
        accessed: 1,
        hash: [0u8; 32],
    }
}

fn get_sizes(file_db: &Vec<FileDbEntry>) -> Vec<u64> {
    file_db.iter().map(|e| e.size).collect()
}

#[test]
fn test_propagate_basic() {
    let mut file_db = vec![entry("/", true, SENTINEL, 0), entry("file.txt", false, 0, 10)];
    propagate_sizes(&mut file_db);
    assert_eq!(get_sizes(&file_db), vec![10, 10]);
}

#[test]
fn test_propagate_uneven_levels() {
    let mut file_db = vec![
        entry("/test", true, SENTINEL, 0),
        entry("a", true, 0, 0),
        entry("b", true, 1, 0),
        entry("c", true, 2, 0),
        entry("dd", false, 3, 10),
        entry("b", false, 0, 100),
    ];
    propagate_sizes(&mut file_db);
    assert_eq!(get_sizes(&file_db), vec![110, 10, 10, 10, 10, 100]);
}

#[test]
fn test_propagate_incremental() {
    let mut file_db = vec![
        entry("/", true, SENTINEL, 0),
        entry("d1", true, 0, 0),
        entry("d2", true, 1, 0),
        entry("b", true, 2, 0),
        entry("f1", false, 1, 100),
        entry("dd", false, 2, 10),
    ];
    propagate_sizes(&mut file_db);
    assert_eq!(get_sizes(&file_db), vec![110, 110, 10, 0, 100, 10]);
    file_db.push(entry("d4", true, 2, 0));
    file_db.push(entry("f3", false, 6, 200));
    propagate_sizes(&mut file_db);
    assert_eq!(get_sizes(&file_db), vec![310, 310, 210, 0, 100, 10, 200, 200]);
}

#[test]
fn propagate_sizes_twice_is_stable() {
    let mut file_db = vec![
        entry("/", true, SENTINEL, 7),
        entry("x", true, 0, 3),
        entry("f", false, 1, 5),
        entry("g", false, 0, 6),
    ];
    propagate_sizes(&mut file_db);
    let once = get_sizes(&file_db);
    assert_eq!(once, vec![11, 5, 5, 6]);
    propagate_sizes(&mut file_db);
    assert_eq!(get_sizes(&file_db), once);
}

#[test]
fn propagate_matches_recursive_sum() {
    let mut file_db = vec![
        entry("/", true, SENTINEL, 0),
        entry("a", true, 0, 0),
        entry("b", true, 0, 0),
        entry("x", false, 1, 1),
        entry("c", true, 1, 0),
        entry("y", false, 4, 2),
        entry("z", false, 2, 4),
        entry("w", false, 4, 8),
    ];
    propagate_sizes(&mut file_db);
    assert_eq!(get_sizes(&file_db), vec![15, 11, 4, 1, 10, 2, 4, 8]);
}

#[test]
fn sizes_fit_detects_overflow() {
    let small = vec![entry("/", true, SENTINEL, 0), entry("f", false, 0, 10)];
    assert!(sizes_fit(&small));
    let big = vec![
        entry("/", true, SENTINEL, 0),
        entry("f", false, 0, u64::MAX - 1),
        entry("g", false, 0, 5),
    ];
    assert!(!sizes_fit(&big));
}

#[test]
fn check_store_rejects_broken_forests() {
    let good = vec![entry("/", true, SENTINEL, 0), entry("f", false, 0, 10)];
    assert!(check_store(&good).is_ok());
    let forward = vec![entry("/", true, SENTINEL, 0), entry("f", false, 2, 10), entry("d", true, 0, 0)];
    assert!(check_store(&forward).is_err());
    let file_parent = vec![entry("/", true, SENTINEL, 0), entry("f", false, 0, 10), entry("g", false, 1, 1)];
    assert!(check_store(&file_parent).is_err());
    let second_root = vec![entry("/", true, SENTINEL, 0), entry("r", true, SENTINEL, 0)];
    assert!(check_store(&second_root).is_err());
    let twins = vec![entry("/", true, SENTINEL, 0), entry("f", false, 0, 1), entry("f", true, 0, 0)];
    assert!(check_store(&twins).is_err());
    let cousins = vec![entry("/", true, SENTINEL, 0), entry("a", true, 0, 0), entry("b", true, 0, 0), entry("f", false, 1, 1), entry("f", false, 2, 1)];
    assert!(check_store(&cousins).is_ok());
    let empty: Vec<FileDbEntry> = Vec::new();
    assert!(check_store(&empty).is_err());
}
