use filedb::path::{get_ext, is_archive, path_starts_with, replace_prefix, split_parent, strip_trailing_slashes};
use filedb::store::{get_full_path, FileDbEntry, FileDbError, SENTINEL};

#[test]
fn test_is_archive() {
    assert!(is_archive(b"archive.tar"));
    assert!(is_archive(b"archive.gz"));
    assert!(is_archive(b"archive.xz"));
    assert!(is_archive(b"archive.tgz"));
    assert!(is_archive(b"archive.tar.gz"));
    assert!(is_archive(b"archive.tar.xz"));

    assert!(!is_archive(b"archivetar"));
    assert!(!is_archive(b"archive.zip"));
    assert!(!is_archive(b"archivezip"));
    assert!(!is_archive(b"archivegz"));
    assert!(!is_archive(b"archivexz"));
    assert!(!is_archive(b"archivetgz"));
}

#[test]
fn extensions() {
    assert_eq!(get_ext(b"/a/b.txt"), Some(b"txt".to_vec()));
    assert_eq!(get_ext(b"/a.d/b"), None);
    assert_eq!(get_ext(b"/a/.bashrc"), None);
    assert_eq!(get_ext(b"x.tar.gz"), Some(b"gz".to_vec()));
    assert_eq!(get_ext(b"dot."), Some(Vec::new()));
}

#[test]
fn prefixes() {
    assert!(path_starts_with(b"/a/b", b"/a"));
    assert!(path_starts_with(b"/a", b"/a"));
    assert!(path_starts_with(b"/a/b", b"/"));
    assert!(!path_starts_with(b"/ab", b"/a"));
    assert!(!path_starts_with(b"/a", b"/a/b"));
    assert_eq!(replace_prefix(b"/tmp/x/y", b"/tmp/x", b"/data/arc.tar"), b"/data/arc.tar/y".to_vec());
    assert_eq!(replace_prefix(b"/tmp/x", b"/tmp/x", b"/data/arc.tar"), b"/data/arc.tar".to_vec());
    assert_eq!(replace_prefix(b"/tmp/x/y", b"/tmp/x", b""), b"/tmp/x/y".to_vec());
}

#[test]
fn splitting() {
    assert_eq!(split_parent(b"/a/b"), Some((b"/a".to_vec(), b"b".to_vec())));
    assert_eq!(split_parent(b"/a"), Some((b"/".to_vec(), b"a".to_vec())));
    assert_eq!(split_parent(b"/"), None);
    assert_eq!(split_parent(b"rel"), None);
    assert_eq!(strip_trailing_slashes(b"/a/b//"), b"/a/b".to_vec());
    assert_eq!(strip_trailing_slashes(b"/"), b"/".to_vec());
}

fn entry(name: &str, is_dir: bool, parent: u32) -> FileDbEntry {
    FileDbEntry { name: name.as_bytes().to_vec(), is_dir, parent, size: 0, modified: 0, accessed: 0, hash: [0u8; 32] }
}

#[test]
fn full_paths_and_cycles() {
    let db = vec![entry("/", true, SENTINEL), entry("a", true, 0), entry("b.txt", false, 1)];
    assert_eq!(get_full_path(&db, 2), Ok(b"/a/b.txt".to_vec()));
    assert_eq!(get_full_path(&db, 0), Ok(b"/".to_vec()));
    let rooted = vec![entry("/test", true, SENTINEL), entry("a", true, 0)];
    assert_eq!(get_full_path(&rooted, 1), Ok(b"/test/a".to_vec()));
    let cyclic = vec![entry("/", true, SENTINEL), entry("a", true, 2), entry("b", true, 1)];
    assert_eq!(get_full_path(&cyclic, 2), Err(FileDbError::CorruptIndex));
    assert_eq!(get_full_path(&db, 7), Err(FileDbError::CorruptIndex));
}

#[test]
fn extensions_ignore_trailing_separators_and_dots() {
    assert!(is_archive(b"a.tar/"));
    assert!(is_archive(b"/x/a.tar.gz//"));
    assert!(is_archive(b"a.tgz/."));
    assert!(is_archive(b"a.xz/./"));
    assert!(!is_archive(b"x/.."));
    assert!(!is_archive(b"/"));
    assert_eq!(get_ext(b"/a/b.txt/"), Some(b"txt".to_vec()));
    assert_eq!(get_ext(b"/a.b/.."), None);
    assert_eq!(get_ext(b"."), None);
}
