use filedb::crawl::{crawl_add, crawl_initial, Crawler, WalkEntry};
use filedb::ops::{mv, splice_paths, update};
use filedb::prune::{prune_deleted_paths, FsMeta};
use filedb::propagate::propagate_sizes;
use filedb::store::{check_store, get_full_path, FileDb, FileDbError, SENTINEL};

fn dir(path: &str) -> WalkEntry {
    WalkEntry { path: path.as_bytes().to_vec(), is_dir: true, size: 4096, modified: 5, accessed: 6, hash: [9u8; 32] }
}

fn file(path: &str, size: u64, h: u8) -> WalkEntry {
    WalkEntry { path: path.as_bytes().to_vec(), is_dir: false, size, modified: 7, accessed: 8, hash: [h; 32] }
}

fn times_for(root: &str) -> Vec<(u64, u64)> {
    splice_paths(root.as_bytes()).iter().map(|_| (1, 2)).collect()
}

fn simple_walk(root: &str) -> Vec<WalkEntry> {
    vec![
        dir(root),
        dir(&format!("{}/a", root)),
        file(&format!("{}/a/f1", root), 10, 1),
        dir(&format!("{}/b", root)),
        file(&format!("{}/b/f2", root), 5, 2),
        file(&format!("{}/f3", root), 3, 3),
    ]
}

fn paths(db: &FileDb) -> Vec<String> {
    (0..db.len()).map(|i| String::from_utf8(get_full_path(db, i as u32).unwrap()).unwrap()).collect()
}

#[test]
fn test_root_dir_components_added() {
    let root = "/data/simple";
    let db = crawl_initial(root.as_bytes(), &times_for(root), &simple_walk(root)).unwrap();
    assert_eq!(
        paths(&db),
        vec!["/", "/data", "/data/simple", "/data/simple/a", "/data/simple/a/f1", "/data/simple/b", "/data/simple/b/f2", "/data/simple/f3"]
    );
    assert_eq!(db[0].parent, SENTINEL);
    assert_eq!(db[1].parent, 0);
    assert_eq!(db[2].parent, 1);
    assert_eq!(db[3].parent, 2);
    assert_eq!(db[4].parent, 3);
    assert!(db[3].is_dir && !db[4].is_dir);
    assert_eq!(db[3].size, 0);
    assert_eq!(db[3].hash, [0u8; 32]);
    assert_eq!(db[4].size, 10);
    assert_eq!(db[4].hash, [1u8; 32]);
    assert_eq!((db[1].modified, db[1].accessed), (1, 2));
    assert!(check_store(&db).is_ok());
}

#[test]
fn test_add_root_path_components() {
    for (root, expected) in [
        ("/", vec!["/"]),
        ("/immens", vec!["/", "/immens"]),
        ("/immens/_backups", vec!["/", "/immens", "/immens/_backups"]),
    ] {
        let times = times_for(root);
        let mut crawler = Crawler::new(Vec::new());
        crawler.splice(root.as_bytes(), &times).unwrap();
        let db = crawler.into_db();
        assert_eq!(paths(&db), expected);
        assert!(db.iter().all(|e| e.is_dir && e.size == 0));
        assert!(check_store(&db).is_ok());
    }
}

#[test]
fn root_splicing_builds_parent_chain() {
    let root = "/a/b/c";
    let walk = vec![dir(root), file("/a/b/c/x", 1, 4)];
    let db = crawl_initial(root.as_bytes(), &times_for(root), &walk).unwrap();
    assert_eq!(paths(&db), vec!["/", "/a", "/a/b", "/a/b/c", "/a/b/c/x"]);
    let parents: Vec<u32> = db.iter().map(|e| e.parent).collect();
    assert_eq!(parents, vec![SENTINEL, 0, 1, 2, 3]);
}

fn do_add_new_dir_within_root(trailing_slash: bool) {
    let root = "/work/add_new_dir_within_root";
    let walk1 = simple_walk(&format!("{}/simple", root));
    let mut db = crawl_initial(format!("{}/simple", root).as_bytes(), &times_for(&format!("{}/simple", root)), &walk1).unwrap();
    assert_eq!(db.len(), 9);
    let inner = format!("{}/simple/a/simple", root);
    let mut walk2 = vec![dir(&inner)];
    walk2.extend(simple_walk(&inner).into_iter().skip(1));
    let given = if trailing_slash { format!("{}/", inner) } else { inner.clone() };
    crawl_add(&mut db, given.as_bytes(), &times_for(&given), &walk2).unwrap();
    assert_eq!(db.len(), 15);
    let p = paths(&db);
    assert_eq!(p[9], inner);
    assert_eq!(p[10], format!("{}/a", inner));
    assert_eq!(p[14], format!("{}/f3", inner));
    assert_eq!(db[9].parent, 4);
    assert!(check_store(&db).is_ok());
}

#[test]
fn test_add_new_dir_within_root() {
    do_add_new_dir_within_root(false);
}

#[test]
fn test_add_new_dir_within_root_trailing_slash() {
    do_add_new_dir_within_root(true);
}

#[test]
fn crawl_add_of_catalogued_tree_changes_nothing() {
    let root = "/data/simple";
    let mut db = crawl_initial(root.as_bytes(), &times_for(root), &simple_walk(root)).unwrap();
    let before = paths(&db);
    let n = db.len();
    crawl_add(&mut db, root.as_bytes(), &times_for(root), &simple_walk(root)).unwrap();
    assert_eq!(db.len(), n);
    assert_eq!(paths(&db), before);
}

#[test]
fn crawl_reports_broken_parent() {
    let root = "/data/simple";
    let walk = vec![dir(root), file("/elsewhere/x", 1, 1)];
    assert_eq!(crawl_initial(root.as_bytes(), &times_for(root), &walk).err(), Some(FileDbError::BrokenParent));
}

fn matching(db: &FileDb) -> Vec<Option<FsMeta>> {
    db.iter().map(|e| Some(FsMeta { is_dir: e.is_dir, size: e.size, modified: e.modified })).collect()
}

#[test]
fn test_prune_deleted_paths() {
    let root = "/data/simple";
    let mut db = crawl_initial(root.as_bytes(), &times_for(root), &simple_walk(root)).unwrap();
    let before = paths(&db);
    let obs = matching(&db);
    prune_deleted_paths(&mut db, &obs).unwrap();
    assert_eq!(paths(&db), before);

    // Delete directory a (and so a/f1), change f3's size.
    let mut obs = matching(&db);
    obs[3] = None;
    obs[4] = None;
    obs[7] = Some(FsMeta { is_dir: false, size: 99, modified: 7 });
    prune_deleted_paths(&mut db, &obs).unwrap();
    assert_eq!(paths(&db), vec!["/", "/data", "/data/simple", "/data/simple/b", "/data/simple/b/f2"]);
    assert_eq!(db[4].parent, 3);
    assert!(check_store(&db).is_ok());
}

#[test]
fn prune_refuses_directory_turned_file() {
    let root = "/data/simple";
    let mut db = crawl_initial(root.as_bytes(), &times_for(root), &simple_walk(root)).unwrap();
    let mut obs = matching(&db);
    obs[3] = Some(FsMeta { is_dir: false, size: 1, modified: 1 });
    assert_eq!(prune_deleted_paths(&mut db, &obs), Err(FileDbError::NotImplemented));
    assert_eq!(db.len(), 8);
}

#[test]
fn test_update() {
    let root = "/work/update/simple";
    let mut db = crawl_initial(root.as_bytes(), &times_for(root), &simple_walk(root)).unwrap();
    let mut obs = matching(&db);
    obs[8] = None;
    let mut walk = simple_walk(root);
    walk.pop();
    walk.push(file(&format!("{}/b/new", root), 4, 7));
    update(&mut db, &obs, root.as_bytes(), &times_for(root), &walk).unwrap();
    assert_eq!(
        paths(&db),
        vec!["/", "/work", "/work/update", "/work/update/simple", "/work/update/simple/a", "/work/update/simple/a/f1", "/work/update/simple/b", "/work/update/simple/b/f2", "/work/update/simple/b/new"]
    );
}

#[test]
fn test_mv() {
    let root = "/work/mv/simple";
    let mut db = crawl_initial(root.as_bytes(), &times_for(root), &simple_walk(root)).unwrap();
    propagate_sizes(&mut db);
    assert_eq!(db[4].size, 10);
    assert_eq!(db[6].size, 5);
    mv(&mut db, b"/work/mv/simple/b", b"/work/mv/simple/a").unwrap();
    propagate_sizes(&mut db);
    let p = paths(&db);
    assert!(p.contains(&"/work/mv/simple/a/b".to_string()));
    assert!(p.contains(&"/work/mv/simple/a/b/f2".to_string()));
    assert!(!p.contains(&"/work/mv/simple/b".to_string()));
    let a = p.iter().position(|x| x == "/work/mv/simple/a").unwrap();
    assert_eq!(db[a].size, 15);
    assert!(check_store(&db).is_ok());
    assert_eq!(mv(&mut db, b"/work/mv/simple/zzz", b"/work/mv/simple/a"), Err(FileDbError::NotCatalogued));
    assert_eq!(mv(&mut db, b"/work/mv/simple/a", b"/work/mv/simple/a/b"), Err(FileDbError::InvalidMove));
}

#[test]
fn move_to_a_later_directory_keeps_parents_first() {
    let root = "/r";
    let walk = vec![dir("/r"), dir("/r/X"), file("/r/X/f", 3, 1), dir("/r/Y"), file("/r/Y/g", 4, 2)];
    let mut db = crawl_initial(root.as_bytes(), &times_for(root), &walk).unwrap();
    mv(&mut db, b"/r/X", b"/r/Y").unwrap();
    assert!(check_store(&db).is_ok());
    propagate_sizes(&mut db);
    assert_eq!(paths(&db), vec!["/", "/r", "/r/Y", "/r/Y/g", "/r/Y/X", "/r/Y/X/f"]);
    let sizes: Vec<u64> = db.iter().map(|e| e.size).collect();
    assert_eq!(sizes, vec![7, 7, 7, 4, 3, 3]);
}

#[test]
fn rm_recursive_drops_a_subtree() {
    let root = "/data/simple";
    let mut db = crawl_initial(root.as_bytes(), &times_for(root), &simple_walk(root)).unwrap();
    filedb::ops::rm_recursive(&mut db, b"/data/simple/a").unwrap();
    assert_eq!(paths(&db), vec!["/", "/data", "/data/simple", "/data/simple/b", "/data/simple/b/f2", "/data/simple/f3"]);
    assert!(check_store(&db).is_ok());
    assert_eq!(filedb::ops::rm_recursive(&mut db, b"/data/simple/a"), Err(FileDbError::NotCatalogued));
    assert_eq!(filedb::ops::rm_recursive(&mut db, b"/"), Err(FileDbError::InvalidMove));
}

#[test]
fn move_to_an_earlier_directory_keeps_addresses() {
    let root = "/root";
    let walk = vec![dir("/root"), dir("/root/Y"), dir("/root/X"), file("/root/X/f", 3, 1), dir("/root/Z")];
    let mut db = crawl_initial(root.as_bytes(), &times_for(root), &walk).unwrap();
    let before = paths(&db);
    assert_eq!(before, vec!["/", "/root", "/root/Y", "/root/X", "/root/X/f", "/root/Z"]);
    mv(&mut db, b"/root/X", b"/root/Y").unwrap();
    assert_eq!(paths(&db), vec!["/", "/root", "/root/Y", "/root/Y/X", "/root/Y/X/f", "/root/Z"]);
    let parents: Vec<u32> = db.iter().map(|e| e.parent).collect();
    assert_eq!(parents, vec![SENTINEL, 0, 1, 2, 3, 1]);
    let sizes: Vec<u64> = db.iter().map(|e| e.size).collect();
    assert_eq!(sizes, vec![3, 3, 3, 3, 3, 0]);
}

#[test]
fn move_onto_a_same_named_sibling_is_refused() {
    let root = "/root";
    let walk = vec![dir("/root"), dir("/root/Y"), dir("/root/Y/X"), dir("/root/X")];
    let mut db = crawl_initial(root.as_bytes(), &times_for(root), &walk).unwrap();
    assert_eq!(mv(&mut db, b"/root/X", b"/root/Y"), Err(FileDbError::InvalidMove));
    assert_eq!(db.len(), 5);
}

#[test]
fn a_name_already_taken_under_a_directory_is_skipped() {
    let root = "/d";
    let walk = vec![dir("/d"), file("/d/x", 1, 1), dir("/d/x")];
    let db = crawl_initial(root.as_bytes(), &times_for(root), &walk).unwrap();
    assert_eq!(paths(&db), vec!["/", "/d", "/d/x"]);
    assert!(!db[2].is_dir);
    assert!(check_store(&db).is_ok());
}
