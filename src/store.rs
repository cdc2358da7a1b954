//! The Node Store: a flat, parent-indexed sequence of file and directory
//! records. The address of a node is its position; address 0 is the root.
use vstd::prelude::*;

use vstd::relations::sorted_by;

use crate::path::{append_bytes, bytes_eq, join_exec, join_path};
use crate::sort::{key_order, keys_view, sort_positions, SortKey};

verus! {

/// Parent value of the root node, and of no other node.
pub const SENTINEL: u32 = 0xffff_ffff;

/// Largest number of nodes a store may hold.
pub const MAX_NODES: usize = 0xffff_fffe;

/// The all-zero digest, meaning "no hash set".
pub open spec fn empty_hash_view() -> Seq<u8> {
    Seq::new(32, |i: int| 0u8)
}

/// The all-zero digest.
pub fn empty_hash() -> (r: [u8; 32])
    ensures
        r@ == empty_hash_view(),
{
    let r = [0u8; 32];
    assert(r@ =~= empty_hash_view());
    r
}

/// Errors of the catalog operations.
#[derive(PartialEq, Eq, Structural, Debug, Clone, Copy)]
pub enum FileDbError {
    /// A parent chain loops or leaves the store, a parent is not a directory,
    /// a non-root node has the sentinel parent, or stored bytes do not decode.
    CorruptIndex,
    /// The parent directory of a new path is not catalogued.
    BrokenParent,
    /// A directory became a file on disk; removing its descendants is not supported.
    NotImplemented,
    /// The store would exceed its maximum node count.
    UnsupportedScale,
    /// Catalog bytes could not be read back (the compressed layer failed).
    IoError,
    /// A node other than the root has the empty hash: a file that could not
    /// be read when it was catalogued, so its content is unknown.
    FileReadError,
    /// A path named in a request is not a catalogued directory.
    NotCatalogued,
    /// A move of the root, or of a directory into its own subtree.
    InvalidMove,
}

/// One file or directory.
#[derive(Debug, Clone)]
pub struct FileDbEntry {
    pub name: Vec<u8>,
    pub is_dir: bool,
    pub parent: u32,
    pub size: u64,
    pub modified: u64,
    pub accessed: u64,
    pub hash: [u8; 32],
}

/// The mathematical value of an entry.
pub struct EntryView {
    pub name: Seq<u8>,
    pub is_dir: bool,
    pub parent: u32,
    pub size: u64,
    pub modified: u64,
    pub accessed: u64,
    pub hash: Seq<u8>,
}

impl View for FileDbEntry {
    type V = EntryView;

    open spec fn view(&self) -> EntryView {
        EntryView {
            name: self.name@,
            is_dir: self.is_dir,
            parent: self.parent,
            size: self.size,
            modified: self.modified,
            accessed: self.accessed,
            hash: self.hash@,
        }
    }
}

/// The store: entries in address order.
pub type FileDb = Vec<FileDbEntry>;

/// The value of a store.
pub open spec fn db_view(s: Seq<FileDbEntry>) -> Seq<EntryView> {
    s.map_values(|e: FileDbEntry| e@)
}

/// No two children of one directory share a name (nor two roots, though a
/// well-formed store has one).
pub open spec fn names_unique(s: Seq<EntryView>) -> bool {
    forall|i: int, j: int|
        0 <= i < j < s.len() ==> !(#[trigger] s[i].parent == #[trigger] s[j].parent && s[i].name == s[j].name)
}

/// The forest invariants: address 0 exists and alone has the sentinel
/// parent; every other node's parent is a lower address and a directory;
/// no two children of one directory share a name; the node count fits the
/// address width.
pub open spec fn wf(s: Seq<EntryView>) -> bool {
    &&& 1 <= s.len() <= MAX_NODES
    &&& s[0].parent == SENTINEL
    &&& forall|i: int| 1 <= i < s.len() ==> #[trigger] s[i].parent < i && s[s[i].parent as int].is_dir
    &&& names_unique(s)
}

/// The full path of node `i` of a well-formed store: its ancestors' names
/// from the root down, joined.
pub open spec fn path_of(s: Seq<EntryView>, i: int) -> Seq<u8>
    decreases i,
{
    if i <= 0 || i >= s.len() || s[i].parent as int >= i {
        s[0].name
    } else {
        join_path(path_of(s, s[i].parent as int), s[i].name)
    }
}

/// The path met by following parent links from `i` for at most `fuel`
/// steps; `None` when the walk leaves the store or does not reach the root.
pub open spec fn walk_path(s: Seq<EntryView>, i: int, fuel: nat) -> Option<Seq<u8>>
    decreases fuel,
{
    if !(0 <= i < s.len()) {
        None
    } else if i == 0 {
        Some(s[0].name)
    } else if fuel == 0 {
        None
    } else {
        match walk_path(s, s[i].parent as int, (fuel - 1) as nat) {
            Some(p) => Some(join_path(p, s[i].name)),
            None => None,
        }
    }
}

/// The full path of node `i` of any store, or `None` when its parent chain
/// is broken or cyclic.
pub open spec fn full_path(s: Seq<EntryView>, i: int) -> Option<Seq<u8>> {
    walk_path(s, i, s.len())
}

/// Joins the names of `chain` onto `base`, the last element innermost.
pub open spec fn wrap_names(s: Seq<EntryView>, base: Seq<u8>, chain: Seq<u32>) -> Seq<u8>
    decreases chain.len(),
{
    if chain.len() == 0 {
        base
    } else {
        join_path(wrap_names(s, base, chain.drop_first()), s[chain[0] as int].name)
    }
}

proof fn lemma_wrap_push(s: Seq<EntryView>, base: Seq<u8>, chain: Seq<u32>, x: u32)
    ensures
        wrap_names(s, base, chain.push(x)) == wrap_names(s, join_path(base, s[x as int].name), chain),
    decreases chain.len(),
{
    if chain.len() == 0 {
        assert(chain.push(x).drop_first() =~= Seq::<u32>::empty());
        assert(chain.push(x)[0] == x);
        assert(wrap_names(s, base, chain.push(x).drop_first()) == base);
    } else {
        assert(chain.push(x)[0] == chain[0]);
        assert(chain.push(x).drop_first() =~= chain.drop_first().push(x));
        lemma_wrap_push(s, base, chain.drop_first(), x);
        assert(wrap_names(s, base, chain.push(x)) == join_path(
            wrap_names(s, base, chain.drop_first().push(x)),
            s[chain[0] as int].name,
        ));
    }
}

/// In a well-formed store every node's walk reaches the root within its
/// own address of steps, and spells its full path.
pub proof fn lemma_walk_wf(s: Seq<EntryView>, i: int, fuel: nat)
    requires
        wf(s),
        0 <= i < s.len(),
        fuel >= i,
    ensures
        walk_path(s, i, fuel) == Some(path_of(s, i)),
    decreases i,
{
    if i > 0 {
        let p = s[i].parent as int;
        assert(s[i].parent < i);
        lemma_walk_wf(s, p, (fuel - 1) as nat);
    }
}

/// Appending a node keeps the paths of the nodes already there.
pub proof fn lemma_path_of_push(s: Seq<EntryView>, e: EntryView, i: int)
    requires
        0 <= i < s.len(),
    ensures
        path_of(s.push(e), i) == path_of(s, i),
    decreases i,
{
    if i > 0 && s[i].parent as int >= 0 && (s[i].parent as int) < i {
        lemma_path_of_push(s, e, s[i].parent as int);
    }
}

/// Whether `entry_index` is the root address.
pub fn is_root_index(entry_index: u32) -> (r: bool)
    ensures
        r == (entry_index == 0),
{
    entry_index == 0
}

/// Reconstructs the full path of node `entry_index` by walking parent links
/// to the root; fails with `CorruptIndex` when the chain leaves the store or
/// cycles.
pub fn get_full_path(file_db: &FileDb, entry_index: u32) -> (r: Result<Vec<u8>, FileDbError>)
    ensures
        match full_path(db_view(file_db@), entry_index as int) {
            Some(p) => r is Ok && r->Ok_0@ == p,
            None => r == Err::<Vec<u8>, FileDbError>(FileDbError::CorruptIndex),
        },
{
    let ghost s = db_view(file_db@);
    let len = file_db.len();
    let mut chain: Vec<u32> = Vec::new();
    let mut index = entry_index;
    let mut steps: usize = 0;
    loop
        invariant
            s == db_view(file_db@),
            len == file_db@.len(),
            steps <= len,
            chain@.len() == steps,
            forall|k: int| 0 <= k < chain@.len() ==> (#[trigger] chain@[k] as int) < len,
            full_path(s, entry_index as int) == match walk_path(s, index as int, (len - steps) as nat) {
                Some(p) => Some(wrap_names(s, p, chain@)),
                None => None::<Seq<u8>>,
            },
        ensures
            index == 0,
            0 < len,
        decreases len - steps,
    {
        if index as usize >= len {
            return Err(FileDbError::CorruptIndex);
        }
        if is_root_index(index) {
            break;
        }
        if steps == len {
            return Err(FileDbError::CorruptIndex);
        }
        let ghost old_chain = chain@;
        let ghost old_index = index;
        chain.push(index);
        index = file_db[index as usize].parent;
        steps = steps + 1;
        proof {
            let sn = s[old_index as int].name;
            match walk_path(s, index as int, (len - steps) as nat) {
                Some(p) => {
                    lemma_wrap_push(s, p, old_chain, old_index);
                },
                None => {},
            }
        }
    }
    let mut result: Vec<u8> = Vec::new();
    append_bytes(&mut result, file_db[0].name.as_slice());
    let mut j: usize = chain.len();
    assert(result@ == s[0].name);
    assert(chain@.take(j as int) =~= chain@);
    while j > 0
        invariant
            s == db_view(file_db@),
            j <= chain@.len(),
            forall|k: int| 0 <= k < chain@.len() ==> (#[trigger] chain@[k] as int) < file_db@.len(),
            full_path(s, entry_index as int) == Some(wrap_names(s, result@, chain@.take(j as int))),
        decreases j,
    {
        let c = chain[j - 1];
        proof {
            assert(chain@.take(j as int) =~= chain@.take(j - 1).push(c));
            lemma_wrap_push(s, result@, chain@.take(j - 1), c);
        }
        join_exec(&mut result, file_db[c as usize].name.as_slice());
        j = j - 1;
    }
    assert(chain@.take(0) =~= Seq::<u32>::empty());
    Ok(result)
}

/// The full paths of all nodes of a well-formed store, by address, each
/// built from its parent's.
pub fn all_full_paths(file_db: &FileDb) -> (r: Vec<Vec<u8>>)
    requires
        wf(db_view(file_db@)),
    ensures
        r@.len() == file_db@.len(),
        forall|i: int| 0 <= i < r@.len() ==> (#[trigger] r@[i])@ == path_of(db_view(file_db@), i),
{
    let ghost s = db_view(file_db@);
    let n = file_db.len();
    let mut out: Vec<Vec<u8>> = Vec::new();
    let mut i: usize = 0;
    while i < n
        invariant
            s == db_view(file_db@),
            wf(s),
            n == s.len(),
            i <= n,
            out@.len() == i,
            forall|k: int| 0 <= k < i ==> (#[trigger] out@[k])@ == path_of(s, k),
        decreases n - i,
    {
        let p = if i == 0 {
            crate::path::copy_bytes(file_db[0].name.as_slice())
        } else {
            let pa = file_db[i].parent as usize;
            assert(s[i as int].parent < i);
            let mut p = crate::path::copy_bytes(out[pa].as_slice());
            join_exec(&mut p, file_db[i].name.as_slice());
            p
        };
        out.push(p);
        i = i + 1;
    }
    out
}

/// Appends a node and returns its address; fails with `UnsupportedScale`
/// when the store already holds the maximum number of nodes.
pub fn add_file_db_entry(file_db: &mut FileDb, file_db_entry: FileDbEntry) -> (r: Result<u32, FileDbError>)
    ensures
        old(file_db)@.len() < MAX_NODES ==> r == Ok::<u32, FileDbError>(old(file_db)@.len() as u32)
            && final(file_db)@ == old(file_db)@.push(file_db_entry),
        old(file_db)@.len() >= MAX_NODES ==> r == Err::<u32, FileDbError>(FileDbError::UnsupportedScale)
            && final(file_db)@ == old(file_db)@,
{
    if file_db.len() >= MAX_NODES {
        return Err(FileDbError::UnsupportedScale);
    }
    let a = file_db.len() as u32;
    file_db.push(file_db_entry);
    Ok(a)
}

/// A copy of an entry.
pub fn copy_entry(e: &FileDbEntry) -> (r: FileDbEntry)
    ensures
        r@ == e@,
{
    FileDbEntry {
        name: crate::path::copy_bytes(e.name.as_slice()),
        is_dir: e.is_dir,
        parent: e.parent,
        size: e.size,
        modified: e.modified,
        accessed: e.accessed,
        hash: e.hash,
    }
}

pub proof fn lemma_db_view_push(s: Seq<FileDbEntry>, e: FileDbEntry)
    ensures
        db_view(s.push(e)) == db_view(s).push(e@),
{
    assert(db_view(s.push(e)) =~= db_view(s).push(e@));
}

/// The sort keys (name, parent) of all nodes.
spec fn name_parent_keys(s: Seq<EntryView>) -> Seq<(Seq<u8>, u128)> {
    Seq::new(s.len(), |a: int| (s[a].name, s[a].parent as u128))
}

/// Whether no two children of one directory share a name: the nodes are
/// sorted by (name, parent), so equal pairs would be neighbours.
pub fn check_names(file_db: &FileDb) -> (r: bool)
    ensures
        r == names_unique(db_view(file_db@)),
{
    let ghost s = db_view(file_db@);
    let n = file_db.len();
    let mut keys: Vec<SortKey> = Vec::new();
    let mut i: usize = 0;
    while i < n
        invariant
            s == db_view(file_db@),
            n == s.len(),
            i <= n,
            keys_view(keys@) == name_parent_keys(s).take(i as int),
        decreases n - i,
    {
        let e = &file_db[i];
        let key = SortKey { bytes: crate::path::copy_bytes(e.name.as_slice()), num: e.parent as u128 };
        let ghost old_keys = keys@;
        assert(key@ == name_parent_keys(s)[i as int]);
        keys.push(key);
        assert(keys_view(keys@) =~= keys_view(old_keys).push(key@));
        i = i + 1;
        assert(keys_view(keys@) =~= name_parent_keys(s).take(i as int));
    }
    assert(name_parent_keys(s).take(i as int) =~= name_parent_keys(s));
    let ghost ks = name_parent_keys(s);
    let order = sort_positions(&keys);
    let mut k: usize = 1;
    while k < n
        invariant
            s == db_view(file_db@),
            n == s.len(),
            ks == name_parent_keys(s),
            keys_view(keys@) == ks,
            keys@.len() == n,
            order@.len() == n,
            forall|q: int| 0 <= q < n ==> order@[q] < n,
            sorted_by(order@, key_order(ks)),
            order@.no_duplicates(),
            1 <= k || n == 0,
            forall|q: int| 1 <= q < k && q < n ==> ks[#[trigger] order@[q] as int] != ks[order@[q - 1] as int],
        decreases n - k,
    {
        let a = order[k - 1];
        let b = order[k];
        if bytes_eq(keys[a].bytes.as_slice(), keys[b].bytes.as_slice()) && keys[a].num == keys[b].num {
            proof {
                assert(ks[a as int] == ks[b as int]);
                assert(a != b);
                if a < b {
                    assert(!(s[a as int].parent == s[b as int].parent && s[a as int].name == s[b as int].name) ==> false);
                } else {
                    assert(!(s[b as int].parent == s[a as int].parent && s[b as int].name == s[a as int].name) ==> false);
                }
            }
            return false;
        }
        k = k + 1;
    }
    proof {
        assert forall|i: int, j: int| 0 <= i < j < s.len() implies !(#[trigger] s[i].parent == #[trigger] s[j].parent
            && s[i].name == s[j].name) by {
            if s[i].parent == s[j].parent && s[i].name == s[j].name {
                assert(ks[i] == ks[j]);
                assert(order@.contains(i as usize));
                assert(order@.contains(j as usize));
                let p = choose|p: int| 0 <= p < n && order@[p] == i as usize;
                let q = choose|q: int| 0 <= q < n && order@[q] == j as usize;
                let (lo, hi) = if p < q { (p, q) } else { (q, p) };
                assert(lo < hi);
                crate::query::lemma_contiguous(ks, order@, lo, lo + 1, hi);
                assert(ks[order@[lo + 1] as int] != ks[order@[lo] as int]);
            }
        }
    }
    true
}

/// Checks the forest invariants of a store read from untrusted bytes,
/// including that no two children of one directory share a name.
pub fn check_store(file_db: &FileDb) -> (r: Result<(), FileDbError>)
    ensures
        r is Ok <==> wf(db_view(file_db@)),
        r is Err ==> r == Err::<(), FileDbError>(FileDbError::CorruptIndex),
{
    let ghost s = db_view(file_db@);
    let len = file_db.len();
    if len == 0 || len > MAX_NODES {
        return Err(FileDbError::CorruptIndex);
    }
    if file_db[0].parent != SENTINEL {
        return Err(FileDbError::CorruptIndex);
    }
    let mut i: usize = 1;
    while i < len
        invariant
            s == db_view(file_db@),
            len == s.len(),
            1 <= i <= len,
            forall|k: int| 1 <= k < i ==> #[trigger] s[k].parent < k && s[s[k].parent as int].is_dir,
        decreases len - i,
    {
        let p = file_db[i].parent;
        if p as usize >= i || !file_db[p as usize].is_dir {
            assert(!(s[i as int].parent < i && s[s[i as int].parent as int].is_dir));
            return Err(FileDbError::CorruptIndex);
        }
        i = i + 1;
    }
    if !check_names(file_db) {
        return Err(FileDbError::CorruptIndex);
    }
    Ok(())
}

} // verus!
