//! Ingestion of a pre-order filesystem walk into a store: ancestors of the
//! crawl root are spliced in first, then each walked path not catalogued
//! yet is appended under its parent directory.
use vstd::prelude::*;

use crate::index::{build_path_to_index_map, lemma_index_push, lemma_index_sound, path_index_of, PathIndex};
use crate::path::{ancestors, bytes_eq, copy_bytes, join_exec, join_path, root_ancestors, split_parent, split_path, strip_trailing, strip_trailing_slashes};
use crate::store::{add_file_db_entry, db_view, empty_hash, empty_hash_view, lemma_db_view_push, path_of, wf, EntryView, FileDb, FileDbEntry, FileDbError, MAX_NODES, SENTINEL};

verus! {

/// One path met by the walk, with the metadata read for it. `hash` is the
/// content digest of a file (the empty hash when it could not be read); it
/// is ignored for a directory.
pub struct WalkEntry {
    pub path: Vec<u8>,
    pub is_dir: bool,
    pub size: u64,
    pub modified: u64,
    pub accessed: u64,
    pub hash: [u8; 32],
}

/// The value of a walk entry.
pub struct WalkView {
    pub path: Seq<u8>,
    pub is_dir: bool,
    pub size: u64,
    pub modified: u64,
    pub accessed: u64,
    pub hash: Seq<u8>,
}

impl View for WalkEntry {
    type V = WalkView;

    open spec fn view(&self) -> WalkView {
        WalkView {
            path: self.path@,
            is_dir: self.is_dir,
            size: self.size,
            modified: self.modified,
            accessed: self.accessed,
            hash: self.hash@,
        }
    }
}

/// The value of a walk.
pub open spec fn walk_view(ws: Seq<WalkEntry>) -> Seq<WalkView> {
    ws.map_values(|w: WalkEntry| w@)
}

/// The node recorded for a walked path named `name` under `parent`: a
/// directory gets size 0 and the empty hash.
pub open spec fn new_node(w: WalkView, name: Seq<u8>, parent: u32) -> EntryView {
    EntryView {
        name,
        is_dir: w.is_dir,
        parent,
        size: if w.is_dir { 0 } else { w.size },
        modified: w.modified,
        accessed: w.accessed,
        hash: if w.is_dir { empty_hash_view() } else { w.hash },
    }
}

/// Whether directory `pa` already has a child called `name`.
pub open spec fn child_named(s: Seq<EntryView>, pa: int, name: Seq<u8>) -> bool {
    exists|c: int| 0 < c < s.len() && (#[trigger] s[c]).parent as int == pa && s[c].name == name
}

/// One step of the crawl. A path already in the Path Index is skipped, as
/// is a path whose parent already has a child of that name (so siblings
/// keep distinct names). Otherwise
/// the parent path must be catalogued (else `BrokenParent`) and the node is
/// appended under it (or `UnsupportedScale` when the store is full).
pub open spec fn visit(s: Seq<EntryView>, w: WalkView) -> Result<Seq<EntryView>, FileDbError> {
    let idx = path_index_of(s);
    if idx.contains_key(w.path) {
        Ok(s)
    } else {
        match split_path(w.path) {
            None => Err(FileDbError::BrokenParent),
            Some((pp, name)) => if !idx.contains_key(pp) {
                Err(FileDbError::BrokenParent)
            } else if child_named(s, idx[pp] as int, name) {
                Ok(s)
            } else if s.len() >= MAX_NODES {
                Err(FileDbError::UnsupportedScale)
            } else {
                Ok(s.push(new_node(w, name, idx[pp])))
            },
        }
    }
}

/// The crawl steps over a whole walk, in order; the first error stops it.
pub open spec fn visit_all(s: Seq<EntryView>, ws: Seq<WalkView>) -> Result<Seq<EntryView>, FileDbError>
    decreases ws.len(),
{
    if ws.len() == 0 {
        Ok(s)
    } else {
        match visit_all(s, ws.drop_last()) {
            Ok(t) => visit(t, ws.last()),
            Err(e) => Err(e),
        }
    }
}

/// A directory node for a spliced ancestor.
pub open spec fn ancestor_node(name: Seq<u8>, parent: u32, times: (u64, u64)) -> EntryView {
    EntryView {
        name,
        is_dir: true,
        parent,
        size: 0,
        modified: times.0,
        accessed: times.1,
        hash: empty_hash_view(),
    }
}

/// The last component of a path; the whole path for the anchor.
pub open spec fn last_component(p: Seq<u8>) -> Seq<u8> {
    match split_path(p) {
        Some((_, n)) => n,
        None => p,
    }
}

/// The position of the first of `anc[i..]` that is in `idx`, or `anc.len()`.
pub open spec fn first_known(idx: Map<Seq<u8>, u32>, anc: Seq<Seq<u8>>, i: int) -> int
    decreases anc.len() - i,
{
    if i >= anc.len() {
        anc.len() as int
    } else if idx.contains_key(anc[i]) {
        i
    } else {
        first_known(idx, anc, i + 1)
    }
}

/// Appends `anc[k-1]`, ..., `anc[0]` as a chain of directories, the first
/// under `parent`; `BrokenParent` when a node of that name (a file, where a
/// directory is needed) already stands under the parent.
pub open spec fn splice_down(
    s: Seq<EntryView>,
    anc: Seq<Seq<u8>>,
    times: Seq<(u64, u64)>,
    k: int,
    parent: u32,
) -> Result<Seq<EntryView>, FileDbError>
    decreases k,
{
    if k <= 0 {
        Ok(s)
    } else if child_named(s, parent as int, last_component(anc[k - 1])) {
        Err(FileDbError::BrokenParent)
    } else if s.len() >= MAX_NODES {
        Err(FileDbError::UnsupportedScale)
    } else {
        splice_down(
            s.push(ancestor_node(last_component(anc[k - 1]), parent, times[k - 1])),
            anc,
            times,
            k - 1,
            s.len() as u32,
        )
    }
}

/// Root splicing: makes the crawl root and all its ancestors catalogued.
/// From the root upward the first ancestor already in the Path Index is
/// found; the ancestors below it are appended from the top down, each the
/// parent of the next. When none is known, an empty store gets the anchor as
/// its root node; a non-empty store fails with `BrokenParent`. `times[k]`
/// holds the modification and access times of `ancestors(root)[k]`.
pub open spec fn splice(s: Seq<EntryView>, root: Seq<u8>, times: Seq<(u64, u64)>) -> Result<Seq<EntryView>, FileDbError> {
    let anc = ancestors(root);
    let idx = path_index_of(s);
    let f = first_known(idx, anc, 0);
    if f < anc.len() {
        splice_down(s, anc, times, f, idx[anc[f]])
    } else if s.len() > 0 {
        Err(FileDbError::BrokenParent)
    } else {
        splice_down(
            seq![ancestor_node(anc.last(), SENTINEL, times.last())],
            anc,
            times,
            anc.len() - 1,
            0,
        )
    }
}

/// A whole crawl: trailing separators are dropped from `root`, its
/// ancestors spliced in, then the walk visited.
pub open spec fn crawl(
    s: Seq<EntryView>,
    root: Seq<u8>,
    times: Seq<(u64, u64)>,
    ws: Seq<WalkView>,
) -> Result<Seq<EntryView>, FileDbError> {
    match splice(s, strip_trailing(root), times) {
        Ok(t) => visit_all(t, ws),
        Err(e) => Err(e),
    }
}

/// The children of `j` below address `c`, in address order.
pub open spec fn child_kids(s: Seq<EntryView>, j: int, c: int) -> Seq<u32>
    decreases c,
{
    if c <= 0 {
        Seq::empty()
    } else if s[c - 1].parent as int == j && c - 1 > j {
        child_kids(s, j, c - 1).push((c - 1) as u32)
    } else {
        child_kids(s, j, c - 1)
    }
}

proof fn lemma_child_kids(s: Seq<EntryView>, j: int, c: int)
    requires
        0 <= c <= s.len() <= 0xffff_ffff,
    ensures
        forall|k: int|
            0 <= k < child_kids(s, j, c).len() ==> j < #[trigger] child_kids(s, j, c)[k] < c && s[child_kids(
                s,
                j,
                c,
            )[k] as int].parent as int == j,
        forall|x: int|
            j < x < c && s[x].parent as int == j ==> child_kids(s, j, c).contains(x as u32),
    decreases c,
{
    if c > 0 {
        lemma_child_kids(s, j, c - 1);
        let prev = child_kids(s, j, c - 1);
        assert(((c - 1) as u32) as int == c - 1);
        if s[c - 1].parent as int == j && c - 1 > j {
            let cur = prev.push((c - 1) as u32);
            assert(child_kids(s, j, c) == cur);
            assert forall|x: int| j < x < c && s[x].parent as int == j implies cur.contains(
                x as u32,
            ) by {
                if x == c - 1 {
                    assert(cur[prev.len() as int] == x as u32);
                } else {
                    let i = choose|i: int| 0 <= i < prev.len() && prev[i] == x as u32;
                    assert(cur[i] == x as u32);
                }
            }
        }
    }
}

proof fn lemma_child_kids_push(s: Seq<EntryView>, e: EntryView, j: int, c: int)
    requires
        0 <= c <= s.len(),
    ensures
        child_kids(s.push(e), j, c) == child_kids(s, j, c),
    decreases c,
{
    if c > 0 {
        assert(s.push(e)[c - 1] == s[c - 1]);
        lemma_child_kids_push(s, e, j, c - 1);
    }
}

/// The state of a crawl in progress: the store, its Path Index and each
/// directory's children.
pub struct Crawler {
    db: FileDb,
    index: PathIndex,
    kids: Vec<Vec<u32>>,
}

impl Crawler {
    /// The store as it stands.
    pub closed spec fn state(&self) -> Seq<EntryView> {
        db_view(self.db@)
    }

    /// The crawler's invariant: a well-formed store with its Path Index and
    /// children lists.
    pub closed spec fn inv(&self) -> bool {
        let s = db_view(self.db@);
        &&& (s.len() == 0 || wf(s))
        &&& self.index@ == path_index_of(s)
        &&& self.kids@.len() == s.len()
        &&& forall|d: int| 0 <= d < s.len() ==> (#[trigger] self.kids@[d])@ == child_kids(s, d, s.len() as int)
    }

    /// Whether `w` would be appended by the next `visit`: callers use it to
    /// read a file's content only when it will be catalogued.
    pub fn is_new(&self, w: &WalkEntry) -> (r: bool)
        requires
            self.inv(),
        ensures
            r == (visit(self.state(), w@) != Ok::<Seq<EntryView>, FileDbError>(self.state())),
    {
        let ghost s = self.state();
        if self.index.contains(w.path.as_slice()) {
            return false;
        }
        let (pp, name) = match split_parent(w.path.as_slice()) {
            None => return true,
            Some(x) => x,
        };
        let pa = match self.index.get(pp.as_slice()) {
            None => return true,
            Some(a) => a,
        };
        proof {
            lemma_index_sound(s, s.len() as int);
        }
        if self.has_child_named(pa, name.as_slice()) {
            return false;
        }
        proof {
            if s.len() < MAX_NODES {
                assert(s.push(new_node(w@, name@, pa)).len() == s.len() + 1);
            }
        }
        true
    }

    fn has_child_named(&self, pa: u32, name: &[u8]) -> (r: bool)
        requires
            self.inv(),
            self.index@.values().contains(pa) || (pa as int) < self.state().len(),
        ensures
            (pa as int) < self.state().len() ==> r == child_named(self.state(), pa as int, name@),
    {
        if pa as usize >= self.kids.len() {
            return false;
        }
        let ghost s = self.state();
        proof {
            lemma_child_kids(s, pa as int, s.len() as int);
        }
        let kids = &self.kids[pa as usize];
        let mut i: usize = 0;
        while i < kids.len()
            invariant
                s == db_view(self.db@),
                kids@ == child_kids(s, pa as int, s.len() as int),
                i <= kids@.len(),
                forall|k: int|
                    0 <= k < kids@.len() ==> pa < #[trigger] kids@[k] < s.len() && s[kids@[k] as int].parent
                        as int == pa,
                forall|k: int| 0 <= k < i ==> s[#[trigger] kids@[k] as int].name != name@,
            decreases kids@.len() - i,
        {
            let c = kids[i] as usize;
            if bytes_eq(self.db[c].name.as_slice(), name) {
                assert(s[c as int].parent as int == pa && s[c as int].name == name@);
                assert(0 < c < s.len());
                return true;
            }
            i = i + 1;
        }
        proof {
            assert forall|c: int| 0 < c < s.len() && (#[trigger] s[c]).parent as int == pa
                implies s[c].name != name@ by {
                assert(s[c].parent < c);
                assert(kids@.contains(c as u32));
                let k = choose|k: int| 0 <= k < kids@.len() && kids@[k] == c as u32;
            }
        }
        false
    }

    /// Appends `node` under directory `pa` whose full path is `pp`, keeping
    /// the Path Index and children lists.
    fn append(&mut self, node: FileDbEntry, pp: &[u8]) -> (r: Result<u32, FileDbError>)
        requires
            old(self).inv(),
            path_index_of(old(self).state()).contains_key(pp@),
            node.parent == path_index_of(old(self).state())[pp@],
            !child_named(old(self).state(), node.parent as int, node.name@),
        ensures
            final(self).inv(),
            old(self).state().len() < MAX_NODES ==> r == Ok::<u32, FileDbError>(old(self).state().len() as u32)
                && final(self).state() == old(self).state().push(node@),
            old(self).state().len() >= MAX_NODES ==> r == Err::<u32, FileDbError>(FileDbError::UnsupportedScale)
                && final(self).state() == old(self).state(),
    {
        let ghost s = self.state();
        let ghost e = node@;
        let pa = node.parent;
        let is_dir = node.is_dir;
        let ghost name = node.name@;
        proof {
            lemma_index_sound(s, s.len() as int);
            assert(s.len() > 0);
        }
        let mut key = copy_bytes(pp);
        join_exec(&mut key, node.name.as_slice());
        let ghost old_db = self.db@;
        let a = match add_file_db_entry(&mut self.db, node) {
            Ok(a) => a,
            Err(err) => return Err(err),
        };
        let ghost t = self.state();
        proof {
            lemma_db_view_push(old_db, self.db@.last());
            assert(t == s.push(e));
            lemma_index_push(s, e);
            assert(t[s.len() as int] == e);
            assert(path_of(t, s.len() as int) == join_path(path_of(t, pa as int), name));
            crate::store::lemma_path_of_push(s, e, pa as int);
            assert(path_of(s, pa as int) == pp@);
            assert forall|i: int| 1 <= i < t.len() implies #[trigger] t[i].parent < i && t[t[i].parent as int].is_dir by {
                if i < s.len() {
                    assert(t[i] == s[i]);
                    assert(t[s[i].parent as int] == s[s[i].parent as int]);
                }
            }
            assert forall|i: int, j: int| 0 <= i < j < t.len() implies !(#[trigger] t[i].parent == #[trigger] t[j].parent
                && t[i].name == t[j].name) by {
                assert(t[i] == s[i]);
                if j < s.len() {
                    assert(t[j] == s[j]);
                } else if i > 0 && t[i].parent == t[j].parent && t[i].name == t[j].name {
                    assert(0 < i < s.len() && s[i].parent as int == pa as int && s[i].name == name);
                }
            }
        }
        let ghost old_kids = self.kids@;
        self.kids.push(Vec::new());
        self.kids[pa as usize].push(a);
        if is_dir {
            self.index.insert(key, a);
        }
        proof {
            assert forall|d: int| 0 <= d < t.len() implies (#[trigger] self.kids@[d])@ == child_kids(t, d, t.len() as int) by {
                lemma_child_kids_push(s, e, d, s.len() as int);
                if d < s.len() {
                    assert(old_kids[d]@ == child_kids(s, d, s.len() as int));
                    if d != pa as int {
                        assert(self.kids@[d] == old_kids[d]);
                    }
                } else {
                    assert(child_kids(t, d, t.len() as int) == child_kids(t, d, s.len() as int));
                    lemma_child_kids(t, d, s.len() as int);
                    if child_kids(t, d, s.len() as int).len() > 0 {
                        assert(d < child_kids(t, d, s.len() as int)[0] < s.len());
                    }
                    assert(child_kids(t, d, s.len() as int) =~= Seq::<u32>::empty());
                }
            }
        }
        Ok(a)
    }

    /// Performs one crawl step (see `visit`); `Ok(true)` when the entry was
    /// appended. On error the store is unchanged.
    pub fn visit(&mut self, w: &WalkEntry) -> (r: Result<bool, FileDbError>)
        requires
            old(self).inv(),
        ensures
            final(self).inv(),
            match visit(old(self).state(), w@) {
                Ok(t) => r == Ok::<bool, FileDbError>(t != old(self).state()) && final(self).state() == t,
                Err(e) => r == Err::<bool, FileDbError>(e) && final(self).state() == old(self).state(),
            },
    {
        let ghost s = self.state();
        if self.index.contains(w.path.as_slice()) {
            return Ok(false);
        }
        let (pp, name) = match split_parent(w.path.as_slice()) {
            None => return Err(FileDbError::BrokenParent),
            Some(x) => x,
        };
        let pa = match self.index.get(pp.as_slice()) {
            None => return Err(FileDbError::BrokenParent),
            Some(a) => a,
        };
        proof {
            lemma_index_sound(s, s.len() as int);
        }
        if self.has_child_named(pa, name.as_slice()) {
            return Ok(false);
        }
        let node = FileDbEntry {
            name,
            is_dir: w.is_dir,
            parent: pa,
            size: if w.is_dir {
                0
            } else {
                w.size
            },
            modified: w.modified,
            accessed: w.accessed,
            hash: if w.is_dir {
                empty_hash()
            } else {
                w.hash
            },
        };
        match self.append(node, pp.as_slice()) {
            Ok(_) => {
                assert(self.state().len() == s.len() + 1);
                Ok(true)
            },
            Err(e) => Err(e),
        }
    }

    /// A crawler over `file_db`, which is empty or well-formed.
    pub fn new(file_db: FileDb) -> (r: Crawler)
        requires
            file_db@.len() == 0 || wf(db_view(file_db@)),
        ensures
            r.inv(),
            r.state() == db_view(file_db@),
    {
        let ghost s = db_view(file_db@);
        let n = file_db.len();
        let index = if n == 0 {
            PathIndex::new()
        } else {
            build_path_to_index_map(&file_db)
        };
        proof {
            if n == 0 {
                assert(path_index_of(s) == Map::<Seq<u8>, u32>::empty());
            }
        }
        let mut kids: Vec<Vec<u32>> = Vec::new();
        let mut i: usize = 0;
        while i < n
            invariant
                n == s.len(),
                n <= MAX_NODES,
                i <= n,
                kids@.len() == i,
                forall|k: int| 0 <= k < i ==> (#[trigger] kids@[k])@ == child_kids(s, k, 0),
            decreases n - i,
        {
            kids.push(Vec::new());
            i = i + 1;
        }
        let mut c: usize = 0;
        while c < n
            invariant
                s == db_view(file_db@),
                n == s.len(),
                n <= MAX_NODES,
                c <= n,
                kids@.len() == n,
                s.len() == 0 || wf(s),
                forall|k: int| 0 <= k < n ==> (#[trigger] kids@[k])@ == child_kids(s, k, c as int),
            decreases n - c,
        {
            let ghost before = kids@;
            if c > 0 {
                let p = file_db[c].parent as usize;
                assert(s[c as int].parent < c);
                kids[p].push(c as u32);
            }
            proof {
                assert forall|k: int| 0 <= k < n implies (#[trigger] kids@[k])@ == child_kids(s, k, c + 1) by {
                    if c == 0 || k != s[c as int].parent as int {
                        assert(kids@[k] == before[k]);
                        if c == 0 {
                            assert(s[0].parent == SENTINEL);
                        }
                    }
                    assert(((c + 1 - 1) as u32) as int == c);
                }
            }
            c = c + 1;
        }
        Crawler { db: file_db, index, kids }
    }

    /// The last component of `p`; the whole of `p` for the anchor.
    fn component(p: &[u8]) -> (r: Vec<u8>)
        ensures
            r@ == last_component(p@),
    {
        match split_parent(p) {
            Some((_, n)) => n,
            None => copy_bytes(p),
        }
    }

    /// Splices `root` and its ancestors in (see `splice`). `root` is taken
    /// as it is; on error the store is left as far as it got.
    pub fn splice(&mut self, root: &[u8], times: &Vec<(u64, u64)>) -> (r: Result<(), FileDbError>)
        requires
            old(self).inv(),
            times@.len() == ancestors(root@).len(),
        ensures
            final(self).inv(),
            final(self).state().len() >= old(self).state().len(),
            r is Ok ==> final(self).state().len() > 0,
            match splice(old(self).state(), root@, times@) {
                Ok(t) => r is Ok && final(self).state() == t,
                Err(e) => r == Err::<(), FileDbError>(e),
            },
    {
        let ghost s0 = self.state();
        let anc = root_ancestors(root);
        let ghost ancv = ancestors(root@);
        let n = anc.len();
        proof {
            assert(ancv.len() >= 1) by {
                reveal_with_fuel(ancestors, 2);
            }
        }
        let mut f: usize = 0;
        while f < n && !self.index.contains(anc[f].as_slice())
            invariant
                n == ancv.len(),
                anc@.len() == n,
                forall|k: int| 0 <= k < n ==> (#[trigger] anc@[k])@ == ancv[k],
                f <= n,
                first_known(path_index_of(s0), ancv, 0) == first_known(path_index_of(s0), ancv, f as int),
                self.index@ == path_index_of(s0),
            decreases n - f,
        {
            f = f + 1;
        }
        let mut k: usize = f;
        let mut parent: u32;
        let mut pp: Vec<u8>;
        if f < n {
            parent = match self.index.get(anc[f].as_slice()) {
                Some(a) => a,
                None => return Err(FileDbError::BrokenParent),
            };
            pp = copy_bytes(anc[f].as_slice());
        } else {
            if self.db.len() > 0 {
                return Err(FileDbError::BrokenParent);
            }
            let top = copy_bytes(anc[n - 1].as_slice());
            let node = FileDbEntry {
                name: copy_bytes(anc[n - 1].as_slice()),
                is_dir: true,
                parent: SENTINEL,
                size: 0,
                modified: times[n - 1].0,
                accessed: times[n - 1].1,
                hash: empty_hash(),
            };
            let ghost e = node@;
            self.db.push(node);
            self.kids.push(Vec::new());
            self.index.insert(copy_bytes(top.as_slice()), 0);
            proof {
                let t = self.state();
                assert(t =~= seq![e]);
                assert(path_of(t, 0) == top@);
                lemma_index_push(Seq::<EntryView>::empty(), e);
                assert(Seq::<EntryView>::empty().push(e) =~= t);
                assert(self.kids@[0]@ == child_kids(t, 0, 1)) by {
                    assert(child_kids(t, 0, 0) == Seq::<u32>::empty());
                }
            }
            parent = 0;
            pp = top;
            k = n - 1;
        }
        while k > 0
            invariant
                self.inv(),
                self.state().len() > 0,
                n == ancv.len(),
                anc@.len() == n,
                times@.len() == n,
                forall|i: int| 0 <= i < n ==> (#[trigger] anc@[i])@ == ancv[i],
                k < n,
                s0 == old(self).state(),
                self.state().len() >= s0.len(),
                path_index_of(self.state()).contains_key(pp@),
                path_index_of(self.state())[pp@] == parent,
                splice(s0, root@, times@) == splice_down(self.state(), ancv, times@, k as int, parent),
            decreases k,
        {
            let name = Self::component(anc[k - 1].as_slice());
            proof {
                lemma_index_sound(self.state(), self.state().len() as int);
            }
            if self.has_child_named(parent, name.as_slice()) {
                return Err(FileDbError::BrokenParent);
            }
            let node = FileDbEntry {
                name,
                is_dir: true,
                parent,
                size: 0,
                modified: times[k - 1].0,
                accessed: times[k - 1].1,
                hash: empty_hash(),
            };
            let ghost e = node@;
            let ghost before = self.state();
            let mut next = copy_bytes(pp.as_slice());
            join_exec(&mut next, node.name.as_slice());
            let a = match self.append(node, pp.as_slice()) {
                Ok(a) => a,
                Err(err) => {
                    proof {
                        assert(before.len() >= MAX_NODES);
                        assert(self.state() == before);
                        assert(err == FileDbError::UnsupportedScale);
                        assert(splice_down(before, ancv, times@, k as int, parent) == Err::<
                            Seq<EntryView>,
                            FileDbError,
                        >(FileDbError::UnsupportedScale));
                    }
                    return Err(err);
                },
            };
            proof {
                let t = self.state();
                lemma_index_sound(before, before.len() as int);
                lemma_index_push(before, e);
                assert(t[before.len() as int] == e);
                crate::store::lemma_path_of_push(before, e, parent as int);
                assert(path_of(t, before.len() as int) == join_path(path_of(t, parent as int), e.name));
            }
            parent = a;
            pp = next;
            k = k - 1;
        }
        Ok(())
    }

    /// The store reached.
    pub fn into_db(self) -> (r: FileDb)
        ensures
            db_view(r@) == self.state(),
    {
        self.db
    }
}

proof fn lemma_visit_err_sticks(s: Seq<EntryView>, ws: Seq<WalkView>, i: int)
    requires
        0 <= i <= ws.len(),
        visit_all(s, ws.take(i)) is Err,
    ensures
        visit_all(s, ws.take(ws.len() as int)) == visit_all(s, ws.take(i)),
    decreases ws.len() - i,
{
    if i < ws.len() {
        assert(ws.take(i + 1).drop_last() =~= ws.take(i));
        lemma_visit_err_sticks(s, ws, i + 1);
    }
}

/// Whether a walked path is already catalogued: it is in the Path Index,
/// or its parent directory has a child of its name.
pub open spec fn catalogued(s: Seq<EntryView>, w: WalkView) -> bool {
    let idx = path_index_of(s);
    idx.contains_key(w.path) || (match split_path(w.path) {
        Some((pp, name)) => idx.contains_key(pp) && child_named(s, idx[pp] as int, name),
        None => false,
    })
}

proof fn lemma_visit_all_catalogued(s: Seq<EntryView>, ws: Seq<WalkView>)
    requires
        forall|i: int| 0 <= i < ws.len() ==> catalogued(s, #[trigger] ws[i]),
    ensures
        visit_all(s, ws) == Ok::<Seq<EntryView>, FileDbError>(s),
    decreases ws.len(),
{
    if ws.len() > 0 {
        assert forall|i: int| 0 <= i < ws.drop_last().len() implies catalogued(s, #[trigger] ws.drop_last()[i]) by {
            assert(ws.drop_last()[i] == ws[i]);
        }
        lemma_visit_all_catalogued(s, ws.drop_last());
        assert(catalogued(s, ws[ws.len() - 1]));
    }
}

/// Crawling again a tree that is already catalogued changes nothing: when
/// the crawl root is in the Path Index and every walked path is
/// catalogued, the crawl returns the store as it was.
pub proof fn lemma_crawl_catalogued_unchanged(
    s: Seq<EntryView>,
    root: Seq<u8>,
    times: Seq<(u64, u64)>,
    ws: Seq<WalkView>,
)
    requires
        wf(s),
        path_index_of(s).contains_key(strip_trailing(root)),
        forall|i: int| 0 <= i < ws.len() ==> catalogued(s, #[trigger] ws[i]),
    ensures
        crawl(s, root, times, ws) == Ok::<Seq<EntryView>, FileDbError>(s),
{
    let r = strip_trailing(root);
    let anc = ancestors(r);
    assert(anc[0] == r) by {
        reveal_with_fuel(ancestors, 2);
    }
    assert(anc.len() > 0) by {
        reveal_with_fuel(ancestors, 2);
    }
    assert(first_known(path_index_of(s), anc, 0) == 0);
    lemma_visit_all_catalogued(s, ws);
}

/// A fresh store of everything under `root`: its ancestors (with the
/// times in `times`, aligned with `splice_paths(root)`) and each path of
/// `walk`, the pre-order walk of `root`.
pub fn crawl_initial(root: &[u8], times: &Vec<(u64, u64)>, walk: &Vec<WalkEntry>) -> (r: Result<FileDb, FileDbError>)
    requires
        times@.len() == ancestors(strip_trailing(root@)).len(),
    ensures
        match r {
            Ok(db) => crawl(Seq::empty(), root@, times@, walk_view(walk@)) == Ok::<Seq<EntryView>, FileDbError>(db_view(db@))
                && wf(db_view(db@)),
            Err(e) => crawl(Seq::empty(), root@, times@, walk_view(walk@)) == Err::<Seq<EntryView>, FileDbError>(e),
        },
{
    let mut db: FileDb = Vec::new();
    assert(db_view(db@) =~= Seq::<EntryView>::empty());
    match crawl_into(&mut db, root, times, walk) {
        Ok(()) => Ok(db),
        Err(e) => Err(e),
    }
}

/// Extends `file_db` with the paths under `root` not catalogued yet (see
/// `crawl`). On error the store holds what was appended before it.
pub fn crawl_add(file_db: &mut FileDb, root: &[u8], times: &Vec<(u64, u64)>, walk: &Vec<WalkEntry>) -> (r: Result<(), FileDbError>)
    requires
        wf(db_view(old(file_db)@)),
        times@.len() == ancestors(strip_trailing(root@)).len(),
    ensures
        match crawl(db_view(old(file_db)@), root@, times@, walk_view(walk@)) {
            Ok(t) => r is Ok && db_view(final(file_db)@) == t,
            Err(e) => r == Err::<(), FileDbError>(e),
        },
        wf(db_view(final(file_db)@)),
{
    crawl_into(file_db, root, times, walk)
}

pub(crate) fn crawl_into(file_db: &mut FileDb, root: &[u8], times: &Vec<(u64, u64)>, walk: &Vec<WalkEntry>) -> (r: Result<(), FileDbError>)
    requires
        old(file_db)@.len() == 0 || wf(db_view(old(file_db)@)),
        times@.len() == ancestors(strip_trailing(root@)).len(),
    ensures
        match crawl(db_view(old(file_db)@), root@, times@, walk_view(walk@)) {
            Ok(t) => r is Ok && db_view(final(file_db)@) == t,
            Err(e) => r == Err::<(), FileDbError>(e),
        },
        final(file_db)@.len() == 0 ==> old(file_db)@.len() == 0,
        r is Ok ==> final(file_db)@.len() > 0,
        final(file_db)@.len() == 0 || wf(db_view(final(file_db)@)),
{
    let ghost s0 = db_view(file_db@);
    let mut db: FileDb = Vec::new();
    std::mem::swap(&mut db, file_db);
    let mut crawler = Crawler::new(db);
    let stripped = strip_trailing_slashes(root);
    let res = crawler.splice(stripped.as_slice(), times);
    if res.is_err() {
        let mut out = crawler.into_db();
        std::mem::swap(&mut out, file_db);
        return res;
    }
    let ghost ws = walk_view(walk@);
    let ghost t0 = crawler.state();
    let mut i: usize = 0;
    assert(ws.take(0) =~= Seq::<WalkView>::empty());
    while i < walk.len()
        invariant
            crawler.inv(),
            ws == walk_view(walk@),
            i <= walk@.len(),
            s0 == db_view(old(file_db)@),
            crawler.state().len() >= s0.len(),
            splice(s0, strip_trailing(root@), times@) == Ok::<Seq<EntryView>, FileDbError>(t0),
            visit_all(t0, ws.take(i as int)) == Ok::<Seq<EntryView>, FileDbError>(crawler.state()),
        decreases walk@.len() - i,
    {
        let ghost before = crawler.state();
        let res = crawler.visit(&walk[i]);
        proof {
            assert(ws.take(i + 1).drop_last() =~= ws.take(i as int));
            assert(ws.take(i + 1).last() == walk@[i as int]@);
        }
        i = i + 1;
        if res.is_err() {
            proof {
                assert(crawler.state() == before);
                assert(visit(before, walk@[i - 1]@) == match res {
                    Err(e) => Err::<Seq<EntryView>, FileDbError>(e),
                    Ok(_) => Ok(before),
                });
                assert(ws.take(i as int).len() > 0);
                assert(visit_all(t0, ws.take(i as int)) == visit(before, walk@[i - 1]@));
                lemma_visit_err_sticks(t0, ws, i as int);
                assert(ws.take(ws.len() as int) =~= ws);
            }
            let mut out = crawler.into_db();
            std::mem::swap(&mut out, file_db);
            assert(db_view(file_db@).len() == file_db@.len());
            assert(s0.len() == old(file_db)@.len());
            return match res {
                Err(e) => Err(e),
                Ok(_) => Ok(()),
            };
        }
    }
    assert(ws.take(i as int) =~= ws);
    assert(crawler.state().len() > 0);
    let mut out = crawler.into_db();
    std::mem::swap(&mut out, file_db);
    Ok(())
}

} // verus!
