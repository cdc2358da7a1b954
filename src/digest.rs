//! Directory content hashes: a directory's hash is the digest of its
//! children's hashes, concatenated in name order.
use vstd::prelude::*;

use crate::path::append_bytes;
use crate::sort::{key_order, positions, sort_positions, SortKey, keys_view};
use crate::store::{db_view, empty_hash, empty_hash_view, wf, EntryView, FileDb, FileDbError};

verus! {

/// The BLAKE3 digest of a byte string.
pub uninterp spec fn blake3_of(data: Seq<u8>) -> Seq<u8>;

/// Relies on `blake3::hash`: the 32-byte BLAKE3 digest of the input, which
/// depends on the input bytes alone.
#[verifier::external_body]
fn blake3_digest(data: &[u8]) -> (r: [u8; 32])
    ensures
        r@ == blake3_of(data@),
{
    *blake3::hash(data).as_bytes()
}

/// The children of `j` below address `c`, in address order.
pub open spec fn kids_below(s: Seq<EntryView>, j: int, c: int) -> Seq<u32>
    decreases c,
{
    if c <= 0 {
        Seq::empty()
    } else if s[c - 1].parent as int == j && c - 1 > j {
        kids_below(s, j, c - 1).push((c - 1) as u32)
    } else {
        kids_below(s, j, c - 1)
    }
}

/// The children of `j`, in address order.
pub open spec fn children_of(s: Seq<EntryView>, j: int) -> Seq<u32> {
    kids_below(s, j, s.len() as int)
}

/// Sort keys naming each of `kids` by its name.
pub open spec fn name_keys(s: Seq<EntryView>, kids: Seq<u32>) -> Seq<(Seq<u8>, u128)> {
    Seq::new(kids.len(), |p: int| (s[kids[p] as int].name, 0u128))
}

/// `kids` ordered by name (byte order), equal names by address.
pub open spec fn by_name(s: Seq<EntryView>, kids: Seq<u32>) -> Seq<u32> {
    positions(kids.len()).sort_by(key_order(name_keys(s, kids))).map_values(|p: usize| kids[p as int])
}

/// The stored hashes of `cs`, concatenated.
pub open spec fn stored_concat(s: Seq<EntryView>, cs: Seq<u32>) -> Seq<u8>
    decreases cs.len(),
{
    if cs.len() == 0 {
        Seq::empty()
    } else {
        stored_concat(s, cs.drop_last()) + s[cs.last() as int].hash
    }
}

/// The derived hash of node `j`: a file keeps its stored hash; the root
/// directory has the empty hash; any other directory has the digest of its
/// children's derived hashes concatenated in name order.
pub open spec fn hash_of(s: Seq<EntryView>, j: int) -> Seq<u8>
    decreases s.len() - j, 1int, 0int,
{
    if !(0 <= j < s.len()) {
        Seq::empty()
    } else if !s[j].is_dir {
        s[j].hash
    } else if j == 0 {
        empty_hash_view()
    } else {
        blake3_of(tree_concat(s, j, by_name(s, children_of(s, j))))
    }
}

/// The derived hashes of those of `cs` that lie above `j`, concatenated.
pub open spec fn tree_concat(s: Seq<EntryView>, j: int, cs: Seq<u32>) -> Seq<u8>
    decreases s.len() - j, 0int, cs.len(),
{
    if cs.len() == 0 || !(0 <= j < s.len()) {
        Seq::empty()
    } else {
        tree_concat(s, j, cs.drop_last()) + (if j < cs.last() < s.len() {
            hash_of(s, cs.last() as int)
        } else {
            Seq::empty()
        })
    }
}

/// The store after hash propagation: each node's hash is its derived hash.
pub open spec fn propagated_hashes(s: Seq<EntryView>) -> Seq<EntryView> {
    Seq::new(s.len(), |j: int| EntryView { hash: hash_of(s, j), ..s[j] })
}

proof fn lemma_kids_below(s: Seq<EntryView>, j: int, c: int)
    requires
        c <= s.len() <= 0xffff_ffff,
    ensures
        forall|k: int|
            0 <= k < kids_below(s, j, c).len() ==> j < #[trigger] kids_below(s, j, c)[k] < c
                && s[kids_below(s, j, c)[k] as int].parent as int == j,
    decreases c,
{
    if c > 0 {
        lemma_kids_below(s, j, c - 1);
        let prev = kids_below(s, j, c - 1);
        if s[c - 1].parent as int == j && c - 1 > j {
            assert(kids_below(s, j, c) == prev.push((c - 1) as u32));
            assert(((c - 1) as u32) as int == c - 1);
        } else {
            assert(kids_below(s, j, c) == prev);
        }
    }
}

proof fn lemma_concat_agree(s: Seq<EntryView>, t: Seq<EntryView>, j: int, cs: Seq<u32>)
    requires
        0 <= j < s.len(),
        forall|k: int|
            0 <= k < cs.len() ==> j < #[trigger] cs[k] < s.len() && t[cs[k] as int].hash == hash_of(
                s,
                cs[k] as int,
            ),
    ensures
        stored_concat(t, cs) == tree_concat(s, j, cs),
    decreases cs.len(),
{
    if cs.len() > 0 {
        assert(cs.last() == cs[cs.len() - 1]);
        lemma_concat_agree(s, t, j, cs.drop_last());
    }
}

/// The bytes that a directory's hash digests: the stored hashes of
/// `children`, concatenated in name order (equal names by position).
pub fn dir_hash_input(file_db: &FileDb, children: &Vec<u32>) -> (r: Vec<u8>)
    requires
        forall|k: int| 0 <= k < children@.len() ==> (#[trigger] children@[k] as int) < file_db@.len(),
    ensures
        r@ == stored_concat(db_view(file_db@), by_name(db_view(file_db@), children@)),
{
    let ghost s = db_view(file_db@);
    let mut keys: Vec<SortKey> = Vec::new();
    let mut i: usize = 0;
    while i < children.len()
        invariant
            s == db_view(file_db@),
            i <= children@.len(),
            forall|k: int| 0 <= k < children@.len() ==> (#[trigger] children@[k] as int) < file_db@.len(),
            keys_view(keys@) == name_keys(s, children@).take(i as int),
        decreases children@.len() - i,
    {
        let c = children[i] as usize;
        let bytes = crate::path::copy_bytes(file_db[c].name.as_slice());
        let ghost old_keys = keys@;
        let key = SortKey { bytes, num: 0 };
        assert(key@ == name_keys(s, children@)[i as int]);
        keys.push(key);
        assert(keys_view(keys@) =~= keys_view(old_keys).push(key@));
        i = i + 1;
        assert(keys_view(keys@) =~= name_keys(s, children@).take(i as int));
    }
    assert(name_keys(s, children@).take(i as int) =~= name_keys(s, children@));
    let order = sort_positions(&keys);
    let ghost sorted = by_name(s, children@);
    let mut data: Vec<u8> = Vec::new();
    let mut i: usize = 0;
    while i < order.len()
        invariant
            s == db_view(file_db@),
            order@.len() == children@.len(),
            forall|k: int| 0 <= k < order@.len() ==> order@[k] < children@.len(),
            forall|k: int| 0 <= k < children@.len() ==> (#[trigger] children@[k] as int) < file_db@.len(),
            sorted == order@.map_values(|p: usize| children@[p as int]),
            i <= order@.len(),
            data@ == stored_concat(s, sorted.take(i as int)),
        decreases order@.len() - i,
    {
        let c = children[order[i]] as usize;
        assert(sorted.take(i + 1).drop_last() =~= sorted.take(i as int));
        assert(sorted[i as int] == c);
        append_bytes(&mut data, &file_db[c].hash);
        i = i + 1;
    }
    assert(sorted.take(i as int) =~= sorted);
    data
}

/// Every node but the root has a hash other than the empty one.
pub open spec fn hashes_set(s: Seq<EntryView>) -> bool {
    forall|i: int| 1 <= i < s.len() ==> (#[trigger] s[i]).hash != empty_hash_view()
}

/// Whether `h` is the empty hash.
pub fn is_empty_hash(h: &[u8; 32]) -> (r: bool)
    ensures
        r == (h@ == empty_hash_view()),
{
    let mut k: usize = 0;
    while k < 32
        invariant
            k <= 32,
            forall|j: int| 0 <= j < k ==> h@[j] == 0u8,
        decreases 32 - k,
    {
        if h[k] != 0 {
            assert(h@[k as int] != empty_hash_view()[k as int]);
            return false;
        }
        k = k + 1;
    }
    assert(h@ =~= empty_hash_view());
    true
}

/// Whether every node but the root has a hash set (see `hashes_set`).
pub fn check_hashes(file_db: &FileDb) -> (r: bool)
    ensures
        r == hashes_set(db_view(file_db@)),
{
    let ghost s = db_view(file_db@);
    let mut i: usize = 1;
    while i < file_db.len()
        invariant
            s == db_view(file_db@),
            1 <= i,
            forall|k: int| 1 <= k < i && k < s.len() ==> (#[trigger] s[k]).hash != empty_hash_view(),
        decreases s.len() - i,
    {
        if is_empty_hash(&file_db[i].hash) {
            assert(s[i as int].hash == empty_hash_view());
            return false;
        }
        i = i + 1;
    }
    true
}

/// Sets every directory's hash to its derived hash (see `derive_hashes`),
/// then checks that every node but the root has a hash set: a file that
/// could not be read leaves the empty hash, and that fails with
/// `FileReadError` (the store is still derived).
pub fn propagate_hashes(file_db: &mut FileDb) -> (r: Result<(), FileDbError>)
    requires
        wf(db_view(old(file_db)@)),
    ensures
        db_view(final(file_db)@) == propagated_hashes(db_view(old(file_db)@)),
        r is Ok <==> hashes_set(db_view(final(file_db)@)),
        r is Err ==> r == Err::<(), FileDbError>(FileDbError::FileReadError),
{
    derive_hashes(file_db);
    if check_hashes(file_db) {
        Ok(())
    } else {
        Err(FileDbError::FileReadError)
    }
}

/// Sets every directory's hash to its derived hash (see `hash_of`): the
/// root directory's to the empty hash, every other directory's to the
/// digest of its children's hashes in name order. File hashes, sizes and
/// all other fields are kept.
fn derive_hashes(file_db: &mut FileDb)
    requires
        wf(db_view(old(file_db)@)),
    ensures
        db_view(final(file_db)@) == propagated_hashes(db_view(old(file_db)@)),
{
    let ghost s = db_view(file_db@);
    let n = file_db.len();
    let mut kids: Vec<Vec<u32>> = Vec::new();
    let mut i: usize = 0;
    while i < n
        invariant
            i <= n,
            kids@.len() == i,
            forall|k: int| 0 <= k < i ==> (#[trigger] kids@[k])@ == Seq::<u32>::empty(),
        decreases n - i,
    {
        kids.push(Vec::new());
        i = i + 1;
    }
    let mut c: usize = 1;
    proof {
        assert forall|k: int| 0 <= k < n implies (#[trigger] kids@[k])@ == kids_below(s, k, 1) by {
            assert(kids_below(s, k, 0) == Seq::<u32>::empty());
            assert(kids_below(s, k, 1) == kids_below(s, k, 0));
        }
    }
    while c < n
        invariant
            s == db_view(file_db@),
            wf(s),
            n == s.len(),
            1 <= c <= n,
            kids@.len() == n,
            forall|k: int| 0 <= k < n ==> (#[trigger] kids@[k])@ == kids_below(s, k, c as int),
        decreases n - c,
    {
        let p = file_db[c].parent as usize;
        assert(s[c as int].parent < c);
        let ghost before = kids@;
        kids[p].push(c as u32);
        proof {
            assert forall|k: int| 0 <= k < n implies (#[trigger] kids@[k])@ == kids_below(s, k, c + 1) by {
                if k != p {
                    assert(kids@[k] == before[k]);
                }
            }
        }
        c = c + 1;
    }
    let mut m: usize = n;
    while m > 1
        invariant
            wf(s),
            n == s.len(),
            n == file_db@.len(),
            1 <= m <= n,
            kids@.len() == n,
            forall|k: int| 0 <= k < n ==> (#[trigger] kids@[k])@ == children_of(s, k),
            forall|k: int|
                0 <= k < n ==> {
                    let e = #[trigger] db_view(file_db@)[k];
                    &&& e.name == s[k].name
                    &&& e.is_dir == s[k].is_dir
                    &&& e.parent == s[k].parent
                    &&& e.size == s[k].size
                    &&& e.modified == s[k].modified
                    &&& e.accessed == s[k].accessed
                    &&& e.hash == if k >= m {
                        hash_of(s, k)
                    } else {
                        s[k].hash
                    }
                },
        decreases m,
    {
        let j = m - 1;
        let ghost start = file_db@;
        proof {
            assert(db_view(file_db@)[j as int] == file_db@[j as int]@);
            assert(db_view(file_db@)[j as int].is_dir == s[j as int].is_dir);
        }
        if file_db[j].is_dir {
            let ghost t = db_view(file_db@);
            proof {
                lemma_kids_below(s, j as int, n as int);
                assert(kids@[j as int]@ == children_of(s, j as int));
            }
            let data = dir_hash_input(file_db, &kids[j]);
            let h = blake3_digest(data.as_slice());
            proof {
                let kj = children_of(s, j as int);
                assert(name_keys(t, kj) =~= name_keys(s, kj));
                let sorted = by_name(s, kj);
                let leq = key_order(name_keys(s, kj));
                crate::sort::lemma_key_order_total(name_keys(s, kj));
                positions(kj.len()).lemma_sort_by_ensures(leq);
                assert forall|k: int| 0 <= k < sorted.len() implies j < #[trigger] sorted[k] < s.len()
                    && t[sorted[k] as int].hash == hash_of(s, sorted[k] as int) by {
                    let q = positions(kj.len()).sort_by(leq)[k];
                    assert(positions(kj.len()).sort_by(leq).contains(q));
                    assert(positions(kj.len()).contains(q));
                    let w = choose|w: int| 0 <= w < kj.len() && positions(kj.len())[w] == q;
                    assert(sorted[k] == kj[q as int]);
                }
                vstd::seq_lib::to_multiset_len(positions(kj.len()));
                vstd::seq_lib::to_multiset_len(positions(kj.len()).sort_by(leq));
                lemma_concat_agree(s, t, j as int, sorted);
            }
            let ghost before = file_db@;
            file_db[j].hash = h;
            proof {
                assert(by_name(t, kids@[j as int]@) == by_name(s, children_of(s, j as int)));
                assert(data@ == tree_concat(s, j as int, by_name(s, children_of(s, j as int))));
                assert(s[j as int].is_dir);
                assert(hash_of(s, j as int) == blake3_of(tree_concat(s, j as int, by_name(s, children_of(s, j as int)))));
                assert(h@ == hash_of(s, j as int));
                assert(file_db@[j as int].hash == h);
                assert(db_view(file_db@)[j as int].hash == hash_of(s, j as int));
                assert forall|k: int| 0 <= k < n && k != j implies file_db@[k] == before[k] by {}
            }
        }
        proof {
            assert forall|k: int| 0 <= k < n && k != j implies file_db@[k] == start[k] by {}
            assert forall|k: int| 0 <= k < n implies {
                let e = #[trigger] db_view(file_db@)[k];
                &&& e.name == s[k].name
                &&& e.is_dir == s[k].is_dir
                &&& e.parent == s[k].parent
                &&& e.size == s[k].size
                &&& e.modified == s[k].modified
                &&& e.accessed == s[k].accessed
                &&& e.hash == if k >= j {
                    hash_of(s, k)
                } else {
                    s[k].hash
                }
            } by {
                assert(db_view(file_db@)[k] == file_db@[k]@);
                assert(db_view(start)[k] == start[k]@);
            }
        }
        m = j;
    }
    let ghost before = file_db@;
    if file_db[0].is_dir {
        file_db[0].hash = empty_hash();
    }
    proof {
        assert forall|k: int| 0 <= k < n implies db_view(file_db@)[k] == propagated_hashes(s)[k] by {
            assert(db_view(file_db@)[k] == file_db@[k]@);
            assert(db_view(before)[k] == before[k]@);
            assert(db_view(before)[k].name == s[k].name);
            if k > 0 {
                assert(file_db@[k] == before[k]);
                assert(db_view(before)[k].hash == hash_of(s, k));
            }
        }
    }
    assert(db_view(file_db@) =~= propagated_hashes(s));
}

/// A directory's derived hash depends on its children's derived hashes in
/// name order alone: two directories, in two stores, whose children's
/// derived hashes concatenate in name order to the same bytes have the
/// same derived hash, whatever their names, sizes and times.
pub proof fn lemma_dir_hash_by_child_hashes(s: Seq<EntryView>, a: int, t: Seq<EntryView>, b: int)
    requires
        wf(s),
        wf(t),
        0 < a < s.len(),
        0 < b < t.len(),
        s[a].is_dir,
        t[b].is_dir,
        tree_concat(s, a, by_name(s, children_of(s, a))) == tree_concat(t, b, by_name(t, children_of(t, b))),
    ensures
        hash_of(s, a) == hash_of(t, b),
{
}

/// Two stores, within the address width, that differ at most in sizes,
/// times and directories' stored hashes.
pub open spec fn same_hash_shape(s: Seq<EntryView>, t: Seq<EntryView>) -> bool {
    &&& s.len() == t.len()
    &&& s.len() <= 0xffff_ffff
    &&& forall|k: int|
        0 <= k < s.len() ==> (#[trigger] s[k]).name == t[k].name && s[k].is_dir == t[k].is_dir && s[k].parent
            == t[k].parent && (!s[k].is_dir ==> s[k].hash == t[k].hash)
}

proof fn lemma_kids_same_shape(s: Seq<EntryView>, t: Seq<EntryView>, j: int, c: int)
    requires
        same_hash_shape(s, t),
        c <= s.len(),
    ensures
        kids_below(s, j, c) == kids_below(t, j, c),
    decreases c,
{
    if c > 0 {
        assert(s[c - 1].parent == t[c - 1].parent);
        lemma_kids_same_shape(s, t, j, c - 1);
    }
}

proof fn lemma_hash_same_shape(s: Seq<EntryView>, t: Seq<EntryView>, j: int)
    requires
        same_hash_shape(s, t),
    ensures
        hash_of(s, j) == hash_of(t, j),
    decreases s.len() - j, 1int, 0int,
{
    if 0 <= j < s.len() {
        assert(s[j].is_dir == t[j].is_dir);
        if s[j].is_dir && j != 0 {
            lemma_kids_same_shape(s, t, j, s.len() as int);
            let kids = children_of(s, j);
            assert(name_keys(s, kids) =~= name_keys(t, kids)) by {
                assert forall|p: int| 0 <= p < kids.len() implies s[kids[p] as int].name == t[kids[p] as int].name by {
                    lemma_kids_below(s, j, s.len() as int);
                }
            }
            lemma_concat_same_shape(s, t, j, by_name(s, kids));
        }
    }
}

proof fn lemma_concat_same_shape(s: Seq<EntryView>, t: Seq<EntryView>, j: int, cs: Seq<u32>)
    requires
        same_hash_shape(s, t),
    ensures
        tree_concat(s, j, cs) == tree_concat(t, j, cs),
    decreases s.len() - j, 0int, cs.len(),
{
    if cs.len() > 0 && 0 <= j < s.len() {
        lemma_concat_same_shape(s, t, j, cs.drop_last());
        if j < cs.last() < s.len() {
            lemma_hash_same_shape(s, t, cs.last() as int);
        }
    }
}

/// Derived hashes depend on names (through the order of children), the
/// tree's shape and the files' hashes alone: two stores that differ only
/// in sizes, times and directories' stored hashes derive the same hash for
/// every node.
pub proof fn lemma_hashes_ignore_metadata(s: Seq<EntryView>, t: Seq<EntryView>)
    requires
        same_hash_shape(s, t),
    ensures
        forall|j: int| 0 <= j < s.len() ==> #[trigger] hash_of(s, j) == hash_of(t, j),
{
    assert forall|j: int| 0 <= j < s.len() implies #[trigger] hash_of(s, j) == hash_of(t, j) by {
        lemma_hash_same_shape(s, t, j);
    }
}

} // verus!
