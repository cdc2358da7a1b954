//! Bottom-up derivation of directory sizes and directory hashes.
use vstd::prelude::*;

use crate::store::{db_view, wf, EntryView, FileDb};

verus! {

/// What a node contributes by itself: a file its size, a directory nothing.
pub open spec fn own_size(s: Seq<EntryView>, j: int) -> int {
    if s[j].is_dir {
        0
    } else {
        s[j].size as int
    }
}

/// The naive recursive aggregate size of node `j`: its own size plus the
/// aggregate sizes of its children.
pub open spec fn subtree_size(s: Seq<EntryView>, j: int) -> int
    decreases s.len() - j, s.len() - j + 1,
{
    if !(0 <= j < s.len()) {
        0
    } else {
        own_size(s, j) + children_size(s, j, j + 1)
    }
}

/// The aggregate sizes of the children of `j` at addresses `c` and above.
pub open spec fn children_size(s: Seq<EntryView>, j: int, c: int) -> int
    decreases s.len() - j, s.len() - c,
{
    if !(0 <= j < c < s.len()) {
        0
    } else {
        (if s[c].parent as int == j {
            subtree_size(s, c)
        } else {
            0
        }) + children_size(s, j, c + 1)
    }
}

/// The store after size propagation: every node's size is its aggregate
/// size; nothing else changes.
pub open spec fn propagated_sizes(s: Seq<EntryView>) -> Seq<EntryView> {
    Seq::new(s.len(), |j: int| EntryView { size: subtree_size(s, j) as u64, ..s[j] })
}

/// Two stores with the same shape and the same file sizes.
pub open spec fn same_size_shape(s: Seq<EntryView>, t: Seq<EntryView>) -> bool {
    &&& s.len() == t.len()
    &&& forall|k: int|
        0 <= k < s.len() ==> (#[trigger] s[k]).is_dir == t[k].is_dir && s[k].parent == t[k].parent
            && own_size(s, k) == own_size(t, k)
}

proof fn lemma_same_shape_subtree(s: Seq<EntryView>, t: Seq<EntryView>, j: int)
    requires
        same_size_shape(s, t),
    ensures
        subtree_size(s, j) == subtree_size(t, j),
    decreases s.len() - j, s.len() - j + 1,
{
    if 0 <= j < s.len() {
        assert(s[j].is_dir == t[j].is_dir && own_size(s, j) == own_size(t, j));
        lemma_same_shape_children(s, t, j, j + 1);
    }
}

proof fn lemma_same_shape_children(s: Seq<EntryView>, t: Seq<EntryView>, j: int, c: int)
    requires
        same_size_shape(s, t),
    ensures
        children_size(s, j, c) == children_size(t, j, c),
    decreases s.len() - j, s.len() - c,
{
    if 0 <= j < c < s.len() {
        assert(s[c].parent == t[c].parent);
        lemma_same_shape_subtree(s, t, c);
        lemma_same_shape_children(s, t, j, c + 1);
    }
}

proof fn lemma_subtree_nonneg(s: Seq<EntryView>, j: int)
    ensures
        subtree_size(s, j) >= 0,
    decreases s.len() - j, s.len() - j + 1,
{
    if 0 <= j < s.len() {
        lemma_children_nonneg(s, j, j + 1);
    }
}

proof fn lemma_children_nonneg(s: Seq<EntryView>, j: int, c: int)
    ensures
        children_size(s, j, c) >= 0,
    decreases s.len() - j, s.len() - c,
{
    if 0 <= j < c < s.len() {
        lemma_subtree_nonneg(s, c);
        lemma_children_nonneg(s, j, c + 1);
    }
}

proof fn lemma_sizes_nonneg(s: Seq<EntryView>, j: int, c: int)
    ensures
        subtree_size(s, j) >= 0,
        children_size(s, j, c) >= 0,
{
    lemma_subtree_nonneg(s, j);
    lemma_children_nonneg(s, j, c);
}

/// In a well-formed store a file has no children.
proof fn lemma_file_no_children(s: Seq<EntryView>, j: int, c: int)
    requires
        wf(s),
        0 <= j < s.len(),
        !s[j].is_dir,
    ensures
        children_size(s, j, c) == 0,
    decreases s.len() - c,
{
    if 0 <= j < c < s.len() {
        assert(s[c].parent < c && s[s[c].parent as int].is_dir);
        lemma_file_no_children(s, j, c + 1);
    }
}

/// A child's aggregate is part of every suffix sum of its siblings that
/// reaches it.
proof fn lemma_child_le(s: Seq<EntryView>, j: int, c: int, k: int)
    requires
        0 <= j < c <= k < s.len(),
        s[k].parent as int == j,
    ensures
        subtree_size(s, k) <= children_size(s, j, c),
    decreases k - c,
{
    lemma_sizes_nonneg(s, j, c + 1);
    lemma_sizes_nonneg(s, c, c + 1);
    if c < k {
        lemma_child_le(s, j, c + 1, k);
    }
}

/// In a well-formed store no aggregate exceeds the root's.
proof fn lemma_le_root(s: Seq<EntryView>, k: int)
    requires
        wf(s),
        0 <= k < s.len(),
    ensures
        subtree_size(s, k) <= subtree_size(s, 0),
    decreases k,
{
    if k > 0 {
        let p = s[k].parent as int;
        assert(s[k].parent < k);
        lemma_child_le(s, p, p + 1, k);
        lemma_sizes_nonneg(s, p, p + 1);
        lemma_le_root(s, p);
    }
}

/// Size propagation is idempotent: propagating the sizes of a store whose
/// sizes were already propagated changes nothing.
pub proof fn lemma_propagate_sizes_idempotent(s: Seq<EntryView>)
    requires
        wf(s),
    ensures
        propagated_sizes(propagated_sizes(s)) == propagated_sizes(s),
{
    let t = propagated_sizes(s);
    assert forall|k: int| 0 <= k < s.len() implies own_size(s, k) == own_size(t, k) by {
        if !s[k].is_dir {
            lemma_file_no_children(s, k, k + 1);
        }
    }
    assert(same_size_shape(s, t));
    assert forall|k: int| 0 <= k < s.len() implies subtree_size(t, k) == subtree_size(s, k) by {
        lemma_same_shape_subtree(s, t, k);
    }
    assert(propagated_sizes(t) =~= t);
}

/// Sets every directory's size to its aggregate size: the sum of the sizes
/// of the files beneath it. Ascending address order is topological, so a
/// descending sweep adds each node into its parent after all of the node's
/// own descendants have been added into it.
pub fn propagate_sizes(file_db: &mut FileDb)
    requires
        wf(db_view(old(file_db)@)),
        subtree_size(db_view(old(file_db)@), 0) <= u64::MAX,
    ensures
        db_view(final(file_db)@) == propagated_sizes(db_view(old(file_db)@)),
{
    let ghost s = db_view(file_db@);
    let n = file_db.len();
    let mut i: usize = 0;
    while i < n
        invariant
            n == file_db@.len(),
            s.len() == n,
            i <= n,
            forall|k: int|
                0 <= k < n ==> {
                    let e = #[trigger] db_view(file_db@)[k];
                    &&& e.name == s[k].name
                    &&& e.is_dir == s[k].is_dir
                    &&& e.parent == s[k].parent
                    &&& e.modified == s[k].modified
                    &&& e.accessed == s[k].accessed
                    &&& e.hash == s[k].hash
                    &&& e.size == if k < i {
                        own_size(s, k) as u64
                    } else {
                        s[k].size
                    }
                },
        decreases n - i,
    {
        let ghost before = file_db@;
        if file_db[i].is_dir {
            file_db[i].size = 0;
        }
        proof {
            assert forall|k: int| 0 <= k < n && k != i implies file_db@[k] == before[k] by {}
            assert(db_view(file_db@)[i as int] == file_db@[i as int]@);
            assert(db_view(before)[i as int] == before[i as int]@);
            assert(file_db@[i as int].name == before[i as int].name);
            assert(file_db@[i as int].hash == before[i as int].hash);
            assert forall|k: int| 0 <= k < n implies {
                let e = #[trigger] db_view(file_db@)[k];
                &&& e.name == s[k].name
                &&& e.is_dir == s[k].is_dir
                &&& e.parent == s[k].parent
                &&& e.modified == s[k].modified
                &&& e.accessed == s[k].accessed
                &&& e.hash == s[k].hash
                &&& e.size == if k < i + 1 {
                    own_size(s, k) as u64
                } else {
                    s[k].size
                }
            } by {
                assert(db_view(file_db@)[k] == file_db@[k]@);
                assert(db_view(before)[k] == before[k]@);
            }
        }
        i = i + 1;
    }
    let mut m: usize = n;
    proof {
        assert forall|j: int| 0 <= j < n implies #[trigger] children_size(s, j, sweep_start(m as int, j)) == 0 by {}
    }
    while m > 1
        invariant
            n == file_db@.len(),
            s.len() == n,
            wf(s),
            subtree_size(s, 0) <= u64::MAX,
            1 <= m <= n,
            forall|k: int|
                0 <= k < n ==> {
                    let e = #[trigger] db_view(file_db@)[k];
                    &&& e.name == s[k].name
                    &&& e.is_dir == s[k].is_dir
                    &&& e.parent == s[k].parent
                    &&& e.modified == s[k].modified
                    &&& e.accessed == s[k].accessed
                    &&& e.hash == s[k].hash
                    &&& e.size as int == own_size(s, k) + children_size(s, k, sweep_start(m as int, k))
                },
        decreases m,
    {
        let i = m - 1;
        let p = file_db[i].parent as usize;
        proof {
            assert(db_view(file_db@)[i as int].parent == s[i as int].parent);
            assert(s[i as int].parent < i);
            assert(db_view(file_db@)[i as int].size == subtree_size(s, i as int));
            assert(children_size(s, p as int, i as int) == subtree_size(s, i as int) + children_size(
                s,
                p as int,
                m as int,
            ));
            assert(db_view(file_db@)[p as int].size as int == own_size(s, p as int) + children_size(
                s,
                p as int,
                m as int,
            ));
            lemma_sizes_nonneg(s, p as int, p as int + 1);
            lemma_child_le(s, p as int, p as int + 1, i as int);
            if p + 1 < i {
                lemma_sizes_nonneg(s, p as int, i as int);
            }
            lemma_le_root(s, p as int);
            assert(subtree_size(s, p as int) == own_size(s, p as int) + children_size(s, p as int, p as int + 1));
            assert(children_size(s, p as int, i as int) <= children_size(s, p as int, p as int + 1)) by {
                lemma_suffix_le(s, p as int, p as int + 1, i as int);
            }
        }
        let add = file_db[i].size;
        let ghost before = db_view(file_db@);
        file_db[p].size = file_db[p].size + add;
        m = i;
        proof {
            assert forall|k: int| 0 <= k < n implies {
                let e = #[trigger] db_view(file_db@)[k];
                &&& e.name == s[k].name
                &&& e.is_dir == s[k].is_dir
                &&& e.parent == s[k].parent
                &&& e.modified == s[k].modified
                &&& e.accessed == s[k].accessed
                &&& e.hash == s[k].hash
                &&& e.size as int == own_size(s, k) + children_size(s, k, sweep_start(m as int, k))
            } by {
                assert(db_view(file_db@)[k] == if k == p { EntryView { size: (before[k].size + add) as u64, ..before[k] } } else { before[k] });
                if k < i {
                    assert(children_size(s, k, i as int) == (if s[i as int].parent as int == k {
                        subtree_size(s, i as int)
                    } else {
                        0
                    }) + children_size(s, k, i as int + 1));
                }
            }
        }
    }
    proof {
        assert forall|k: int| 0 <= k < n implies db_view(file_db@)[k] == propagated_sizes(s)[k] by {
            assert(subtree_size(s, k) == own_size(s, k) + children_size(s, k, k + 1));
        }
        assert(db_view(file_db@) =~= propagated_sizes(s));
    }
}

/// Whether every aggregate size of a well-formed store fits 64 bits: the
/// condition under which `propagate_sizes` can run. The descending sweep is
/// done with saturating additions, which keep `min(aggregate, u64::MAX)`.
pub fn sizes_fit(file_db: &FileDb) -> (r: bool)
    requires
        wf(db_view(file_db@)),
    ensures
        r == (subtree_size(db_view(file_db@), 0) < u64::MAX),
{
    let ghost s = db_view(file_db@);
    let n = file_db.len();
    let mut acc: Vec<u64> = Vec::new();
    let mut i: usize = 0;
    while i < n
        invariant
            s == db_view(file_db@),
            n == s.len(),
            i <= n,
            acc@.len() == i,
            forall|k: int| 0 <= k < i ==> acc@[k] as int == own_size(s, k),
        decreases n - i,
    {
        acc.push(if file_db[i].is_dir {
            0
        } else {
            file_db[i].size
        });
        i = i + 1;
    }
    let mut m: usize = n;
    proof {
        assert forall|j: int| 0 <= j < n implies #[trigger] children_size(s, j, sweep_start(m as int, j)) == 0 by {}
    }
    while m > 1
        invariant
            s == db_view(file_db@),
            n == s.len(),
            wf(s),
            1 <= m <= n,
            acc@.len() == n,
            forall|k: int|
                0 <= k < n ==> #[trigger] acc@[k] as int == min_u64(own_size(s, k) + children_size(s, k, sweep_start(m as int, k))),
        decreases m,
    {
        let i = m - 1;
        let p = file_db[i].parent as usize;
        proof {
            assert(s[i as int].parent < i);
            assert(acc@[i as int] as int == min_u64(subtree_size(s, i as int)));
            assert(children_size(s, p as int, i as int) == subtree_size(s, i as int) + children_size(s, p as int, m as int));
            lemma_sizes_nonneg(s, p as int, m as int);
            lemma_sizes_nonneg(s, i as int, i as int + 1);
        }
        let ghost before = acc@;
        let v = acc[p].saturating_add(acc[i]);
        acc.set(p, v);
        m = i;
        proof {
            assert forall|k: int| 0 <= k < n implies #[trigger] acc@[k] as int == min_u64(own_size(s, k) + children_size(s, k, sweep_start(m as int, k))) by {
                if k < i {
                    assert(children_size(s, k, i as int) == (if s[i as int].parent as int == k {
                        subtree_size(s, i as int)
                    } else {
                        0
                    }) + children_size(s, k, i as int + 1));
                }
                if k != p {
                    assert(acc@[k] == before[k]);
                }
            }
        }
    }
    assert(subtree_size(s, 0) == own_size(s, 0) + children_size(s, 0, 1));
    acc[0] < u64::MAX
}

/// `x` capped at `u64::MAX`.
pub open spec fn min_u64(x: int) -> int {
    if x < u64::MAX {
        x
    } else {
        u64::MAX as int
    }
}

/// Where the descending sweep stands for node `k` once addresses `m` and
/// above have been added into their parents.
spec fn sweep_start(m: int, k: int) -> int {
    if m > k + 1 {
        m
    } else {
        k + 1
    }
}

/// Suffix sums of sibling aggregates shrink as the start moves up.
proof fn lemma_suffix_le(s: Seq<EntryView>, j: int, c: int, d: int)
    requires
        0 <= j < c <= d,
    ensures
        children_size(s, j, d) <= children_size(s, j, c),
    decreases d - c,
{
    if c < d && c < s.len() {
        lemma_sizes_nonneg(s, c, c + 1);
        lemma_suffix_le(s, j, c + 1, d);
    }
}

} // verus!
