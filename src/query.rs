//! Queries over a catalog: duplicate groups and elsewhere coverage.
use vstd::prelude::*;
use vstd::relations::sorted_by;

use crate::digest::{hashes_set, propagate_hashes, propagated_hashes};
use crate::path::{bytes_eq, copy_bytes, path_starts_with, strip_trailing, strip_trailing_slashes, under};
use crate::sort::{key_order, keys_view, lemma_lex_asym, lemma_lex_irrefl, sort_positions, SortKey};
use crate::store::{all_full_paths, db_view, path_of, wf, EntryView, FileDb, FileDbError};

verus! {

/// The grouping key of a node: its hash and its size.
pub open spec fn dup_key(s: Seq<EntryView>, a: int) -> (Seq<u8>, u128) {
    (s[a].hash, s[a].size as u128)
}

/// The grouping keys of all nodes.
pub open spec fn dup_keys(s: Seq<EntryView>) -> Seq<(Seq<u8>, u128)> {
    Seq::new(s.len(), |a: int| dup_key(s, a))
}

/// Whether another node shares node `a`'s hash and size.
pub open spec fn has_twin(s: Seq<EntryView>, a: int) -> bool {
    exists|b: int| 0 <= b < s.len() && b != a && #[trigger] dup_key(s, b) == dup_key(s, a)
}

/// A set of duplicates: the nodes sharing one hash and size.
pub struct DupGroup {
    pub size: u64,
    pub hash: [u8; 32],
    pub members: Vec<u32>,
}

/// Bytes that collapsing a group would save: its size times the number of
/// members beyond the first.
pub open spec fn saved_bytes(g: DupGroup) -> int {
    g.size * (g.members@.len() - 1)
}

/// `g` is the whole class of nodes of `s` with its hash and size, at least
/// two of them, in ascending address order.
pub open spec fn group_ok(s: Seq<EntryView>, g: DupGroup) -> bool {
    let m = g.members@;
    &&& m.len() >= 2
    &&& forall|k: int| 0 <= k < m.len() ==> (#[trigger] m[k] as int) < s.len() && dup_key(s, m[k] as int) == (
        g.hash@,
        g.size as u128,
    )
    &&& forall|k: int, l: int| 0 <= k < l < m.len() ==> #[trigger] m[k] < #[trigger] m[l]
    &&& forall|a: int|
        0 <= a < s.len() && #[trigger] dup_key(s, a) == (g.hash@, g.size as u128) ==> m.contains(a as u32)
}

/// Under a sorted order, nodes between two with equal keys share that key.
pub proof fn lemma_contiguous(ks: Seq<(Seq<u8>, u128)>, o: Seq<usize>, p: int, m: int, q: int)
    requires
        sorted_by(o, key_order(ks)),
        0 <= p <= m <= q < o.len(),
        ks[o[p] as int] == ks[o[q] as int],
    ensures
        ks[o[m] as int] == ks[o[p] as int],
{
    if p < m && m < q {
        assert(key_order(ks)(o[p], o[m]));
        assert(key_order(ks)(o[m], o[q]));
        let (a, b) = (ks[o[p] as int], ks[o[m] as int]);
        lemma_lex_asym(a.0, b.0);
        lemma_lex_irrefl(a.0);
        assert(a.0 == b.0);
        assert(a.1 == b.1);
    } else if m == q {
    }
}

fn same_key(keys: &Vec<SortKey>, a: usize, b: usize) -> (r: bool)
    requires
        a < keys@.len(),
        b < keys@.len(),
    ensures
        r == (keys_view(keys@)[a as int] == keys_view(keys@)[b as int]),
{
    bytes_eq(keys[a].bytes.as_slice(), keys[b].bytes.as_slice()) && keys[a].num == keys[b].num
}

fn copy_group(g: &DupGroup) -> (r: DupGroup)
    ensures
        r.size == g.size,
        r.hash@ == g.hash@,
        r.members@ == g.members@,
{
    let mut members: Vec<u32> = Vec::new();
    let mut i: usize = 0;
    while i < g.members.len()
        invariant
            i <= g.members@.len(),
            members@ == g.members@.take(i as int),
        decreases g.members@.len() - i,
    {
        members.push(g.members[i]);
        i = i + 1;
        assert(members@ =~= g.members@.take(i as int));
    }
    assert(g.members@.take(i as int) =~= g.members@);
    DupGroup { size: g.size, hash: g.hash, members }
}

/// The duplicate groups of a store whose hashes are already derived: every
/// class of two or more nodes sharing hash and size, each once.
fn group_duplicates(file_db: &FileDb) -> (r: Vec<DupGroup>)
    requires
        db_view(file_db@).len() <= 0xffff_fffe,
    ensures
        forall|k: int| 0 <= k < r@.len() ==> group_ok(db_view(file_db@), #[trigger] r@[k]),
        forall|k: int, l: int|
            0 <= k < l < r@.len() ==> (#[trigger] r@[k]).hash@ != (#[trigger] r@[l]).hash@ || r@[k].size
                != r@[l].size,
        forall|a: int|
            0 <= a < db_view(file_db@).len() && has_twin(db_view(file_db@), a) ==> exists|k: int|
                0 <= k < r@.len() && (#[trigger] r@[k]).members@.contains(a as u32),
{
    let ghost s = db_view(file_db@);
    let n = file_db.len();
    let mut keys: Vec<SortKey> = Vec::new();
    let mut i: usize = 0;
    while i < n
        invariant
            s == db_view(file_db@),
            n == s.len(),
            i <= n,
            keys_view(keys@) == dup_keys(s).take(i as int),
        decreases n - i,
    {
        let e = &file_db[i];
        let key = SortKey { bytes: copy_bytes(&e.hash), num: e.size as u128 };
        let ghost old_keys = keys@;
        assert(key@ == dup_keys(s)[i as int]);
        keys.push(key);
        assert(keys_view(keys@) =~= keys_view(old_keys).push(key@));
        i = i + 1;
        assert(keys_view(keys@) =~= dup_keys(s).take(i as int));
    }
    assert(dup_keys(s).take(i as int) =~= dup_keys(s));
    let ghost ks = dup_keys(s);
    let order = sort_positions(&keys);
    let mut groups: Vec<DupGroup> = Vec::new();
    let mut i: usize = 0;
    while i < n
        invariant
            s == db_view(file_db@),
            n == s.len(),
            n <= 0xffff_fffe,
            ks == dup_keys(s),
            keys_view(keys@) == ks,
            keys@.len() == n,
            order@.len() == n,
            forall|k: int| 0 <= k < n ==> order@[k] < n,
            sorted_by(order@, key_order(ks)),
            forall|a: usize| a < n ==> order@.contains(a),
            order@.no_duplicates(),
            i <= n,
            0 < i < n ==> ks[order@[i - 1] as int] != ks[order@[i as int] as int],
            forall|k: int| 0 <= k < groups@.len() ==> group_ok(s, #[trigger] groups@[k]),
            forall|k: int, p: int|
                0 <= k < groups@.len() && i <= p < n ==> (#[trigger] groups@[k]).hash@ != ks[#[trigger] order@[p] as int].0
                    || groups@[k].size as u128 != ks[order@[p] as int].1,
            forall|k: int, l: int|
                0 <= k < l < groups@.len() ==> (#[trigger] groups@[k]).hash@ != (#[trigger] groups@[l]).hash@
                    || groups@[k].size != groups@[l].size,
            forall|p: int|
                0 <= p < i && has_twin(s, #[trigger] order@[p] as int) ==> exists|k: int|
                    0 <= k < groups@.len() && (#[trigger] groups@[k]).members@.contains(order@[p] as u32),
        decreases n - i,
    {
        let mut j: usize = i + 1;
        while j < n && same_key(&keys, order[j], order[i])
            invariant
                i < j <= n,
                keys_view(keys@) == ks,
                keys@.len() == n,
                order@.len() == n,
                forall|k: int| 0 <= k < n ==> order@[k] < n,
                forall|p: int| i <= p < j ==> ks[#[trigger] order@[p] as int] == ks[order@[i as int] as int],
            decreases n - j,
        {
            j = j + 1;
        }
        let ghost kappa = ks[order@[i as int] as int];
        proof {
            assert forall|a: int| 0 <= a < n && ks[a] == kappa implies exists|p: int|
                i <= p < j && order@[p] == a by {
                assert(order@.contains(a as usize));
                let p = choose|p: int| 0 <= p < n && order@[p] == a as usize;
                if p < i {
                    lemma_contiguous(ks, order@, p, i - 1, i as int);
                } else if p >= j {
                    lemma_contiguous(ks, order@, i as int, j as int, p);
                }
            }
        }
        let ghost old_groups = groups@;
        if j - i >= 2 {
            let mut members: Vec<u32> = Vec::new();
            let mut k: usize = i;
            while k < j
                invariant
                    i <= k <= j <= n,
                    order@.len() == n,
                    forall|q: int| 0 <= q < n ==> order@[q] < n,
                    n <= 0xffff_fffe,
                    members@ == order@.subrange(i as int, k as int).map_values(|x: usize| x as u32),
                decreases j - k,
            {
                members.push(order[k] as u32);
                k = k + 1;
                assert(members@ =~= order@.subrange(i as int, k as int).map_values(|x: usize| x as u32));
            }
            let h = &file_db[order[i]];
            let g = DupGroup { size: h.size, hash: h.hash, members };
            proof {
                let m = g.members@;
                assert(kappa == (g.hash@, g.size as u128));
                assert forall|q: int| 0 <= q < m.len() implies (#[trigger] m[q] as int) < s.len() && dup_key(
                    s,
                    m[q] as int,
                ) == (g.hash@, g.size as u128) by {
                    assert(m[q] == order@[i + q] as u32);
                    assert(ks[order@[i + q] as int] == kappa);
                }
                assert forall|q: int, l: int| 0 <= q < l < m.len() implies #[trigger] m[q] < #[trigger] m[l] by {
                    assert(key_order(ks)(order@[i + q], order@[i + l]));
                    assert(ks[order@[i + q] as int] == kappa);
                    assert(ks[order@[i + l] as int] == kappa);
                    lemma_lex_irrefl(kappa.0);
                    assert(order@[i + q] <= order@[i + l]);
                    assert(order@[i + q] != order@[i + l]);
                    assert(m[q] == order@[i + q] as u32);
                    assert(m[l] == order@[i + l] as u32);
                }
                assert forall|a: int| 0 <= a < s.len() && #[trigger] dup_key(s, a) == (g.hash@, g.size as u128)
                    implies m.contains(a as u32) by {
                    assert(ks[a] == kappa);
                    let p = choose|p: int| i <= p < j && order@[p] == a;
                    assert(m[p - i] == a as u32);
                }
            }
            groups.push(g);
        }
        proof {
            assert forall|p: int| 0 <= p < j && has_twin(s, #[trigger] order@[p] as int) implies exists|k: int|
                0 <= k < groups@.len() && (#[trigger] groups@[k]).members@.contains(order@[p] as u32) by {
                if p < i {
                    let k = choose|k: int|
                        0 <= k < old_groups.len() && (#[trigger] old_groups[k]).members@.contains(order@[p] as u32);
                    assert(groups@[k] == old_groups[k]);
                } else {
                    let a = order@[p] as int;
                    let b = choose|b: int| 0 <= b < s.len() && b != a && #[trigger] dup_key(s, b) == dup_key(s, a);
                    lemma_contiguous(ks, order@, i as int, p, p);
                    if i < p {
                        lemma_contiguous(ks, order@, i as int, i as int, p);
                    }
                    assert(ks[a] == kappa) by {
                        if p > i {
                            assert(ks[order@[p] as int] == kappa);
                        }
                    }
                    assert(ks[b] == kappa);
                    let pb = choose|q: int| i <= q < j && order@[q] == b;
                    assert(j - i >= 2);
                    let g = groups@[groups@.len() - 1];
                    assert(g.members@[p - i] == a as u32);
                    assert(g.members@.contains(a as u32));
                }
            }
            assert forall|k: int, p: int| 0 <= k < groups@.len() && j <= p < n implies (#[trigger] groups@[k]).hash@
                != ks[#[trigger] order@[p] as int].0 || groups@[k].size as u128 != ks[order@[p] as int].1 by {
                if ks[order@[p] as int] == kappa {
                    lemma_contiguous(ks, order@, i as int, j as int, p);
                }
            }
        }
        i = j;
    }
    proof {
        assert forall|a: int| 0 <= a < s.len() && has_twin(s, a) implies exists|k: int|
            0 <= k < groups@.len() && (#[trigger] groups@[k]).members@.contains(a as u32) by {
            assert(order@.contains(a as usize));
            let p = choose|p: int| 0 <= p < n && order@[p] == a as usize;
            assert(has_twin(s, order@[p] as int));
        }
    }
    groups
}

/// A non-empty file outside `target` (and inside `other`, when given): a
/// copy that can cover a file of `target`.
pub open spec fn is_source(s: Seq<EntryView>, target: Seq<u8>, other: Option<Seq<u8>>, a: int) -> bool {
    &&& !s[a].is_dir
    &&& s[a].size > 0
    &&& !under(path_of(s, a), target)
    &&& match other {
        Some(o) => under(path_of(s, a), o),
        None => true,
    }
}

/// A non-empty file inside `target`.
pub open spec fn is_target(s: Seq<EntryView>, target: Seq<u8>, a: int) -> bool {
    !s[a].is_dir && s[a].size > 0 && under(path_of(s, a), target)
}

/// Whether some source file has node `a`'s hash and size.
pub open spec fn covered_elsewhere(s: Seq<EntryView>, target: Seq<u8>, other: Option<Seq<u8>>, a: int) -> bool {
    exists|b: int| 0 <= b < s.len() && is_source(s, target, other, b) && #[trigger] dup_key(s, b) == dup_key(s, a)
}

/// The number of the first `n` nodes that are directories inside `target`.
pub open spec fn dirs_under(s: Seq<EntryView>, target: Seq<u8>, n: int) -> nat
    decreases n,
{
    if n <= 0 {
        0
    } else {
        dirs_under(s, target, n - 1) + if s[n - 1].is_dir && under(path_of(s, n - 1), target) {
            1nat
        } else {
            0nat
        }
    }
}

/// The number of the first `n` nodes that are empty files inside `target`.
pub open spec fn empty_files_under(s: Seq<EntryView>, target: Seq<u8>, n: int) -> nat
    decreases n,
{
    if n <= 0 {
        0
    } else {
        empty_files_under(s, target, n - 1) + if !s[n - 1].is_dir && s[n - 1].size == 0 && under(
            path_of(s, n - 1),
            target,
        ) {
            1nat
        } else {
            0nat
        }
    }
}

/// The total size of the listed nodes.
pub open spec fn sizes_of(s: Seq<EntryView>, list: Seq<u32>) -> nat
    decreases list.len(),
{
    if list.len() == 0 {
        0
    } else {
        sizes_of(s, list.drop_last()) + s[list.last() as int].size as nat
    }
}

/// The outcome of an elsewhere-coverage check of a target subtree.
pub struct Coverage {
    /// Target files with no copy elsewhere, by ascending address.
    pub missing: Vec<u32>,
    /// Target files with a copy elsewhere, by ascending address.
    pub covered: Vec<u32>,
    /// Directories inside the target.
    pub dirs: u64,
    /// Empty files inside the target (left out of the check).
    pub empty_files: u64,
    pub missing_bytes: u128,
    pub covered_bytes: u128,
}

/// `list` holds, in ascending order, exactly the nodes below `n` that
/// satisfy `pred`.
pub open spec fn lists_exactly(list: Seq<u32>, n: int, pred: spec_fn(int) -> bool) -> bool {
    &&& forall|k: int, l: int| 0 <= k < l < list.len() ==> #[trigger] list[k] < #[trigger] list[l]
    &&& forall|k: int| 0 <= k < list.len() ==> (#[trigger] list[k] as int) < n && pred(list[k] as int)
    &&& forall|a: int| 0 <= a < n && pred(a) ==> #[trigger] list.contains(a as u32)
}

proof fn lemma_run_is_class(ks: Seq<(Seq<u8>, u128)>, o: Seq<usize>, i: int, j: int, a: int)
    requires
        sorted_by(o, key_order(ks)),
        0 <= i < j <= o.len(),
        o.contains(a as usize),
        0 <= a,
        a <= usize::MAX,
        ks[a] == ks[o[i] as int],
        i == 0 || ks[o[i - 1] as int] != ks[o[i] as int],
        j == o.len() || ks[o[j] as int] != ks[o[i] as int],
    ensures
        exists|p: int| i <= p < j && o[p] == a,
{
    let p = choose|p: int| 0 <= p < o.len() && o[p] == a as usize;
    if p < i {
        lemma_contiguous(ks, o, p, i - 1, i);
    } else if p >= j {
        lemma_contiguous(ks, o, i, j, p);
    }
}

/// Trailing separators of `target` and `other` are ignored. For every
/// non-empty file inside `target`, whether a file with the same
/// hash and size exists outside `target` (and inside `other`, when given).
/// Also counts the directories and the empty files inside `target`, and the
/// bytes of the missing and of the covered files.
pub fn all_files_elsewhere(file_db: &FileDb, target: &[u8], other: &Option<Vec<u8>>) -> (r: Coverage)
    requires
        wf(db_view(file_db@)),
    ensures
        lists_exactly(
            r.missing@,
            file_db@.len() as int,
            |a: int|
                is_target(db_view(file_db@), strip_trailing(target@), a) && !covered_elsewhere(
                    db_view(file_db@),
                    strip_trailing(target@),
                    match other {
                        Some(o) => Some(strip_trailing(o@)),
                        None => None,
                    },
                    a,
                ),
        ),
        lists_exactly(
            r.covered@,
            file_db@.len() as int,
            |a: int|
                is_target(db_view(file_db@), strip_trailing(target@), a) && covered_elsewhere(
                    db_view(file_db@),
                    strip_trailing(target@),
                    match other {
                        Some(o) => Some(strip_trailing(o@)),
                        None => None,
                    },
                    a,
                ),
        ),
        r.dirs == dirs_under(db_view(file_db@), strip_trailing(target@), file_db@.len() as int),
        r.empty_files == empty_files_under(db_view(file_db@), strip_trailing(target@), file_db@.len() as int),
        r.missing_bytes == sizes_of(db_view(file_db@), r.missing@),
        r.covered_bytes == sizes_of(db_view(file_db@), r.covered@),
{
    let target_v = strip_trailing_slashes(target);
    let target = target_v.as_slice();
    let other_v: Option<Vec<u8>> = match other {
        Some(o) => Some(strip_trailing_slashes(o.as_slice())),
        None => None,
    };
    let other = &other_v;
    let ghost s = db_view(file_db@);
    let ghost ov: Option<Seq<u8>> = match other {
        Some(o) => Some(o@),
        None => None,
    };
    let n = file_db.len();
    let paths = all_full_paths(file_db);
    let mut source: Vec<bool> = Vec::new();
    let mut keys: Vec<SortKey> = Vec::new();
    let mut i: usize = 0;
    while i < n
        invariant
            s == db_view(file_db@),
            n == s.len(),
            i <= n,
            paths@.len() == n,
            forall|k: int| 0 <= k < n ==> (#[trigger] paths@[k])@ == path_of(s, k),
            ov == match other {
                Some(o) => Some(o@),
                None => None::<Seq<u8>>,
            },
            source@.len() == i,
            forall|k: int| 0 <= k < i ==> source@[k] == is_source(s, target@, ov, k),
            keys_view(keys@) == dup_keys(s).take(i as int),
        decreases n - i,
    {
        let e = &file_db[i];
        let p = paths[i].as_slice();
        let in_other = match other {
            Some(o) => path_starts_with(p, o.as_slice()),
            None => true,
        };
        source.push(!e.is_dir && e.size > 0 && !path_starts_with(p, target) && in_other);
        let key = SortKey { bytes: copy_bytes(&e.hash), num: e.size as u128 };
        let ghost old_keys = keys@;
        assert(key@ == dup_keys(s)[i as int]);
        keys.push(key);
        assert(keys_view(keys@) =~= keys_view(old_keys).push(key@));
        i = i + 1;
        assert(keys_view(keys@) =~= dup_keys(s).take(i as int));
    }
    assert(dup_keys(s).take(i as int) =~= dup_keys(s));
    let ghost ks = dup_keys(s);
    let order = sort_positions(&keys);
    let mut cov: Vec<bool> = Vec::new();
    let mut i: usize = 0;
    while i < n
        invariant
            i <= n,
            cov@.len() == i,
        decreases n - i,
    {
        cov.push(false);
        i = i + 1;
    }
    let mut i: usize = 0;
    while i < n
        invariant
            s == db_view(file_db@),
            n == s.len(),
            ks == dup_keys(s),
            keys_view(keys@) == ks,
            keys@.len() == n,
            order@.len() == n,
            forall|k: int| 0 <= k < n ==> order@[k] < n,
            sorted_by(order@, key_order(ks)),
            forall|a: usize| a < n ==> order@.contains(a),
            order@.no_duplicates(),
            source@.len() == n,
            forall|k: int| 0 <= k < n ==> source@[k] == is_source(s, target@, ov, k),
            cov@.len() == n,
            i <= n,
            0 < i < n ==> ks[order@[i - 1] as int] != ks[order@[i as int] as int],
            forall|p: int| 0 <= p < i ==> cov@[#[trigger] order@[p] as int] == covered_elsewhere(s, target@, ov, order@[p] as int),
        decreases n - i,
    {
        let mut j: usize = i + 1;
        while j < n && same_key(&keys, order[j], order[i])
            invariant
                i < j <= n,
                keys_view(keys@) == ks,
                keys@.len() == n,
                order@.len() == n,
                forall|k: int| 0 <= k < n ==> order@[k] < n,
                forall|p: int| i <= p < j ==> ks[#[trigger] order@[p] as int] == ks[order@[i as int] as int],
            decreases n - j,
        {
            j = j + 1;
        }
        let ghost kappa = ks[order@[i as int] as int];
        let mut has_src = false;
        let mut p: usize = i;
        while p < j
            invariant
                i <= p <= j <= n,
                order@.len() == n,
                forall|k: int| 0 <= k < n ==> order@[k] < n,
                source@.len() == n,
                has_src == exists|q: int| i <= q < p && source@[#[trigger] order@[q] as int],
            decreases j - p,
        {
            if source[order[p]] {
                has_src = true;
            }
            p = p + 1;
        }
        proof {
            assert forall|q: int| i <= q < j implies has_src == covered_elsewhere(s, target@, ov, #[trigger] order@[q] as int) by {
                let a = order@[q] as int;
                assert(ks[a] == kappa);
                if has_src {
                    let q2 = choose|q2: int| i <= q2 < p && source@[#[trigger] order@[q2] as int];
                    let b = order@[q2] as int;
                    assert(ks[b] == kappa);
                    assert(dup_key(s, b) == dup_key(s, a));
                }
                if covered_elsewhere(s, target@, ov, a) {
                    let b = choose|b: int| 0 <= b < s.len() && is_source(s, target@, ov, b) && #[trigger] dup_key(s, b) == dup_key(s, a);
                    assert(ks[b] == kappa);
                    lemma_run_is_class(ks, order@, i as int, j as int, b);
                    let q2 = choose|q2: int| i <= q2 < j && order@[q2] == b;
                    assert(source@[order@[q2] as int]);
                }
            }
        }
        let mut p: usize = i;
        while p < j
            invariant
                i <= p <= j <= n,
                order@.len() == n,
                forall|k: int| 0 <= k < n ==> order@[k] < n,
                order@.no_duplicates(),
                cov@.len() == n,
                forall|q: int| 0 <= q < i ==> cov@[#[trigger] order@[q] as int] == covered_elsewhere(s, target@, ov, order@[q] as int),
                forall|q: int| i <= q < p ==> cov@[#[trigger] order@[q] as int] == has_src,
                forall|q: int| i <= q < j ==> has_src == covered_elsewhere(s, target@, ov, #[trigger] order@[q] as int),
            decreases j - p,
        {
            let idx = order[p];
            let ghost before = cov@;
            cov[idx] = has_src;
            proof {
                assert forall|q: int| 0 <= q < n && q != p implies cov@[#[trigger] order@[q] as int] == before[order@[q] as int] by {
                    assert(order@[q] != order@[p as int]);
                }
            }
            p = p + 1;
        }
        proof {
            assert forall|q: int| 0 <= q < j implies cov@[#[trigger] order@[q] as int] == covered_elsewhere(s, target@, ov, order@[q] as int) by {
                if q >= i {
                    assert(cov@[order@[q] as int] == has_src);
                }
            }
        }
        i = j;
    }
    proof {
        assert forall|k: int| 0 <= k < n implies cov@[k] == covered_elsewhere(s, target@, ov, k) by {
            assert(order@.contains(k as usize));
            let p = choose|p: int| 0 <= p < n && order@[p] == k as usize;
            assert(cov@[order@[p] as int] == covered_elsewhere(s, target@, ov, order@[p] as int));
        }
    }
    let mut out = Coverage {
        missing: Vec::new(),
        covered: Vec::new(),
        dirs: 0,
        empty_files: 0,
        missing_bytes: 0,
        covered_bytes: 0,
    };
    let mut a: usize = 0;
    while a < n
        invariant
            s == db_view(file_db@),
            n == s.len(),
            n <= 0xffff_fffe,
            a <= n,
            paths@.len() == n,
            forall|k: int| 0 <= k < n ==> (#[trigger] paths@[k])@ == path_of(s, k),
            cov@.len() == n,
            forall|k: int| 0 <= k < n ==> cov@[k] == covered_elsewhere(s, target@, ov, k),
            lists_exactly(out.missing@, a as int, |k: int| is_target(s, target@, k) && !covered_elsewhere(s, target@, ov, k)),
            lists_exactly(out.covered@, a as int, |k: int| is_target(s, target@, k) && covered_elsewhere(s, target@, ov, k)),
            out.missing@.len() + out.covered@.len() <= a,
            out.dirs == dirs_under(s, target@, a as int),
            out.empty_files == empty_files_under(s, target@, a as int),
            out.dirs <= a,
            out.empty_files <= a,
            out.missing_bytes == sizes_of(s, out.missing@),
            out.covered_bytes == sizes_of(s, out.covered@),
            out.missing_bytes <= out.missing@.len() * 0xffff_ffff_ffff_ffff,
            out.covered_bytes <= out.covered@.len() * 0xffff_ffff_ffff_ffff,
        decreases n - a,
    {
        let e = &file_db[a];
        let inside = path_starts_with(paths[a].as_slice(), target);
        let ghost m0 = out.missing@;
        let ghost c0 = out.covered@;
        if e.is_dir {
            if inside {
                out.dirs = out.dirs + 1;
            }
        } else if e.size == 0 {
            if inside {
                out.empty_files = out.empty_files + 1;
            }
        } else if inside {
            if cov[a] {
                assert(out.covered_bytes + e.size <= (out.covered@.len() + 1) * 0xffff_ffff_ffff_ffff) by (nonlinear_arith)
                    requires
                        out.covered_bytes <= out.covered@.len() * 0xffff_ffff_ffff_ffff,
                        e.size <= 0xffff_ffff_ffff_ffff,
                ;
                assert((out.covered@.len() + 1) * 0xffff_ffff_ffff_ffff <= 0x1_0000_0000 * 0xffff_ffff_ffff_ffff) by (nonlinear_arith)
                    requires
                        out.covered@.len() + 1 <= 0x1_0000_0000,
                ;
                out.covered.push(a as u32);
                out.covered_bytes = out.covered_bytes + e.size as u128;
                assert(out.covered@.drop_last() =~= c0);
            } else {
                assert(out.missing_bytes + e.size <= (out.missing@.len() + 1) * 0xffff_ffff_ffff_ffff) by (nonlinear_arith)
                    requires
                        out.missing_bytes <= out.missing@.len() * 0xffff_ffff_ffff_ffff,
                        e.size <= 0xffff_ffff_ffff_ffff,
                ;
                assert((out.missing@.len() + 1) * 0xffff_ffff_ffff_ffff <= 0x1_0000_0000 * 0xffff_ffff_ffff_ffff) by (nonlinear_arith)
                    requires
                        out.missing@.len() + 1 <= 0x1_0000_0000,
                ;
                out.missing.push(a as u32);
                out.missing_bytes = out.missing_bytes + e.size as u128;
                assert(out.missing@.drop_last() =~= m0);
            }
        }
        proof {
            let pm = |k: int| is_target(s, target@, k) && !covered_elsewhere(s, target@, ov, k);
            let pc = |k: int| is_target(s, target@, k) && covered_elsewhere(s, target@, ov, k);
            assert forall|x: int| 0 <= x < a + 1 && pm(x) implies #[trigger] out.missing@.contains(x as u32) by {
                if x < a {
                    assert(m0.contains(x as u32));
                    let w = choose|w: int| 0 <= w < m0.len() && m0[w] == x as u32;
                    assert(out.missing@[w] == x as u32);
                } else {
                    assert(out.missing@[out.missing@.len() - 1] == x as u32);
                }
            }
            assert forall|x: int| 0 <= x < a + 1 && pc(x) implies #[trigger] out.covered@.contains(x as u32) by {
                if x < a {
                    assert(c0.contains(x as u32));
                    let w = choose|w: int| 0 <= w < c0.len() && c0[w] == x as u32;
                    assert(out.covered@[w] == x as u32);
                } else {
                    assert(out.covered@[out.covered@.len() - 1] == x as u32);
                }
            }
        }
        a = a + 1;
    }
    out
}

/// The sort keys that rank groups by saved bytes, most first.
spec fn rank_keys(gs: Seq<DupGroup>) -> Seq<(Seq<u8>, u128)> {
    Seq::new(gs.len(), |k: int| (Seq::<u8>::empty(), (u128::MAX - saved_bytes(gs[k])) as u128))
}

/// Derives directory hashes (see `propagate_hashes`); fails with
/// `FileReadError` when a node other than the root is left with the empty
/// hash (its content unknown). Otherwise reports the duplicate groups: every class of two or more nodes (files or
/// directories) that share hash and size, each exactly once, members in
/// ascending address order, ranked by the bytes that collapsing them would
/// save (`saved_bytes`), most first.
pub fn dedup(file_db: &mut FileDb) -> (r: Result<Vec<DupGroup>, FileDbError>)
    requires
        wf(db_view(old(file_db)@)),
    ensures
        db_view(final(file_db)@) == propagated_hashes(db_view(old(file_db)@)),
        r is Ok <==> hashes_set(db_view(final(file_db)@)),
        r is Err ==> r == Err::<Vec<DupGroup>, FileDbError>(FileDbError::FileReadError),
        r is Ok ==> forall|k: int| 0 <= k < r->Ok_0@.len() ==> group_ok(db_view(final(file_db)@), #[trigger] r->Ok_0@[k]),
        r is Ok ==> forall|k: int, l: int|
            0 <= k < l < r->Ok_0@.len() ==> (#[trigger] r->Ok_0@[k]).hash@ != (#[trigger] r->Ok_0@[l]).hash@
                || r->Ok_0@[k].size != r->Ok_0@[l].size,
        r is Ok ==> forall|a: int|
            0 <= a < db_view(final(file_db)@).len() && has_twin(db_view(final(file_db)@), a) ==> exists|k: int|
                0 <= k < r->Ok_0@.len() && (#[trigger] r->Ok_0@[k]).members@.contains(a as u32),
        r is Ok ==> forall|k: int, l: int|
            0 <= k < l < r->Ok_0@.len() ==> saved_bytes(#[trigger] r->Ok_0@[k]) >= saved_bytes(#[trigger] r->Ok_0@[l]),
{
    propagate_hashes(file_db)?;
    let ghost s = db_view(file_db@);
    let groups = group_duplicates(file_db);
    let ghost gs = groups@;
    let mut keys: Vec<SortKey> = Vec::new();
    let mut i: usize = 0;
    while i < groups.len()
        invariant
            gs == groups@,
            i <= gs.len(),
            keys_view(keys@) == rank_keys(gs).take(i as int),
            forall|k: int| 0 <= k < gs.len() ==> (#[trigger] gs[k]).members@.len() >= 2,
        decreases gs.len() - i,
    {
        let g = &groups[i];
        assert(g.members@.len() >= 2);
        let dupes = (g.members.len() - 1) as u128;
        assert(g.size as u128 * dupes <= u64::MAX as u128 * usize::MAX as u128) by (nonlinear_arith)
            requires
                dupes <= usize::MAX,
        ;
        let saved = g.size as u128 * dupes;
        let key = SortKey { bytes: Vec::new(), num: u128::MAX - saved };
        let ghost old_keys = keys@;
        assert(key@ =~= rank_keys(gs)[i as int]);
        keys.push(key);
        assert(keys_view(keys@) =~= keys_view(old_keys).push(key@));
        i = i + 1;
        assert(keys_view(keys@) =~= rank_keys(gs).take(i as int));
    }
    assert(rank_keys(gs).take(i as int) =~= rank_keys(gs));
    let ghost rk = rank_keys(gs);
    let order = sort_positions(&keys);
    let mut out: Vec<DupGroup> = Vec::new();
    let mut i: usize = 0;
    while i < order.len()
        invariant
            gs == groups@,
            order@.len() == gs.len(),
            forall|k: int| 0 <= k < order@.len() ==> order@[k] < gs.len(),
            i <= order@.len(),
            out@.len() == i,
            forall|k: int|
                0 <= k < i ==> (#[trigger] out@[k]).size == gs[order@[k] as int].size && out@[k].hash@
                    == gs[order@[k] as int].hash@ && out@[k].members@ == gs[order@[k] as int].members@,
        decreases order@.len() - i,
    {
        let g = copy_group(&groups[order[i]]);
        out.push(g);
        i = i + 1;
    }
    proof {
        let o = order@;
        assert forall|k: int| 0 <= k < out@.len() implies group_ok(s, #[trigger] out@[k]) by {
            assert(group_ok(s, gs[o[k] as int]));
        }
        assert forall|k: int, l: int| 0 <= k < l < out@.len() implies (#[trigger] out@[k]).hash@ != (
        #[trigger] out@[l]).hash@ || out@[k].size != out@[l].size by {
            assert(o[k] != o[l]);
            if o[k] < o[l] {
                assert(gs[o[k] as int].hash@ != gs[o[l] as int].hash@ || gs[o[k] as int].size != gs[o[l] as int].size);
            } else {
                assert(gs[o[l] as int].hash@ != gs[o[k] as int].hash@ || gs[o[l] as int].size != gs[o[k] as int].size);
            }
        }
        assert forall|a: int| 0 <= a < s.len() && has_twin(s, a) implies exists|k: int|
            0 <= k < out@.len() && (#[trigger] out@[k]).members@.contains(a as u32) by {
            let g = choose|g: int| 0 <= g < gs.len() && (#[trigger] gs[g]).members@.contains(a as u32);
            assert(o.contains(g as usize));
            let k = choose|k: int| 0 <= k < o.len() && o[k] == g as usize;
            assert(out@[k].members@ == gs[g].members@);
        }
        assert forall|k: int, l: int| 0 <= k < l < out@.len() implies saved_bytes(#[trigger] out@[k])
            >= saved_bytes(#[trigger] out@[l]) by {
            assert(key_order(rk)(o[k], o[l]));
            lemma_lex_irrefl(Seq::<u8>::empty());
            assert(rk[o[k] as int].0 =~= Seq::<u8>::empty());
            assert(rk[o[l] as int].0 =~= Seq::<u8>::empty());
            assert(saved_bytes(out@[k]) == saved_bytes(gs[o[k] as int]));
            assert(saved_bytes(out@[l]) == saved_bytes(gs[o[l] as int]));
            vstd::std_specs::vec::axiom_spec_len(&gs[o[k] as int].members);
            vstd::std_specs::vec::axiom_spec_len(&gs[o[l] as int].members);
            assert(0 <= saved_bytes(gs[o[k] as int]) <= u128::MAX) by (nonlinear_arith)
                requires
                    gs[o[k] as int].members@.len() >= 2,
                    gs[o[k] as int].members@.len() <= usize::MAX,
            ;
            assert(0 <= saved_bytes(gs[o[l] as int]) <= u128::MAX) by (nonlinear_arith)
                requires
                    gs[o[l] as int].members@.len() >= 2,
                    gs[o[l] as int].members@.len() <= usize::MAX,
            ;
        }
    }
    let ghost og = out@;
    let ghost fs = db_view(file_db@);
    let result: Result<Vec<DupGroup>, FileDbError> = Ok(out);
    proof {
        assert forall|a: int| 0 <= a < fs.len() && has_twin(fs, a) implies exists|k: int|
            0 <= k < result->Ok_0@.len() && (#[trigger] result->Ok_0@[k]).members@.contains(a as u32) by {
            let k = choose|k: int| 0 <= k < og.len() && (#[trigger] og[k]).members@.contains(a as u32);
            assert(result->Ok_0@[k] == og[k]);
        }
    }
    result
}

} // verus!
