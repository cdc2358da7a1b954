//! Rebuilding a store without the entries that the filesystem no longer
//! matches.
use vstd::prelude::*;

use crate::store::{copy_entry, db_view, lemma_db_view_push, names_unique, wf, EntryView, FileDb, FileDbError, SENTINEL};

verus! {

/// What the filesystem reports for a node's full path, when it exists
/// (read without following a final symbolic link).
#[derive(PartialEq, Eq, Structural, Debug, Clone, Copy)]
pub struct FsMeta {
    pub is_dir: bool,
    pub size: u64,
    pub modified: u64,
}

/// Whether the filesystem contradicts a node: its type changed, or a file's
/// size or modification time changed.
pub open spec fn changed(e: EntryView, m: FsMeta) -> bool {
    m.is_dir != e.is_dir || (!m.is_dir && (m.size != e.size || m.modified != e.modified))
}

/// The rebuild over the first `n` nodes: the new store and, for each old
/// address, its new address when the node was kept. A node is dropped when
/// its path no longer exists, when it changed, or when its parent was
/// dropped; a directory that became something else stops the rebuild with
/// `NotImplemented`.
pub open spec fn prune_upto(s: Seq<EntryView>, obs: Seq<Option<FsMeta>>, n: int) -> Result<
    (Seq<EntryView>, Seq<Option<u32>>),
    FileDbError,
>
    decreases n,
{
    if n <= 0 {
        Ok((Seq::empty(), Seq::empty()))
    } else {
        match prune_upto(s, obs, n - 1) {
            Err(e) => Err(e),
            Ok((t, remap)) => {
                let i = n - 1;
                let e = s[i];
                match obs[i] {
                    None => Ok((t, remap.push(None))),
                    Some(m) => if changed(e, m) {
                        if e.is_dir {
                            Err(FileDbError::NotImplemented)
                        } else {
                            Ok((t, remap.push(None)))
                        }
                    } else if i == 0 {
                        Ok((t.push(e), remap.push(Some(t.len() as u32))))
                    } else {
                        match remap[e.parent as int] {
                            None => Ok((t, remap.push(None))),
                            Some(np) => Ok(
                                (t.push(EntryView { parent: np, ..e }), remap.push(Some(t.len() as u32))),
                            ),
                        }
                    },
                }
            },
        }
    }
}

/// How the nodes of a rebuilt store `t` came from `s`: `orig[q]` is the old
/// address of new node `q`, and `remap` sends each kept old address back.
pub open spec fn kept_from(s: Seq<EntryView>, t: Seq<EntryView>, orig: Seq<int>, remap: Seq<Option<u32>>) -> bool {
    &&& orig.len() == t.len()
    &&& forall|k: int| 0 <= k < remap.len() && (#[trigger] remap[k]) is Some ==> remap[k]->Some_0 < t.len() && orig[remap[k]->Some_0 as int] == k
    &&& forall|q: int|
        0 <= q < t.len() ==> 0 <= #[trigger] orig[q] < remap.len() && remap[orig[q]] == Some(q as u32) && t[q].name
            == s[orig[q]].name && (orig[q] == 0 ==> q == 0) && (q > 0 ==> remap[s[orig[q]].parent as int] == Some(
            t[q].parent,
        ))
}

#[verifier::rlimit(40)]
proof fn lemma_kept_pair(s: Seq<EntryView>, t: Seq<EntryView>, orig: Seq<int>, remap: Seq<Option<u32>>, q1: int, q2: int)
    requires
        names_unique(s),
        forall|i: int| 1 <= i < s.len() ==> (#[trigger] s[i]).parent < i,
        kept_from(s, t, orig, remap),
        remap.len() <= s.len(),
        t[0].parent == SENTINEL,
        t.len() <= 0xffff_ffff,
        1 <= q2 < t.len(),
        t[q2].parent < q2,
        0 <= q1 < q2,
    ensures
        !(t[q1].parent == t[q2].parent && t[q1].name == t[q2].name),
{
    if t[q1].parent == t[q2].parent && t[q1].name == t[q2].name {
        if q1 > 0 {
            let (o1, o2) = (orig[q1], orig[q2]);
            assert(remap[o1] == Some(q1 as u32));
            assert(remap[o2] == Some(q2 as u32));
            assert(q1 as u32 != q2 as u32);
            assert(o1 != o2);
            assert(o1 > 0 && o2 > 0);
            let (p1, p2) = (s[o1].parent as int, s[o2].parent as int);
            assert(s[o1].parent < o1 && s[o2].parent < o2);
            assert(remap[p1] == Some(t[q1].parent));
            assert(remap[p2] == Some(t[q2].parent));
            assert(remap[p1] is Some);
            assert(orig[t[q1].parent as int] == p1);
            assert(remap[p2] is Some);
            assert(orig[t[q2].parent as int] == p2);
            if o1 < o2 {
                assert(!(s[o1].parent == s[o2].parent && s[o1].name == s[o2].name));
            } else {
                assert(!(s[o2].parent == s[o1].parent && s[o2].name == s[o1].name));
            }
        }
    }
}

/// A rebuilt store keeps sibling names distinct.
proof fn lemma_kept_names(s: Seq<EntryView>, t: Seq<EntryView>, orig: Seq<int>, remap: Seq<Option<u32>>)
    requires
        wf(s),
        kept_from(s, t, orig, remap),
        remap.len() <= s.len(),
        t.len() <= 0xffff_ffff,
        t.len() > 0 ==> t[0].parent == SENTINEL,
        forall|q: int| 1 <= q < t.len() ==> (#[trigger] t[q]).parent < q,
    ensures
        names_unique(t),
{
    assert forall|q1: int, q2: int| 0 <= q1 < q2 < t.len() implies !(#[trigger] t[q1].parent == #[trigger] t[q2].parent
        && t[q1].name == t[q2].name) by {
        assert(t[q2].parent < q2);
        lemma_kept_pair(s, t, orig, remap, q1, q2);
    }
}

/// The store that pruning `s` against `obs` leaves.
pub open spec fn pruned(s: Seq<EntryView>, obs: Seq<Option<FsMeta>>) -> Result<Seq<EntryView>, FileDbError> {
    match prune_upto(s, obs, s.len() as int) {
        Ok((t, _)) => Ok(t),
        Err(e) => Err(e),
    }
}

/// Drops the entries that `observed` contradicts (see `prune_upto`);
/// `observed[i]` is what the filesystem reports for the full path of node
/// `i`. Survivors keep their order and fields, their parents remapped to
/// the new addresses. On error the store is unchanged.
pub fn prune_deleted_paths(file_db: &mut FileDb, observed: &Vec<Option<FsMeta>>) -> (r: Result<(), FileDbError>)
    requires
        wf(db_view(old(file_db)@)),
        observed@.len() == old(file_db)@.len(),
    ensures
        match pruned(db_view(old(file_db)@), observed@) {
            Ok(t) => r is Ok && db_view(final(file_db)@) == t,
            Err(e) => r == Err::<(), FileDbError>(e) && final(file_db)@ == old(file_db)@,
        },
        db_view(final(file_db)@).len() == 0 || wf(db_view(final(file_db)@)),
{
    let ghost s = db_view(file_db@);
    let n = file_db.len();
    let mut new_db: FileDb = Vec::new();
    let mut remap: Vec<Option<u32>> = Vec::new();
    let mut i: usize = 0;
    assert(db_view(new_db@) =~= Seq::<EntryView>::empty());
    assert(remap@ =~= Seq::<Option<u32>>::empty());
    let ghost mut orig: Seq<int> = Seq::empty();
    while i < n
        invariant
            s == db_view(file_db@),
            file_db@ == old(file_db)@,
            wf(s),
            n == s.len(),
            observed@.len() == n,
            i <= n,
            prune_upto(s, observed@, i as int) == Ok::<(Seq<EntryView>, Seq<Option<u32>>), FileDbError>(
                (db_view(new_db@), remap@),
            ),
            remap@.len() == i,
            new_db@.len() <= i,
            db_view(new_db@).len() == 0 || wf(db_view(new_db@)),
            forall|k: int|
                0 <= k < i ==> match #[trigger] remap@[k] {
                    Some(x) => x < new_db@.len() && db_view(new_db@)[x as int].is_dir == s[k].is_dir,
                    None => true,
                },
            kept_from(s, db_view(new_db@), orig, remap@),
        decreases n - i,
    {
        let ghost t = db_view(new_db@);
        let ghost remap0 = remap@;
        let e = &file_db[i];
        let keep: Option<u32> = match observed[i] {
            None => None,
            Some(m) => {
                if m.is_dir != e.is_dir || (!m.is_dir && (m.size != e.size || m.modified != e.modified)) {
                    if e.is_dir {
                        proof {
                            lemma_prune_err_sticks(s, observed@, i + 1, n as int);
                        }
                        return Err(FileDbError::NotImplemented);
                    }
                    None
                } else if i == 0 {
                    Some(SENTINEL)
                } else {
                    assert(s[i as int].parent < i);
                    remap[e.parent as usize]
                }
            },
        };
        match keep {
            None => {
                remap.push(None);
                proof {
                    assert forall|k: int| 0 <= k < remap@.len() && (#[trigger] remap@[k]) is Some implies remap@[k]->Some_0 < t.len()
                        && orig[remap@[k]->Some_0 as int] == k by {
                        assert(remap@[k] == remap0[k]);
                    }
                    assert forall|q: int| 0 <= q < t.len() implies 0 <= #[trigger] orig[q] < remap@.len() && remap@[orig[q]]
                        == Some(q as u32) && t[q].name == s[orig[q]].name && (orig[q] == 0 ==> q == 0) && (q > 0
                        ==> remap@[s[orig[q]].parent as int] == Some(t[q].parent)) by {
                        assert(remap@[orig[q]] == remap0[orig[q]]);
                        if q > 0 {
                            assert(s[orig[q]].parent < orig[q]);
                            assert(remap@[s[orig[q]].parent as int] == remap0[s[orig[q]].parent as int]);
                        }
                    }
                }
            },
            Some(np) => {
                let mut c = copy_entry(e);
                c.parent = np;
                let ghost cv = c@;
                let a = new_db.len() as u32;
                let ghost old_new = new_db@;
                new_db.push(c);
                remap.push(Some(a));
                proof {
                    lemma_db_view_push(old_new, c);
                    let t2 = db_view(new_db@);
                    let orig2 = orig.push(i as int);
                    assert forall|k: int| 0 <= k < remap@.len() && (#[trigger] remap@[k]) is Some implies remap@[k]->Some_0 < t2.len()
                        && orig2[remap@[k]->Some_0 as int] == k by {
                        if k < i {
                            assert(remap@[k] == remap0[k]);
                        }
                    }
                    assert forall|q: int| 0 <= q < t2.len() implies 0 <= #[trigger] orig2[q] < remap@.len() && remap@[orig2[q]]
                        == Some(q as u32) && t2[q].name == s[orig2[q]].name && (orig2[q] == 0 ==> q == 0) && (q > 0
                        ==> remap@[s[orig2[q]].parent as int] == Some(t2[q].parent)) by {
                        if q < t.len() {
                            assert(t2[q] == t[q]);
                            assert(remap@[orig2[q]] == remap0[orig2[q]]);
                            if q > 0 {
                                assert(s[orig[q]].parent < orig[q]);
                                assert(remap@[s[orig2[q]].parent as int] == remap0[s[orig[q]].parent as int]);
                            }
                        } else if q > 0 {
                            assert(i > 0);
                            assert(s[i as int].parent < i);
                            assert(remap@[s[i as int].parent as int] == remap0[s[i as int].parent as int]);
                        }
                    }
                    assert(kept_from(s, t2, orig2, remap@));
                    orig = orig2;
                    if i == 0 {
                        assert(cv == s[0]);
                        assert(t.len() == 0);
                    } else {
                        assert(t.len() > 0);
                        assert(cv == EntryView { parent: np, ..s[i as int] });
                        assert(s[s[i as int].parent as int].is_dir);
                    }
                    assert forall|j: int| 1 <= j < t2.len() implies #[trigger] t2[j].parent < j && t2[t2[j].parent as int].is_dir by {
                        if j < t.len() {
                            assert(t2[j] == t[j]);
                            assert(t2[t[j].parent as int] == t[t[j].parent as int]);
                        } else {
                            assert(t2[np as int] == t[np as int]);
                        }
                    }
                    if i == 0 {
                        assert(t2[0] == cv);
                    } else {
                        assert(t2[0] == t[0]);
                    }
                    lemma_kept_names(s, t2, orig, remap@);
                }
            },
        }
        proof {
            assert forall|k: int| 0 <= k < i + 1 implies match #[trigger] remap@[k] {
                Some(x) => x < new_db@.len() && db_view(new_db@)[x as int].is_dir == s[k].is_dir,
                None => true,
            } by {
                if k < i {
                    match remap@[k] {
                        Some(x) => {
                            assert(db_view(new_db@)[x as int] == t[x as int] || x as int == t.len());
                        },
                        None => {},
                    }
                }
            }
        }
        i = i + 1;
    }
    std::mem::swap(file_db, &mut new_db);
    Ok(())
}

proof fn lemma_prune_err_sticks(s: Seq<EntryView>, obs: Seq<Option<FsMeta>>, n: int, m: int)
    requires
        0 < n <= m,
        prune_upto(s, obs, n) is Err,
    ensures
        prune_upto(s, obs, m) == prune_upto(s, obs, n),
    decreases m - n,
{
    if n < m {
        lemma_prune_err_sticks(s, obs, n, m - 1);
    }
}

/// Pruning against a filesystem that matches every entry keeps the store
/// as it is: the same paths, sizes and hashes, at the same addresses.
pub proof fn lemma_prune_unchanged(s: Seq<EntryView>, obs: Seq<Option<FsMeta>>)
    requires
        wf(s),
        obs.len() == s.len(),
        forall|i: int| 0 <= i < s.len() ==> (#[trigger] obs[i] is Some) && !changed(s[i], obs[i]->Some_0),
    ensures
        pruned(s, obs) == Ok::<Seq<EntryView>, FileDbError>(s),
{
    lemma_prune_identity(s, obs, s.len() as int);
    assert(s.take(s.len() as int) =~= s);
}

proof fn lemma_prune_identity(s: Seq<EntryView>, obs: Seq<Option<FsMeta>>, n: int)
    requires
        wf(s),
        obs.len() == s.len(),
        0 <= n <= s.len(),
        forall|i: int| 0 <= i < s.len() ==> (#[trigger] obs[i] is Some) && !changed(s[i], obs[i]->Some_0),
    ensures
        prune_upto(s, obs, n) == Ok::<(Seq<EntryView>, Seq<Option<u32>>), FileDbError>(
            (s.take(n), Seq::new(n as nat, |k: int| Some(k as u32))),
        ),
    decreases n,
{
    if n > 0 {
        lemma_prune_identity(s, obs, n - 1);
        let i = n - 1;
        assert(obs[i] is Some);
        assert(s.take(n) =~= s.take(n - 1).push(s[i]));
        assert(Seq::new(n as nat, |k: int| Some(k as u32)) =~= Seq::new((n - 1) as nat, |k: int| Some(k as u32)).push(Some(i as u32)));
        if i > 0 {
            assert(s[i].parent < i);
            assert(Seq::new((n - 1) as nat, |k: int| Some(k as u32))[s[i].parent as int] == Some(s[i].parent));
            assert(EntryView { parent: s[i].parent, ..s[i] } == s[i]);
        }
    } else {
        assert(s.take(0) =~= Seq::<EntryView>::empty());
        assert(Seq::new(0, |k: int| Some(k as u32)) =~= Seq::<Option<u32>>::empty());
    }
}

} // verus!

verus! {

proof fn lemma_prune_root_kept(s: Seq<EntryView>, obs: Seq<Option<FsMeta>>, n: int)
    requires
        1 <= n <= s.len(),
        obs.len() == s.len(),
        obs[0] is Some,
        !changed(s[0], obs[0]->Some_0),
    ensures
        prune_upto(s, obs, n) is Ok ==> prune_upto(s, obs, n)->Ok_0.0.len() >= 1,
    decreases n,
{
    if n > 1 {
        lemma_prune_root_kept(s, obs, n - 1);
    } else {
        assert(prune_upto(s, obs, 0) == Ok::<(Seq<EntryView>, Seq<Option<u32>>), FileDbError>(
            (Seq::empty(), Seq::empty()),
        ));
    }
}

/// The pruner keeps the root when the filesystem still matches it: the
/// rebuilt store is then non-empty, so (by `prune_deleted_paths`) it has
/// the forest invariants, root and sentinel included.
pub proof fn lemma_prune_keeps_root(s: Seq<EntryView>, obs: Seq<Option<FsMeta>>)
    requires
        wf(s),
        obs.len() == s.len(),
        obs[0] is Some,
        !changed(s[0], obs[0]->Some_0),
    ensures
        pruned(s, obs) is Ok ==> pruned(s, obs)->Ok_0.len() >= 1,
{
    lemma_prune_root_kept(s, obs, s.len() as int);
}

} // verus!
