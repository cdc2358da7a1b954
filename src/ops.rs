//! Catalog-level operations: moving a directory, and re-scanning a root.
use vstd::prelude::*;

use crate::crawl::{child_named, crawl, crawl_into, walk_view, WalkEntry};
use crate::path::{ancestors, bytes_eq, root_ancestors, strip_trailing, strip_trailing_slashes};
use crate::propagate::{propagate_sizes, propagated_sizes, sizes_fit, subtree_size};
use crate::prune::{prune_deleted_paths, pruned, FsMeta};
use crate::store::{all_full_paths, names_unique, copy_entry, db_view, lemma_db_view_push, path_of, wf, EntryView, FileDb, FileDbError, SENTINEL};

verus! {

/// Whether node `a` is `x` or lies beneath it.
pub open spec fn in_subtree(s: Seq<EntryView>, a: int, x: int) -> bool
    decreases a,
{
    if a == x {
        true
    } else if a <= 0 || a >= s.len() || s[a].parent as int >= a {
        false
    } else {
        in_subtree(s, s[a].parent as int, x)
    }
}

/// How many of the nodes below `a` are (`sub`) or are not in the subtree of `x`.
pub open spec fn count_below(s: Seq<EntryView>, x: int, a: int, sub: bool) -> nat
    decreases a,
{
    if a <= 0 {
        0
    } else {
        count_below(s, x, a - 1, sub) + if in_subtree(s, a - 1, x) == sub {
            1nat
        } else {
            0nat
        }
    }
}

/// The address of node `a` after moving the subtree of `x`: the nodes
/// outside it keep their order at the front, the subtree follows in its
/// own order.
pub open spec fn new_addr(s: Seq<EntryView>, x: int, a: int) -> nat {
    if in_subtree(s, a, x) {
        count_below(s, x, s.len() as int, false) + count_below(s, x, a, true)
    } else {
        count_below(s, x, a, false)
    }
}

/// Node `a` after moving `x` under `y`: the same node, its parent renumbered
/// (`y`, for `x` itself).
pub open spec fn moved_entry(s: Seq<EntryView>, x: int, y: int, a: int) -> EntryView {
    EntryView {
        parent: if a == 0 {
            SENTINEL
        } else if a == x {
            new_addr(s, x, y) as u32
        } else {
            new_addr(s, x, s[a].parent as int) as u32
        },
        ..s[a]
    }
}

/// The store after moving the subtree of `x` (all of it placed after every
/// other node) with `x` under `y`: the node at each new address is the one
/// that `new_addr` sends there.
pub open spec fn rebuilt(s: Seq<EntryView>, x: int, y: int) -> Seq<EntryView> {
    Seq::new(
        s.len(),
        |i: int| moved_entry(s, x, y, choose|a: int| 0 <= a < s.len() && new_addr(s, x, a) == i),
    )
}

/// The store after moving directory `x` under `y`, before sizes are
/// propagated. When `y` comes before `x`, `x`'s parent is set in place and
/// every address is kept. Otherwise `x` cannot simply point forward (a
/// parent must precede its child), so the store is rebuilt (see `rebuilt`).
pub open spec fn moved(s: Seq<EntryView>, x: int, y: int) -> Seq<EntryView> {
    if y < x {
        s.update(x, EntryView { parent: y as u32, ..s[x] })
    } else {
        rebuilt(s, x, y)
    }
}

/// The last directory whose full path is `p`, if any.
pub open spec fn dir_at(s: Seq<EntryView>, p: Seq<u8>, n: int) -> Option<int>
    decreases n,
{
    if n <= 0 {
        None
    } else if s[n - 1].is_dir && path_of(s, n - 1) == p {
        Some(n - 1)
    } else {
        dir_at(s, p, n - 1)
    }
}

proof fn lemma_count_mono(s: Seq<EntryView>, x: int, a: int, b: int, sub: bool)
    requires
        0 <= a <= b,
    ensures
        count_below(s, x, a, sub) <= count_below(s, x, b, sub),
        a < b && in_subtree(s, a, x) == sub ==> count_below(s, x, a, sub) < count_below(s, x, b, sub),
    decreases b - a,
{
    if a < b {
        lemma_count_mono(s, x, a, b - 1, sub);
    }
}

proof fn lemma_count_total(s: Seq<EntryView>, x: int, a: int)
    requires
        0 <= a,
    ensures
        count_below(s, x, a, true) + count_below(s, x, a, false) == a,
    decreases a,
{
    if a > 0 {
        lemma_count_total(s, x, a - 1);
    }
}

/// Parent and child share subtree membership, except at `x` itself.
proof fn lemma_subtree_parent(s: Seq<EntryView>, a: int, x: int)
    requires
        wf(s),
        0 < a < s.len(),
        a != x,
    ensures
        in_subtree(s, a, x) == in_subtree(s, s[a].parent as int, x),
{
    assert(s[a].parent < a);
}

proof fn lemma_subtree_root(s: Seq<EntryView>, x: int)
    requires
        x != 0,
    ensures
        !in_subtree(s, 0, x),
{
}

/// Moves the catalogued directory `from` under the catalogued directory
/// `to`, then propagates sizes. When `to` has the lower address, `from`'s
/// parent is set in place and every address is kept; otherwise the forest
/// order (a parent before its child) forces a rebuild that places `from`'s
/// subtree after all other nodes (see `moved`). `NotCatalogued` when either
/// path is not a catalogued directory; `InvalidMove` when `from` is the
/// root, `to` lies in `from`'s subtree, or `to` already has a child of
/// `from`'s name (the store is kept then);
/// `UnsupportedScale` when an aggregate size would not fit 64 bits (the
/// store is then moved but its sizes not propagated).
#[verifier::rlimit(80)]
pub fn mv(file_db: &mut FileDb, from_dir: &[u8], to_dir: &[u8]) -> (r: Result<(), FileDbError>)
    requires
        wf(db_view(old(file_db)@)),
    ensures
        ({
            let s = db_view(old(file_db)@);
            match (dir_at(s, from_dir@, s.len() as int), dir_at(s, to_dir@, s.len() as int)) {
                (Some(x), Some(y)) => if x == 0 || in_subtree(s, y, x) || child_named(s, y, s[x].name) {
                    r == Err::<(), FileDbError>(FileDbError::InvalidMove) && final(file_db)@ == old(file_db)@
                } else {
                    let m = moved(s, x, y);
                    &&& wf(m)
                    &&& y > x ==> forall|a: int| 0 <= a < s.len() ==> m[#[trigger] new_addr(s, x, a) as int] == moved_entry(s, x, y, a)
                    &&& if subtree_size(m, 0) < u64::MAX {
                        r is Ok && db_view(final(file_db)@) == propagated_sizes(m)
                    } else {
                        r == Err::<(), FileDbError>(FileDbError::UnsupportedScale) && db_view(final(file_db)@) == m
                    }
                },
                _ => r == Err::<(), FileDbError>(FileDbError::NotCatalogued) && final(file_db)@ == old(file_db)@,
            }
        }),
{
    let ghost s = db_view(file_db@);
    let n = file_db.len();
    let paths = all_full_paths(file_db);
    let mut from_index: Option<usize> = None;
    let mut to_index: Option<usize> = None;
    let mut i: usize = 0;
    while i < n
        invariant
            s == db_view(file_db@),
            n == s.len(),
            i <= n,
            paths@.len() == n,
            forall|k: int| 0 <= k < n ==> (#[trigger] paths@[k])@ == path_of(s, k),
            match from_index { Some(x) => dir_at(s, from_dir@, i as int) == Some(x as int), None => dir_at(s, from_dir@, i as int) is None },
            match to_index { Some(y) => dir_at(s, to_dir@, i as int) == Some(y as int), None => dir_at(s, to_dir@, i as int) is None },
        decreases n - i,
    {
        if file_db[i].is_dir {
            if bytes_eq(paths[i].as_slice(), from_dir) {
                from_index = Some(i);
            }
            if bytes_eq(paths[i].as_slice(), to_dir) {
                to_index = Some(i);
            }
        }
        i = i + 1;
    }
    let (x, y) = match (from_index, to_index) {
        (Some(x), Some(y)) => (x, y),
        _ => return Err(FileDbError::NotCatalogued),
    };
    proof {
        lemma_dir_at_range(s, from_dir@, n as int);
        lemma_dir_at_range(s, to_dir@, n as int);
    }
    if x == 0 {
        return Err(FileDbError::InvalidMove);
    }
    // Subtree membership, by address.
    let mut sub: Vec<bool> = Vec::new();
    let mut a: usize = 0;
    while a < n
        invariant
            s == db_view(file_db@),
            wf(s),
            n == s.len(),
            0 < x < n,
            a <= n,
            sub@.len() == a,
            forall|k: int| 0 <= k < a ==> sub@[k] == in_subtree(s, k, x as int),
        decreases n - a,
    {
        let v = if a == x {
            true
        } else if a == 0 {
            false
        } else {
            proof {
                lemma_subtree_parent(s, a as int, x as int);
            }
            sub[file_db[a].parent as usize]
        };
        sub.push(v);
        a = a + 1;
    }
    if sub[y] {
        return Err(FileDbError::InvalidMove);
    }
    // A sibling of the new place with the moved directory's name.
    let mut c: usize = 1;
    while c < n
        invariant
            s == db_view(file_db@),
            file_db@ == old(file_db)@,
            s == db_view(old(file_db)@),
            n == s.len(),
            1 <= c <= n,
            0 < x < n,
            dir_at(s, from_dir@, n as int) == Some(x as int),
            dir_at(s, to_dir@, n as int) == Some(y as int),
            !in_subtree(s, y as int, x as int),
            forall|k: int| 0 < k < c ==> !((#[trigger] s[k]).parent as int == y as int && s[k].name == s[x as int].name),
        decreases n - c,
    {
        if file_db[c].parent as usize == y && bytes_eq(file_db[c].name.as_slice(), file_db[x].name.as_slice()) {
            proof {
                assert(s[c as int] == file_db@[c as int]@);
                assert(s[x as int] == file_db@[x as int]@);
                assert(s[c as int].parent as int == y as int && s[c as int].name == s[x as int].name);
                assert(child_named(s, y as int, s[x as int].name));
            }
            return Err(FileDbError::InvalidMove);
        }
        proof {
            assert(s[c as int] == file_db@[c as int]@);
            assert(s[x as int] == file_db@[x as int]@);
        }
        c = c + 1;
    }
    if y < x {
        let ghost before = file_db@;
        file_db[x].parent = y as u32;
        proof {
            let t = db_view(file_db@);
            assert(t =~= s.update(x as int, EntryView { parent: y as u32, ..s[x as int] })) by {
                assert forall|k: int| 0 <= k < n && k != x implies file_db@[k] == before[k] by {}
            }
            assert forall|i: int| 1 <= i < t.len() implies #[trigger] t[i].parent < i && t[t[i].parent as int].is_dir by {
                assert(s[i].parent < i);
            }
            assert forall|i: int, j: int| 0 <= i < j < t.len() implies !(#[trigger] t[i].parent == #[trigger] t[j].parent
                && t[i].name == t[j].name) by {
                if i != x && j != x {
                    assert(!(s[i].parent == s[j].parent && s[i].name == s[j].name));
                } else if t[i].parent == t[j].parent && t[i].name == t[j].name {
                    let k = if i == x { j } else { i };
                    if k == 0 {
                        assert(s[0].parent == SENTINEL);
                    } else {
                        assert(0 < k < n && s[k].parent as int == y as int && s[k].name == s[x as int].name);
                    }
                }
            }
        }
    } else {
        rebuild_moved(file_db, x, y, &sub);
        proof {
            lemma_rebuilt_at(s, x as int, y as int);
        }
    }
    if !sizes_fit(file_db) {
        return Err(FileDbError::UnsupportedScale);
    }
    propagate_sizes(file_db);
    Ok(())
}

/// Two distinct nodes keep distinct (parent, name) pairs through a move
/// that lands on no same-named sibling.
proof fn lemma_moved_pair(s: Seq<EntryView>, x: int, y: int, a: int, b: int)
    requires
        wf(s),
        0 < x < s.len(),
        0 <= y < s.len(),
        !in_subtree(s, y, x),
        !child_named(s, y, s[x].name),
        0 <= a < s.len(),
        0 <= b < s.len(),
        a != b,
    ensures
        !(moved_entry(s, x, y, a).parent == moved_entry(s, x, y, b).parent && moved_entry(s, x, y, a).name
            == moved_entry(s, x, y, b).name),
{
    let (ea, eb) = (moved_entry(s, x, y, a), moved_entry(s, x, y, b));
    if ea.parent == eb.parent && ea.name == eb.name {
        lemma_count_total(s, x, s.len() as int);
        let pa = if a == x { y } else { s[a].parent as int };
        let pb = if b == x { y } else { s[b].parent as int };
        if a == 0 || b == 0 {
            let o = if a == 0 { b } else { a };
            assert(o != 0);
            if o != x {
                assert(s[o].parent < o);
            }
            lemma_new_addr_range(s, x, if o == x { y } else { s[o].parent as int });
        } else {
            if a != x {
                assert(s[a].parent < a);
            }
            if b != x {
                assert(s[b].parent < b);
            }
            lemma_new_addr_range(s, x, pa);
            lemma_new_addr_range(s, x, pb);
            assert((new_addr(s, x, pa) as u32) as int == new_addr(s, x, pa));
            assert((new_addr(s, x, pb) as u32) as int == new_addr(s, x, pb));
            lemma_new_addr_injective(s, x, pa, pb);
            if a == x {
                assert(0 < b < s.len() && s[b].parent as int == y && s[b].name == s[x].name);
            } else if b == x {
                assert(0 < a < s.len() && s[a].parent as int == y && s[a].name == s[x].name);
            } else if a < b {
                assert(!(s[a].parent == s[b].parent && s[a].name == s[b].name));
            } else {
                assert(!(s[b].parent == s[a].parent && s[b].name == s[a].name));
            }
        }
    }
}

proof fn lemma_rebuilt_names(s: Seq<EntryView>, x: int, y: int, t: Seq<EntryView>, origin: Seq<int>)
    requires
        wf(s),
        0 < x < s.len(),
        0 <= y < s.len(),
        !in_subtree(s, y, x),
        !child_named(s, y, s[x].name),
        origin.len() == t.len(),
        forall|i: int| 0 <= i < t.len() ==> 0 <= #[trigger] origin[i] < s.len() && t[i] == moved_entry(s, x, y, origin[i])
            && new_addr(s, x, origin[i]) == i,
    ensures
        names_unique(t),
{
    assert forall|i: int, j: int| 0 <= i < j < t.len() implies !(#[trigger] t[i].parent == #[trigger] t[j].parent
        && t[i].name == t[j].name) by {
        assert(origin[i] != origin[j]);
        lemma_moved_pair(s, x, y, origin[i], origin[j]);
    }
}

proof fn lemma_rebuilt_at(s: Seq<EntryView>, x: int, y: int)
    ensures
        forall|a: int| 0 <= a < s.len() ==> rebuilt(s, x, y)[#[trigger] new_addr(s, x, a) as int] == moved_entry(s, x, y, a),
{
    assert forall|a: int| 0 <= a < s.len() implies rebuilt(s, x, y)[#[trigger] new_addr(s, x, a) as int] == moved_entry(s, x, y, a) by {
        lemma_new_addr_range(s, x, a);
        let i = new_addr(s, x, a) as int;
        let c = choose|c: int| 0 <= c < s.len() && new_addr(s, x, c) == i;
        lemma_new_addr_injective(s, x, a, c);
    }
}

/// Rebuilds the store with the subtree of `x` after every other node and
/// `x` under `y` (see `rebuilt`).
#[verifier::rlimit(80)]
fn rebuild_moved(file_db: &mut FileDb, x: usize, y: usize, sub: &Vec<bool>)
    requires
        wf(db_view(old(file_db)@)),
        0 < x < old(file_db)@.len(),
        y < old(file_db)@.len(),
        !in_subtree(db_view(old(file_db)@), y as int, x as int),
        db_view(old(file_db)@)[y as int].is_dir,
        !child_named(db_view(old(file_db)@), y as int, db_view(old(file_db)@)[x as int].name),
        sub@.len() == old(file_db)@.len(),
        forall|k: int| 0 <= k < sub@.len() ==> sub@[k] == in_subtree(db_view(old(file_db)@), k, x as int),
    ensures
        db_view(final(file_db)@) == rebuilt(db_view(old(file_db)@), x as int, y as int),
        wf(db_view(final(file_db)@)),
{
    let ghost s = db_view(file_db@);
    let n = file_db.len();
    // New addresses.
    let mut addr: Vec<u32> = Vec::new();
    let mut outside: u32 = 0;
    let mut a: usize = 0;
    while a < n
        invariant
            n == s.len(),
            n <= 0xffff_fffe,
            a <= n,
            sub@.len() == n,
            forall|k: int| 0 <= k < n ==> sub@[k] == in_subtree(s, k, x as int),
            outside == count_below(s, x as int, a as int, false),
            outside <= a,
            addr@.len() == a,
            forall|k: int| 0 <= k < a && !sub@[k] ==> addr@[k] == new_addr(s, x as int, k),
        decreases n - a,
    {
        if sub[a] {
            addr.push(0);
        } else {
            addr.push(outside);
            outside = outside + 1;
        }
        a = a + 1;
    }
    let mut inside: u32 = 0;
    let mut a: usize = 0;
    proof {
        lemma_count_total(s, x as int, n as int);
    }
    while a < n
        invariant
            n == s.len(),
            n <= 0xffff_fffe,
            a <= n,
            sub@.len() == n,
            forall|k: int| 0 <= k < n ==> sub@[k] == in_subtree(s, k, x as int),
            outside == count_below(s, x as int, n as int, false),
            count_below(s, x as int, n as int, true) + outside == n,
            inside == count_below(s, x as int, a as int, true),
            inside <= count_below(s, x as int, n as int, true),
            addr@.len() == n,
            forall|k: int| 0 <= k < n && !sub@[k] ==> addr@[k] == new_addr(s, x as int, k),
            forall|k: int| 0 <= k < a && sub@[k] ==> addr@[k] == new_addr(s, x as int, k),
        decreases n - a,
    {
        if sub[a] {
            proof {
                lemma_count_mono(s, x as int, a as int, n as int, true);
            }
            addr.set(a, outside + inside);
            inside = inside + 1;
        }
        a = a + 1;
    }
    // The rebuilt store: outside nodes, then the subtree.
    let mut out: FileDb = Vec::new();
    let ghost mut origin: Seq<int> = Seq::empty();
    let mut pass: usize = 0;
    assert(db_view(out@) =~= Seq::<EntryView>::empty());
    while pass < 2
        invariant
            s == db_view(file_db@),
            wf(s),
            n == s.len(),
            n <= 0xffff_fffe,
            0 < x < n,
            y < n,
            !in_subtree(s, y as int, x as int),
            s[y as int].is_dir,
            pass <= 2,
            sub@.len() == n,
            forall|k: int| 0 <= k < n ==> sub@[k] == in_subtree(s, k, x as int),
            addr@.len() == n,
            forall|k: int| 0 <= k < n ==> addr@[k] == new_addr(s, x as int, k),
            outside == count_below(s, x as int, n as int, false),
            count_below(s, x as int, n as int, true) + outside == n,
            out@.len() == if pass == 0 { 0 } else if pass == 1 { outside as int } else { n as int },
            origin.len() == out@.len(),
            forall|i: int| 0 <= i < out@.len() ==> 0 <= #[trigger] origin[i] < n && db_view(out@)[i] == moved_entry(s, x as int, y as int, origin[i])
                && new_addr(s, x as int, origin[i]) == i,
        decreases 2 - pass,
    {
        let want_sub = pass == 1;
        let mut a: usize = 0;
        while a < n
            invariant
                s == db_view(file_db@),
                wf(s),
                n == s.len(),
                n <= 0xffff_fffe,
                0 < x < n,
                y < n,
                pass < 2,
                want_sub == (pass == 1),
                sub@.len() == n,
                forall|k: int| 0 <= k < n ==> sub@[k] == in_subtree(s, k, x as int),
                addr@.len() == n,
                forall|k: int| 0 <= k < n ==> addr@[k] == new_addr(s, x as int, k),
                outside == count_below(s, x as int, n as int, false),
                count_below(s, x as int, n as int, true) + outside == n,
                a <= n,
                out@.len() == (if want_sub { outside as int } else { 0 }) + count_below(s, x as int, a as int, want_sub),
                origin.len() == out@.len(),
                forall|i: int| 0 <= i < out@.len() ==> 0 <= #[trigger] origin[i] < n && db_view(out@)[i] == moved_entry(s, x as int, y as int, origin[i])
                    && new_addr(s, x as int, origin[i]) == i,
            decreases n - a,
        {
            if sub[a] == want_sub {
                let mut c = copy_entry(&file_db[a]);
                c.parent = if a == 0 {
                    SENTINEL
                } else if a == x {
                    addr[y]
                } else {
                    addr[file_db[a].parent as usize]
                };
                proof {
                    if a > 0 {
                        assert(s[a as int].parent < a);
                    }
                    lemma_count_total(s, x as int, a as int);
                }
                let ghost old_out = out@;
                out.push(c);
                proof {
                    lemma_db_view_push(old_out, c);
                    origin = origin.push(a as int);
                    assert(origin[origin.len() - 1] == a as int);
                }
            }
            a = a + 1;
        }
        pass = pass + 1;
    }
    proof {
        let t = db_view(out@);
        assert forall|k: int| 0 <= k < n implies t[#[trigger] new_addr(s, x as int, k) as int] == moved_entry(s, x as int, y as int, k) by {
            lemma_new_addr_range(s, x as int, k);
            let i = new_addr(s, x as int, k) as int;
            let o = origin[i];
            lemma_new_addr_injective(s, x as int, k, o);
        }
        assert(t.len() >= 1);
        lemma_subtree_root(s, x as int);
        assert(t[0] == moved_entry(s, x as int, y as int, origin[0]));
        lemma_new_addr_injective(s, x as int, 0, origin[0]);
        assert forall|i: int| 1 <= i < t.len() implies #[trigger] t[i].parent < i && t[t[i].parent as int].is_dir by {
            let a = origin[i];
            if a == 0 {
                lemma_new_addr_injective(s, x as int, 0, origin[0]);
            }
            assert(a != 0);
            let p = if a == x as int { y as int } else { s[a].parent as int };
            assert(s[a].parent < a);
            lemma_new_addr_range(s, x as int, p);
            lemma_parent_before(s, x as int, y as int, a);
            let j = new_addr(s, x as int, p) as int;
            let b = origin[j];
            lemma_new_addr_injective(s, x as int, p, b);
        }
        lemma_rebuilt_names(s, x as int, y as int, t, origin);
    }
    proof {
        let t = db_view(out@);
        assert forall|i: int| 0 <= i < n implies t[i] == rebuilt(s, x as int, y as int)[i] by {
            let a = origin[i];
            assert(0 <= a < n && new_addr(s, x as int, a) == i);
            let c = choose|c: int| 0 <= c < s.len() && new_addr(s, x as int, c) == i;
            lemma_new_addr_injective(s, x as int, a, c);
        }
        assert(t =~= rebuilt(s, x as int, y as int));
    }
    std::mem::swap(file_db, &mut out);
}

proof fn lemma_dir_at_range(s: Seq<EntryView>, p: Seq<u8>, n: int)
    ensures
        match dir_at(s, p, n) {
            Some(k) => 0 <= k < n && s[k].is_dir,
            None => true,
        },
    decreases n,
{
    if n > 0 {
        lemma_dir_at_range(s, p, n - 1);
    }
}

proof fn lemma_new_addr_range(s: Seq<EntryView>, x: int, a: int)
    requires
        0 <= a < s.len(),
    ensures
        new_addr(s, x, a) < s.len(),
{
    lemma_count_total(s, x, s.len() as int);
    if in_subtree(s, a, x) {
        lemma_count_mono(s, x, a, s.len() as int, true);
    } else {
        lemma_count_mono(s, x, a, s.len() as int, false);
    }
}

proof fn lemma_new_addr_injective(s: Seq<EntryView>, x: int, a: int, b: int)
    requires
        0 <= a < s.len(),
        0 <= b < s.len(),
        new_addr(s, x, a) == new_addr(s, x, b),
    ensures
        a == b,
{
    lemma_count_total(s, x, s.len() as int);
    let sa = in_subtree(s, a, x);
    let sb = in_subtree(s, b, x);
    if sa != sb {
        if sa {
            lemma_count_mono(s, x, b, s.len() as int, false);
        } else {
            lemma_count_mono(s, x, a, s.len() as int, false);
        }
    } else if a < b {
        lemma_count_mono(s, x, a, b, sa);
    } else if b < a {
        lemma_count_mono(s, x, b, a, sa);
    }
}

/// A moved node's new parent comes before it and is a directory.
proof fn lemma_parent_before(s: Seq<EntryView>, x: int, y: int, a: int)
    requires
        wf(s),
        0 < x < s.len(),
        0 <= y < s.len(),
        s[y].is_dir,
        !in_subtree(s, y, x),
        0 < a < s.len(),
    ensures
        ({
            let p = if a == x { y } else { s[a].parent as int };
            new_addr(s, x, p) < new_addr(s, x, a) && s[p].is_dir
        }),
{
    lemma_count_total(s, x, s.len() as int);
    if a == x {
        assert(in_subtree(s, a, x));
        lemma_count_mono(s, x, y, s.len() as int, false);
    } else {
        let p = s[a].parent as int;
        assert(s[a].parent < a);
        lemma_subtree_parent(s, a, x);
        lemma_count_mono(s, x, p, a, in_subtree(s, a, x));
    }
}

/// The last node, of either kind, whose full path is `p`, if any.
pub open spec fn node_at(s: Seq<EntryView>, p: Seq<u8>, n: int) -> Option<int>
    decreases n,
{
    if n <= 0 {
        None
    } else if path_of(s, n - 1) == p {
        Some(n - 1)
    } else {
        node_at(s, p, n - 1)
    }
}

/// Observations under which pruning drops node `x` and its subtree and
/// keeps every other node.
pub open spec fn all_but(s: Seq<EntryView>, x: int) -> Seq<Option<FsMeta>> {
    Seq::new(
        s.len(),
        |i: int|
            if i == x {
                None
            } else {
                Some(FsMeta { is_dir: s[i].is_dir, size: s[i].size, modified: s[i].modified })
            },
    )
}

/// Removes the catalogued node at `target` and everything beneath it from
/// the store (see `all_but`); the other nodes keep their order.
/// `NotCatalogued` when no node has that path, `InvalidMove` for the root.
pub fn rm_recursive(file_db: &mut FileDb, target: &[u8]) -> (r: Result<(), FileDbError>)
    requires
        wf(db_view(old(file_db)@)),
    ensures
        ({
            let s = db_view(old(file_db)@);
            match node_at(s, target@, s.len() as int) {
                None => r == Err::<(), FileDbError>(FileDbError::NotCatalogued) && final(file_db)@ == old(file_db)@,
                Some(x) => if x == 0 {
                    r == Err::<(), FileDbError>(FileDbError::InvalidMove) && final(file_db)@ == old(file_db)@
                } else {
                    match pruned(s, all_but(s, x)) {
                        Ok(t) => r is Ok && db_view(final(file_db)@) == t,
                        Err(e) => r == Err::<(), FileDbError>(e),
                    }
                },
            }
        }),
{
    let ghost s = db_view(file_db@);
    let n = file_db.len();
    let paths = all_full_paths(file_db);
    let mut found: Option<usize> = None;
    let mut i: usize = 0;
    while i < n
        invariant
            s == db_view(file_db@),
            n == s.len(),
            i <= n,
            paths@.len() == n,
            forall|k: int| 0 <= k < n ==> (#[trigger] paths@[k])@ == path_of(s, k),
            match found { Some(x) => node_at(s, target@, i as int) == Some(x as int), None => node_at(s, target@, i as int) is None },
        decreases n - i,
    {
        if bytes_eq(paths[i].as_slice(), target) {
            found = Some(i);
        }
        i = i + 1;
    }
    let x = match found {
        None => return Err(FileDbError::NotCatalogued),
        Some(x) => x,
    };
    if x == 0 {
        return Err(FileDbError::InvalidMove);
    }
    let mut observed: Vec<Option<FsMeta>> = Vec::new();
    let mut i: usize = 0;
    while i < n
        invariant
            s == db_view(file_db@),
            n == s.len(),
            i <= n,
            observed@ == all_but(s, x as int).take(i as int),
        decreases n - i,
    {
        let e = &file_db[i];
        let o = if i == x {
            None
        } else {
            Some(FsMeta { is_dir: e.is_dir, size: e.size, modified: e.modified })
        };
        observed.push(o);
        i = i + 1;
        assert(observed@ =~= all_but(s, x as int).take(i as int));
    }
    assert(all_but(s, x as int).take(i as int) =~= all_but(s, x as int));
    prune_deleted_paths(file_db, &observed)
}

/// The ancestors of the crawl root, from the root itself up to the anchor,
/// whose times a crawl of `root` takes (see `splice`).
pub fn splice_paths(root: &[u8]) -> (r: Vec<Vec<u8>>)
    ensures
        r@.len() == ancestors(strip_trailing(root@)).len(),
        forall|k: int| 0 <= k < r@.len() ==> (#[trigger] r@[k])@ == ancestors(strip_trailing(root@))[k],
{
    let stripped = strip_trailing_slashes(root);
    root_ancestors(stripped.as_slice())
}

/// Catalogues a root: crawls `walk` under `root` into the store (empty for
/// a new catalog), then propagates sizes. `UnsupportedScale` when an
/// aggregate size would not fit 64 bits.
pub fn add(file_db: &mut FileDb, root: &[u8], times: &Vec<(u64, u64)>, walk: &Vec<WalkEntry>) -> (r: Result<(), FileDbError>)
    requires
        old(file_db)@.len() == 0 || wf(db_view(old(file_db)@)),
        times@.len() == ancestors(strip_trailing(root@)).len(),
    ensures
        match crawl(db_view(old(file_db)@), root@, times@, walk_view(walk@)) {
            Ok(t) => if subtree_size(t, 0) < u64::MAX {
                r is Ok && db_view(final(file_db)@) == propagated_sizes(t)
            } else {
                r == Err::<(), FileDbError>(FileDbError::UnsupportedScale)
            },
            Err(e) => r == Err::<(), FileDbError>(e),
        },
{
    crawl_into(file_db, root, times, walk)?;
    if !sizes_fit(file_db) {
        return Err(FileDbError::UnsupportedScale);
    }
    propagate_sizes(file_db);
    Ok(())
}

/// Re-scans a catalogued root: prunes the entries that `observed`
/// contradicts, crawls `walk` under `root` into what is left, then
/// propagates sizes (`UnsupportedScale` when an aggregate would not fit 64
/// bits).
pub fn update(
    file_db: &mut FileDb,
    observed: &Vec<Option<FsMeta>>,
    root: &[u8],
    times: &Vec<(u64, u64)>,
    walk: &Vec<WalkEntry>,
) -> (r: Result<(), FileDbError>)
    requires
        wf(db_view(old(file_db)@)),
        observed@.len() == old(file_db)@.len(),
        times@.len() == ancestors(strip_trailing(root@)).len(),
    ensures
        match pruned(db_view(old(file_db)@), observed@) {
            Ok(t) => match crawl(t, root@, times@, walk_view(walk@)) {
                Ok(u) => if subtree_size(u, 0) < u64::MAX {
                    r is Ok && db_view(final(file_db)@) == propagated_sizes(u)
                } else {
                    r == Err::<(), FileDbError>(FileDbError::UnsupportedScale)
                },
                Err(e) => r == Err::<(), FileDbError>(e),
            },
            Err(e) => r == Err::<(), FileDbError>(e),
        },
{
    prune_deleted_paths(file_db, observed)?;
    crawl_into(file_db, root, times, walk)?;
    if !sizes_fit(file_db) {
        return Err(FileDbError::UnsupportedScale);
    }
    propagate_sizes(file_db);
    Ok(())
}

} // verus!
