//! Paths as byte strings with `/` as the separator.
use vstd::prelude::*;

verus! {

/// The separator byte `/`.
pub const SEP: u8 = 47;

/// Appends `name` to `base` as one more component: a separator is put
/// between them unless `base` is empty or already ends with one.
pub open spec fn join_path(base: Seq<u8>, name: Seq<u8>) -> Seq<u8> {
    if base.len() == 0 {
        name
    } else if base.last() == SEP {
        base + name
    } else {
        base.push(SEP) + name
    }
}

/// Appends the bytes of `src` to `dst`.
pub fn append_bytes(dst: &mut Vec<u8>, src: &[u8])
    ensures
        final(dst)@ == old(dst)@ + src@,
{
    let mut i: usize = 0;
    while i < src.len()
        invariant
            i <= src@.len(),
            dst@ == old(dst)@ + src@.take(i as int),
        decreases src@.len() - i,
    {
        proof {
            assert(src@.take(i + 1) =~= src@.take(i as int).push(src@[i as int]));
        }
        dst.push(src[i]);
        i = i + 1;
    }
    assert(src@.take(i as int) =~= src@);
}

/// Joins `name` onto `base` in place.
pub fn join_exec(base: &mut Vec<u8>, name: &[u8])
    ensures
        final(base)@ == join_path(old(base)@, name@),
{
    if base.len() > 0 && base[base.len() - 1] != SEP {
        base.push(SEP);
    }
    append_bytes(base, name);
}

/// A copy of `p`.
pub fn copy_bytes(p: &[u8]) -> (r: Vec<u8>)
    ensures
        r@ == p@,
{
    let mut r: Vec<u8> = Vec::new();
    append_bytes(&mut r, p);
    assert(r@ =~= p@);
    r
}

/// Whether two byte strings are equal.
pub fn bytes_eq(a: &[u8], b: &[u8]) -> (r: bool)
    ensures
        r == (a@ == b@),
{
    if a.len() != b.len() {
        return false;
    }
    let mut i: usize = 0;
    while i < a.len()
        invariant
            a@.len() == b@.len(),
            i <= a@.len(),
            forall|k: int| 0 <= k < i ==> a@[k] == b@[k],
        decreases a@.len() - i,
    {
        if a[i] != b[i] {
            return false;
        }
        i = i + 1;
    }
    assert(a@ =~= b@);
    true
}

} // verus!

verus! {

/// The position of the last separator of `p` before `end`, or -1.
pub open spec fn last_sep_before(p: Seq<u8>, end: int) -> int
    decreases end,
{
    if end <= 0 {
        -1
    } else if p[end - 1] == SEP {
        end - 1
    } else {
        last_sep_before(p, end - 1)
    }
}

/// A path split into its parent path and its final component: the parent
/// is what precedes the last separator (`/` when that separator is the
/// first byte); `None` for `/` itself and for a path with no separator.
pub open spec fn split_path(p: Seq<u8>) -> Option<(Seq<u8>, Seq<u8>)> {
    let k = last_sep_before(p, p.len() as int);
    if k < 0 || (p.len() == 1 && p[0] == SEP) {
        None
    } else if k == 0 {
        Some((p.take(1), p.skip(1)))
    } else {
        Some((p.take(k), p.skip(k + 1)))
    }
}

/// `p` without trailing separators, keeping a lone `/`.
pub open spec fn strip_trailing(p: Seq<u8>) -> Seq<u8>
    decreases p.len(),
{
    if p.len() > 1 && p.last() == SEP {
        strip_trailing(p.drop_last())
    } else {
        p
    }
}

/// `p` and its ancestors, from `p` up to the anchor.
pub open spec fn ancestors(p: Seq<u8>) -> Seq<Seq<u8>>
    decreases p.len(),
{
    match split_path(p) {
        None => seq![p],
        Some((q, _)) => if q.len() < p.len() {
            seq![p] + ancestors(q)
        } else {
            seq![p]
        },
    }
}

pub proof fn lemma_last_sep(p: Seq<u8>, end: int)
    requires
        0 <= end <= p.len(),
    ensures
        -1 <= last_sep_before(p, end) < end,
        last_sep_before(p, end) >= 0 ==> p[last_sep_before(p, end)] == SEP,
        forall|j: int| last_sep_before(p, end) < j < end ==> p[j] != SEP,
    decreases end,
{
    if end > 0 && p[end - 1] != SEP {
        lemma_last_sep(p, end - 1);
    }
}

/// The position of the last separator in `p`, if any.
pub fn last_sep(p: &[u8]) -> (r: Option<usize>)
    ensures
        match r {
            Some(k) => k as int == last_sep_before(p@, p@.len() as int),
            None => last_sep_before(p@, p@.len() as int) == -1,
        },
{
    let mut end: usize = p.len();
    while end > 0
        invariant
            end <= p@.len(),
            last_sep_before(p@, p@.len() as int) == last_sep_before(p@, end as int),
        decreases end,
    {
        if p[end - 1] == SEP {
            return Some(end - 1);
        }
        end = end - 1;
    }
    None
}

/// Splits `p` into its parent path and final component (see `split_path`).
pub fn split_parent(p: &[u8]) -> (r: Option<(Vec<u8>, Vec<u8>)>)
    ensures
        match r {
            Some((q, n)) => split_path(p@) == Some((q@, n@)),
            None => split_path(p@) is None,
        },
{
    let k = match last_sep(p) {
        None => return None,
        Some(k) => k,
    };
    if p.len() == 1 && p[0] == SEP {
        return None;
    }
    let cut = if k == 0 {
        1
    } else {
        k
    };
    proof {
        lemma_last_sep(p@, p@.len() as int);
    }
    let mut q: Vec<u8> = Vec::new();
    let mut i: usize = 0;
    while i < cut
        invariant
            cut <= p@.len(),
            i <= cut,
            q@ == p@.take(i as int),
        decreases cut - i,
    {
        q.push(p[i]);
        i = i + 1;
        assert(q@ =~= p@.take(i as int));
    }
    let mut n: Vec<u8> = Vec::new();
    let mut i: usize = k + 1;
    while i < p.len()
        invariant
            k + 1 <= i <= p@.len(),
            n@ == p@.subrange(k + 1, i as int),
        decreases p@.len() - i,
    {
        n.push(p[i]);
        i = i + 1;
        assert(n@ =~= p@.subrange(k + 1, i as int));
    }
    assert(n@ =~= p@.skip(k + 1));
    Some((q, n))
}

/// Removes trailing separators from `p`, keeping a lone `/`.
pub fn strip_trailing_slashes(p: &[u8]) -> (r: Vec<u8>)
    ensures
        r@ == strip_trailing(p@),
{
    let mut end: usize = p.len();
    assert(p@.take(end as int) =~= p@);
    while end > 1 && p[end - 1] == SEP
        invariant
            end <= p@.len(),
            strip_trailing(p@) == strip_trailing(p@.take(end as int)),
        decreases end,
    {
        assert(p@.take(end as int).drop_last() =~= p@.take(end - 1));
        end = end - 1;
    }
    let mut r: Vec<u8> = Vec::new();
    let mut i: usize = 0;
    while i < end
        invariant
            end <= p@.len(),
            i <= end,
            r@ == p@.take(i as int),
        decreases end - i,
    {
        r.push(p[i]);
        i = i + 1;
        assert(r@ =~= p@.take(i as int));
    }
    assert(p@.take(p@.len() as int) =~= p@);
    r
}

/// `p` and its ancestors, from `p` up to the anchor (see `ancestors`).
pub fn root_ancestors(p: &[u8]) -> (r: Vec<Vec<u8>>)
    ensures
        r@.len() == ancestors(p@).len(),
        forall|k: int| 0 <= k < r@.len() ==> (#[trigger] r@[k])@ == ancestors(p@)[k],
{
    let mut out: Vec<Vec<u8>> = Vec::new();
    let mut cur = copy_bytes(p);
    loop
        invariant_except_break
            ancestors(p@) == out@.map_values(|v: Vec<u8>| v@) + ancestors(cur@),
        ensures
            ancestors(p@) == out@.map_values(|v: Vec<u8>| v@),
        decreases cur@.len(),
    {
        let ghost before = out@;
        match split_parent(cur.as_slice()) {
            None => {
                let ghost c = cur@;
                out.push(cur);
                assert(out@.map_values(|v: Vec<u8>| v@) =~= before.map_values(|v: Vec<u8>| v@) + ancestors(c));
                break;
            },
            Some((q, _)) => {
                if q.len() >= cur.len() {
                    let ghost c = cur@;
                    out.push(cur);
                    assert(out@.map_values(|v: Vec<u8>| v@) =~= before.map_values(|v: Vec<u8>| v@) + ancestors(c));
                    break;
                }
                let ghost c = cur@;
                out.push(cur);
                assert(out@.map_values(|v: Vec<u8>| v@) =~= before.map_values(|v: Vec<u8>| v@).push(c));
                assert(ancestors(c) == seq![c] + ancestors(q@));
                assert(before.map_values(|v: Vec<u8>| v@) + ancestors(c) =~= out@.map_values(|v: Vec<u8>| v@) + ancestors(q@));
                cur = q;
            },
        }
    }
    assert forall|k: int| 0 <= k < out@.len() implies (#[trigger] out@[k])@ == ancestors(p@)[k] by {
        assert(out@.map_values(|v: Vec<u8>| v@)[k] == out@[k]@);
    }
    out
}

} // verus!

verus! {

/// Whether `p` is `t` or lies beneath it: `t` followed by a separator (or
/// `t` ending in one) and more.
pub open spec fn under(p: Seq<u8>, t: Seq<u8>) -> bool {
    p == t || (t.len() > 0 && p.len() > t.len() && p.take(t.len() as int) == t && (t.last() == SEP
        || p[t.len() as int] == SEP))
}

/// Whether `p` is `t` or lies beneath it (see `under`).
pub fn path_starts_with(p: &[u8], t: &[u8]) -> (r: bool)
    ensures
        r == under(p@, t@),
{
    if bytes_eq(p, t) {
        return true;
    }
    if t.len() == 0 || p.len() <= t.len() {
        return false;
    }
    let mut i: usize = 0;
    while i < t.len()
        invariant
            t@.len() < p@.len(),
            i <= t@.len(),
            forall|k: int| 0 <= k < i ==> p@[k] == t@[k],
        decreases t@.len() - i,
    {
        if p[i] != t[i] {
            assert(p@.take(t@.len() as int)[i as int] != t@[i as int]);
            return false;
        }
        i = i + 1;
    }
    assert(p@.take(t@.len() as int) =~= t@);
    t[t.len() - 1] == SEP || p[t.len()] == SEP
}

} // verus!

verus! {

/// `p` without trailing separators and trailing `.` components (a lone `/`
/// is kept): the part whose last component names the file.
pub open spec fn trim_tail(p: Seq<u8>) -> Seq<u8>
    decreases p.len(),
{
    if p.len() > 1 && p.last() == SEP {
        trim_tail(p.drop_last())
    } else if p.len() >= 2 && p.last() == 46u8 && p[p.len() - 2] == SEP {
        trim_tail(p.drop_last())
    } else {
        p
    }
}

/// The final component of `p`: what follows its last separator.
pub open spec fn file_name(p: Seq<u8>) -> Seq<u8> {
    p.skip(last_sep_before(p, p.len() as int) + 1)
}

/// The position of the last `.` of `f` before `end`, or -1.
pub open spec fn last_dot_before(f: Seq<u8>, end: int) -> int
    decreases end,
{
    if end <= 0 {
        -1
    } else if f[end - 1] == 46u8 {
        end - 1
    } else {
        last_dot_before(f, end - 1)
    }
}

/// What follows the last `.` of the final component of `p`, when that `.`
/// is not the component's first byte.
pub open spec fn name_ext(p: Seq<u8>) -> Option<Seq<u8>> {
    let f = file_name(p);
    let k = last_dot_before(f, f.len() as int);
    if k <= 0 {
        None
    } else {
        Some(f.skip(k + 1))
    }
}

/// The extension of `p`: trailing separators and `.` components are
/// dropped first; a final `..` has none.
pub open spec fn extension(p: Seq<u8>) -> Option<Seq<u8>> {
    let q = trim_tail(p);
    if file_name(q) == seq![46u8, 46u8] {
        None
    } else {
        name_ext(q)
    }
}

/// `p` without trailing separators and `.` components (see `trim_tail`).
fn trim_tail_exec(p: &[u8]) -> (r: Vec<u8>)
    ensures
        r@ == trim_tail(p@),
{
    let mut end: usize = p.len();
    assert(p@.take(end as int) =~= p@);
    while (end > 1 && p[end - 1] == SEP) || (end >= 2 && p[end - 1] == 46u8 && p[end - 2] == SEP)
        invariant
            end <= p@.len(),
            trim_tail(p@) == trim_tail(p@.take(end as int)),
        decreases end,
    {
        assert(p@.take(end as int).drop_last() =~= p@.take(end - 1));
        end = end - 1;
    }
    let mut r: Vec<u8> = Vec::new();
    let mut i: usize = 0;
    while i < end
        invariant
            end <= p@.len(),
            i <= end,
            r@ == p@.take(i as int),
        decreases end - i,
    {
        r.push(p[i]);
        i = i + 1;
        assert(r@ =~= p@.take(i as int));
    }
    r
}

/// Whether the final component of `q` is `..`.
fn is_dotdot_name(q: &[u8]) -> (r: bool)
    ensures
        r == (file_name(q@) == seq![46u8, 46u8]),
{
    let n = q.len();
    proof {
        lemma_last_sep(q@, q@.len() as int);
    }
    let r = n >= 2 && q[n - 1] == 46u8 && q[n - 2] == 46u8 && (n == 2 || q[n - 3] == SEP);
    proof {
        let k = last_sep_before(q@, q@.len() as int);
        let f = file_name(q@);
        if r {
            assert(k == n - 3 || (n == 2 && k == -1)) by {
                if n > 2 {
                    assert(q@[n - 3] == SEP);
                    assert(!(k < n - 3));
                }
            }
            assert(f =~= seq![46u8, 46u8]);
        } else if f == seq![46u8, 46u8] {
            assert(f.len() == 2);
            assert(q@[n - 1] == f[1] && q@[n - 2] == f[0]);
            if n > 2 {
                assert(k == n - 3);
            }
        }
    }
    r
}

/// The extension of `path` (see `extension`).
pub fn get_ext(path: &[u8]) -> (r: Option<Vec<u8>>)
    ensures
        match r {
            Some(e) => extension(path@) == Some(e@),
            None => extension(path@) is None,
        },
{
    let q = trim_tail_exec(path);
    if is_dotdot_name(q.as_slice()) {
        return None;
    }
    name_ext_exec(q.as_slice())
}

fn name_ext_exec(path: &[u8]) -> (r: Option<Vec<u8>>)
    ensures
        match r {
            Some(e) => name_ext(path@) == Some(e@),
            None => name_ext(path@) is None,
        },
{
    let len = path.len();
    proof {
        lemma_last_sep(path@, path@.len() as int);
    }
    let start: usize = match last_sep(path) {
        Some(k) => {
            assert(k < len);
            k + 1
        },
        None => 0,
    };
    let ghost f = path@.skip(start as int);
    let mut end: usize = path.len();
    while end > start && path[end - 1] != 46u8
        invariant
            start <= end <= path@.len(),
            f == path@.skip(start as int),
            last_dot_before(f, f.len() as int) == last_dot_before(f, end - start),
        decreases end,
    {
        assert(f[end - start - 1] == path@[end - 1]);
        end = end - 1;
    }
    if end - start <= 1 {
        proof {
            if end == start + 1 {
                assert(f[0] == path@[start as int]);
            }
        }
        return None;
    }
    assert(f[end - start - 1] == path@[end - 1]);
    let mut e: Vec<u8> = Vec::new();
    let mut i: usize = end;
    while i < path.len()
        invariant
            end <= i <= path@.len(),
            e@ == path@.subrange(end as int, i as int),
        decreases path@.len() - i,
    {
        e.push(path[i]);
        i = i + 1;
        assert(e@ =~= path@.subrange(end as int, i as int));
    }
    assert(e@ =~= f.skip(end - start));
    Some(e)
}

/// The extensions that mark an archive.
pub open spec fn archive_ext(e: Seq<u8>) -> bool {
    e == seq![116u8, 97u8, 114u8] || e == seq![120u8, 122u8] || e == seq![103u8, 122u8] || e == seq![
        116u8,
        103u8,
        122u8,
    ]
}

/// Whether `path` names an archive by its extension: `tar`, `xz`, `gz` or
/// `tgz` (so `.tar.gz` and `.tar.xz` too); trailing separators and `.`
/// components are ignored.
pub fn is_archive(path: &[u8]) -> (r: bool)
    ensures
        r == match extension(path@) {
            Some(e) => archive_ext(e),
            None => false,
        },
{
    let ext = match get_ext(path) {
        None => return false,
        Some(e) => e,
    };
    let tar: [u8; 3] = [116, 97, 114];
    let xz: [u8; 2] = [120, 122];
    let gz: [u8; 2] = [103, 122];
    let tgz: [u8; 3] = [116, 103, 122];
    assert(tar@ =~= seq![116u8, 97u8, 114u8]);
    assert(xz@ =~= seq![120u8, 122u8]);
    assert(gz@ =~= seq![103u8, 122u8]);
    assert(tgz@ =~= seq![116u8, 103u8, 122u8]);
    bytes_eq(ext.as_slice(), &tar) || bytes_eq(ext.as_slice(), &xz) || bytes_eq(ext.as_slice(), &gz)
        || bytes_eq(ext.as_slice(), &tgz)
}

/// What follows `from` in a path beneath it, without the separator.
pub open spec fn rest_after(p: Seq<u8>, from: Seq<u8>) -> Seq<u8> {
    if p == from {
        Seq::empty()
    } else if from.last() == SEP {
        p.skip(from.len() as int)
    } else {
        p.skip(from.len() as int + 1)
    }
}

/// `path` with its leading `from` replaced by `to`; unchanged when `to` is
/// empty.
pub open spec fn replaced_prefix(p: Seq<u8>, from: Seq<u8>, to: Seq<u8>) -> Seq<u8> {
    if to.len() == 0 {
        p
    } else if rest_after(p, from).len() == 0 {
        to
    } else {
        join_path(to, rest_after(p, from))
    }
}

/// Rewrites a path found under `replace_from` as the same path under
/// `replace_to` (see `replaced_prefix`).
pub fn replace_prefix(path: &[u8], replace_from: &[u8], replace_to: &[u8]) -> (r: Vec<u8>)
    requires
        replace_to@.len() > 0 ==> under(path@, replace_from@),
    ensures
        r@ == replaced_prefix(path@, replace_from@, replace_to@),
{
    if replace_to.len() == 0 {
        return copy_bytes(path);
    }
    if bytes_eq(path, replace_from) {
        return copy_bytes(replace_to);
    }
    assert(path@.len() > replace_from@.len());
    let plen = path.len();
    let start: usize = if replace_from[replace_from.len() - 1] == SEP {
        replace_from.len()
    } else {
        replace_from.len() + 1
    };
    let mut rest: Vec<u8> = Vec::new();
    let mut i: usize = start;
    while i < path.len()
        invariant
            start <= i <= path@.len(),
            rest@ == path@.subrange(start as int, i as int),
        decreases path@.len() - i,
    {
        rest.push(path[i]);
        i = i + 1;
        assert(rest@ =~= path@.subrange(start as int, i as int));
    }
    assert(rest@ =~= rest_after(path@, replace_from@));
    if rest.len() == 0 {
        return copy_bytes(replace_to);
    }
    let mut out = copy_bytes(replace_to);
    join_exec(&mut out, rest.as_slice());
    out
}

} // verus!
