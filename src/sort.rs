//! Ordering of positions by a key of bytes and a number, used to order a
//! directory's children by name and to group equal content.
use vstd::prelude::*;
use vstd::relations::{sorted_by, total_ordering};
use vstd::seq_lib::{group_to_multiset_ensures, lemma_multiset_commutative};

verus! {

broadcast use group_to_multiset_ensures;

/// A sort key: bytes compared lexicographically, then a number.
pub struct SortKey {
    pub bytes: Vec<u8>,
    pub num: u128,
}

impl View for SortKey {
    type V = (Seq<u8>, u128);

    open spec fn view(&self) -> (Seq<u8>, u128) {
        (self.bytes@, self.num)
    }
}

/// The value of a key table.
pub open spec fn keys_view(ks: Seq<SortKey>) -> Seq<(Seq<u8>, u128)> {
    ks.map_values(|k: SortKey| k@)
}

/// Strict lexicographic order on byte strings; a proper prefix comes first.
pub open spec fn lex_lt(a: Seq<u8>, b: Seq<u8>) -> bool
    decreases a.len(),
{
    if b.len() == 0 {
        false
    } else if a.len() == 0 {
        true
    } else if a[0] != b[0] {
        a[0] < b[0]
    } else {
        lex_lt(a.drop_first(), b.drop_first())
    }
}

/// Position `a` goes no later than position `b`: by key bytes, then key
/// number, then position.
pub open spec fn key_leq(ks: Seq<(Seq<u8>, u128)>, a: usize, b: usize) -> bool {
    lex_lt(ks[a as int].0, ks[b as int].0) || (ks[a as int].0 == ks[b as int].0 && (ks[a as int].1
        < ks[b as int].1 || (ks[a as int].1 == ks[b as int].1 && a <= b)))
}

/// The order of positions given by a key table.
pub open spec fn key_order(ks: Seq<(Seq<u8>, u128)>) -> spec_fn(usize, usize) -> bool {
    |a: usize, b: usize| key_leq(ks, a, b)
}

/// The positions `0..n` in ascending order.
pub open spec fn positions(n: nat) -> Seq<usize> {
    Seq::new(n, |i: int| i as usize)
}

pub proof fn lemma_lex_irrefl(a: Seq<u8>)
    ensures
        !lex_lt(a, a),
    decreases a.len(),
{
    if a.len() > 0 {
        lemma_lex_irrefl(a.drop_first());
    }
}

pub proof fn lemma_lex_total(a: Seq<u8>, b: Seq<u8>)
    ensures
        a == b || lex_lt(a, b) || lex_lt(b, a),
    decreases a.len(),
{
    if a.len() > 0 && b.len() > 0 && a[0] == b[0] {
        lemma_lex_total(a.drop_first(), b.drop_first());
        if a.drop_first() == b.drop_first() {
            assert(a =~= seq![a[0]] + a.drop_first());
            assert(b =~= seq![b[0]] + b.drop_first());
        }
    } else if a.len() == 0 && b.len() == 0 {
        assert(a =~= b);
    }
}

pub proof fn lemma_lex_asym(a: Seq<u8>, b: Seq<u8>)
    ensures
        !(lex_lt(a, b) && lex_lt(b, a)),
    decreases a.len(),
{
    if a.len() > 0 && b.len() > 0 && a[0] == b[0] {
        lemma_lex_asym(a.drop_first(), b.drop_first());
    }
}

pub proof fn lemma_lex_trans(a: Seq<u8>, b: Seq<u8>, c: Seq<u8>)
    requires
        lex_lt(a, b),
        lex_lt(b, c),
    ensures
        lex_lt(a, c),
    decreases a.len(),
{
    if a.len() > 0 && a[0] == b[0] && b[0] == c[0] {
        lemma_lex_trans(a.drop_first(), b.drop_first(), c.drop_first());
    }
}

/// The order of positions by a key table is a total order.
pub proof fn lemma_key_order_total(ks: Seq<(Seq<u8>, u128)>)
    ensures
        total_ordering(key_order(ks)),
{
    let r = key_order(ks);
    assert forall|x: usize| #[trigger] r(x, x) by {
        lemma_lex_irrefl(ks[x as int].0);
    }
    assert forall|x: usize, y: usize| #[trigger] r(x, y) && #[trigger] r(y, x) implies x == y by {
        lemma_lex_asym(ks[x as int].0, ks[y as int].0);
        lemma_lex_irrefl(ks[x as int].0);
    }
    assert forall|x: usize, y: usize, z: usize| #[trigger] r(x, y) && #[trigger] r(y, z) implies r(
        x,
        z,
    ) by {
        let (a, b, c) = (ks[x as int].0, ks[y as int].0, ks[z as int].0);
        if lex_lt(a, b) && lex_lt(b, c) {
            lemma_lex_trans(a, b, c);
        }
    }
    assert forall|x: usize, y: usize| #[trigger] r(x, y) || #[trigger] r(y, x) by {
        lemma_lex_total(ks[x as int].0, ks[y as int].0);
    }
}

/// Two sequences sorted by one total order that hold the same elements
/// are equal.
pub proof fn lemma_sorted_unique<A>(x: Seq<A>, y: Seq<A>, leq: spec_fn(A, A) -> bool)
    requires
        total_ordering(leq),
        sorted_by(x, leq),
        sorted_by(y, leq),
        x.to_multiset() == y.to_multiset(),
    ensures
        x == y,
    decreases x.len(),
{
    if x.len() == 0 {
        assert(y.to_multiset().len() == 0);
        assert(y =~= x);
    } else {
        vstd::seq_lib::to_multiset_len(x);
        vstd::seq_lib::to_multiset_len(y);
        assert(y.len() == x.len());
        assert(x.to_multiset().count(x[0]) > 0);
        assert(y.contains(x[0]));
        let k = choose|k: int| 0 <= k < y.len() && y[k] == x[0];
        assert(y.to_multiset().count(y[0]) > 0);
        assert(x.contains(y[0]));
        let m = choose|m: int| 0 <= m < x.len() && x[m] == y[0];
        if k > 0 {
            assert(leq(y[0], y[k]));
        }
        if m > 0 {
            assert(leq(x[0], x[m]));
        }
        assert(x[0] == y[0]);
        assert(x.remove(0) =~= x.drop_first());
        assert(y.remove(0) =~= y.drop_first());
        vstd::seq_lib::to_multiset_remove(x, 0);
        vstd::seq_lib::to_multiset_remove(y, 0);
        lemma_sorted_unique(x.drop_first(), y.drop_first(), leq);
        assert(x =~= seq![x[0]] + x.drop_first());
        assert(y =~= seq![y[0]] + y.drop_first());
    }
}

/// Whether `a` strictly precedes `b` lexicographically.
pub fn lex_less(a: &[u8], b: &[u8]) -> (r: bool)
    ensures
        r == lex_lt(a@, b@),
{
    let mut i: usize = 0;
    assert(a@.skip(0) =~= a@);
    assert(b@.skip(0) =~= b@);
    while i < a.len() && i < b.len()
        invariant
            i <= a@.len(),
            i <= b@.len(),
            lex_lt(a@, b@) == lex_lt(a@.skip(i as int), b@.skip(i as int)),
        decreases a@.len() - i,
    {
        if a[i] != b[i] {
            assert(a@.skip(i as int)[0] == a@[i as int]);
            assert(b@.skip(i as int)[0] == b@[i as int]);
            return a[i] < b[i];
        }
        assert(a@.skip(i as int).drop_first() =~= a@.skip(i + 1));
        assert(b@.skip(i as int).drop_first() =~= b@.skip(i + 1));
        i = i + 1;
    }
    i < b.len()
}

fn key_le(keys: &Vec<SortKey>, a: usize, b: usize) -> (r: bool)
    requires
        a < keys@.len(),
        b < keys@.len(),
    ensures
        r == key_leq(keys_view(keys@), a, b),
{
    let ka = &keys[a];
    let kb = &keys[b];
    if lex_less(ka.bytes.as_slice(), kb.bytes.as_slice()) {
        return true;
    }
    if lex_less(kb.bytes.as_slice(), ka.bytes.as_slice()) {
        proof {
            lemma_lex_asym(ka.bytes@, kb.bytes@);
            lemma_lex_irrefl(ka.bytes@);
        }
        return false;
    }
    proof {
        lemma_lex_total(ka.bytes@, kb.bytes@);
    }
    ka.num < kb.num || (ka.num == kb.num && a <= b)
}

fn merge(keys: &Vec<SortKey>, l: Vec<usize>, r: Vec<usize>) -> (out: Vec<usize>)
    requires
        forall|i: int| 0 <= i < l@.len() ==> l@[i] < keys@.len(),
        forall|i: int| 0 <= i < r@.len() ==> r@[i] < keys@.len(),
        sorted_by(l@, key_order(keys_view(keys@))),
        sorted_by(r@, key_order(keys_view(keys@))),
    ensures
        out@.to_multiset() == l@.to_multiset().add(r@.to_multiset()),
        sorted_by(out@, key_order(keys_view(keys@))),
        forall|i: int| 0 <= i < out@.len() ==> out@[i] < keys@.len(),
{
    let ghost ks = keys_view(keys@);
    let ghost leq = key_order(ks);
    proof {
        lemma_key_order_total(ks);
    }
    let mut out: Vec<usize> = Vec::new();
    let mut i: usize = 0;
    let mut j: usize = 0;
    while i < l.len() || j < r.len()
        invariant
            ks == keys_view(keys@),
            leq == key_order(ks),
            total_ordering(leq),
            forall|k: int| 0 <= k < l@.len() ==> l@[k] < keys@.len(),
            forall|k: int| 0 <= k < r@.len() ==> r@[k] < keys@.len(),
            forall|k: int| 0 <= k < out@.len() ==> out@[k] < keys@.len(),
            sorted_by(l@, leq),
            sorted_by(r@, leq),
            i <= l@.len(),
            j <= r@.len(),
            sorted_by(out@, leq),
            out@.to_multiset() == l@.take(i as int).to_multiset().add(r@.take(j as int).to_multiset()),
            out@.len() > 0 && i < l@.len() ==> leq(out@.last(), l@[i as int]),
            out@.len() > 0 && j < r@.len() ==> leq(out@.last(), r@[j as int]),
        decreases l@.len() + r@.len() - i - j,
    {
        let take_left = if i < l.len() && j < r.len() {
            key_le(keys, l[i], r[j])
        } else {
            i < l.len()
        };
        let x = if take_left {
            l[i]
        } else {
            r[j]
        };
        proof {
            if take_left && j < r@.len() {
                assert(leq(l@[i as int], r@[j as int]));
            }
            if !take_left && i < l@.len() {
                assert(!leq(l@[i as int], r@[j as int]));
                assert(leq(l@[i as int], r@[j as int]) || leq(r@[j as int], l@[i as int]));
                assert(leq(r@[j as int], l@[i as int]));
            }
            assert forall|a: int, b: int| 0 <= a < b < out@.len() + 1 implies #[trigger] leq(
                out@.push(x)[a],
                out@.push(x)[b],
            ) by {
                if b == out@.len() && a < b - 1 {
                    assert(leq(out@[a], out@.last()));
                }
            }
        }
        out.push(x);
        if take_left {
            proof {
                assert(l@.take(i + 1) =~= l@.take(i as int).push(l@[i as int]));
                if i + 1 < l@.len() {
                    assert(leq(l@[i as int], l@[i + 1]));
                }
            }
            i = i + 1;
        } else {
            proof {
                assert(r@.take(j + 1) =~= r@.take(j as int).push(r@[j as int]));
                if j + 1 < r@.len() {
                    assert(leq(r@[j as int], r@[j + 1]));
                }
            }
            j = j + 1;
        }
    }
    assert(l@.take(i as int) =~= l@);
    assert(r@.take(j as int) =~= r@);
    out
}

fn merge_sort(keys: &Vec<SortKey>, v: Vec<usize>) -> (out: Vec<usize>)
    requires
        forall|i: int| 0 <= i < v@.len() ==> v@[i] < keys@.len(),
    ensures
        out@.to_multiset() == v@.to_multiset(),
        sorted_by(out@, key_order(keys_view(keys@))),
        forall|i: int| 0 <= i < out@.len() ==> out@[i] < keys@.len(),
    decreases v@.len(),
{
    if v.len() <= 1 {
        proof {
            lemma_key_order_total(keys_view(keys@));
        }
        return v;
    }
    let mid = v.len() / 2;
    let mut left = v;
    let ghost whole = left@;
    let right = left.split_off(mid);
    let ls = merge_sort(keys, left);
    let rs = merge_sort(keys, right);
    proof {
        assert(whole =~= whole.subrange(0, mid as int) + whole.subrange(mid as int, whole.len() as int));
        lemma_multiset_commutative(whole.subrange(0, mid as int), whole.subrange(mid as int, whole.len() as int));
    }
    merge(keys, ls, rs)
}

/// The positions of `keys` in key order: by bytes, then number, then
/// position.
pub fn sort_positions(keys: &Vec<SortKey>) -> (r: Vec<usize>)
    ensures
        r@ == positions(keys@.len()).sort_by(key_order(keys_view(keys@))),
        r@.len() == keys@.len(),
        forall|i: int| 0 <= i < r@.len() ==> r@[i] < keys@.len(),
        sorted_by(r@, key_order(keys_view(keys@))),
        forall|a: usize| a < keys@.len() ==> r@.contains(a),
        r@.no_duplicates(),
{
    let n = keys.len();
    let mut v: Vec<usize> = Vec::new();
    let mut i: usize = 0;
    while i < n
        invariant
            n == keys@.len(),
            i <= n,
            v@ == positions(i as nat),
        decreases n - i,
    {
        v.push(i);
        i = i + 1;
        assert(v@ =~= positions(i as nat));
    }
    let sorted = merge_sort(keys, v);
    proof {
        let leq = key_order(keys_view(keys@));
        lemma_key_order_total(keys_view(keys@));
        positions(n as nat).lemma_sort_by_ensures(leq);
        lemma_sorted_unique(sorted@, positions(n as nat).sort_by(leq), leq);
        vstd::seq_lib::to_multiset_len(sorted@);
        vstd::seq_lib::to_multiset_len(v@);
        let ps = positions(n as nat);
        assert(ps.no_duplicates());
        ps.lemma_multiset_has_no_duplicates();
        assert forall|a: usize| a < n implies sorted@.contains(a) by {
            assert(ps[a as int] == a);
            assert(ps.to_multiset().count(a) > 0);
        }
        assert forall|x: usize| sorted@.to_multiset().contains(x) implies sorted@.to_multiset().count(x) == 1 by {
            assert(ps.to_multiset().contains(x));
        }
        sorted@.lemma_multiset_has_no_duplicates_conv();
    }
    sorted
}

} // verus!
