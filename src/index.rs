//! The Path Index: full path of each directory to its address.
use vstd::prelude::*;

use crate::path::bytes_eq;
use crate::store::{db_view, get_full_path, lemma_path_of_push, lemma_walk_wf, path_of, wf, EntryView, FileDb};

verus! {

/// The map that a sequence of (path, address) insertions leaves; a later
/// insertion of a path replaces an earlier one.
pub open spec fn map_of(es: Seq<(Seq<u8>, u32)>) -> Map<Seq<u8>, u32>
    decreases es.len(),
{
    if es.len() == 0 {
        Map::empty()
    } else {
        map_of(es.drop_last()).insert(es.last().0, es.last().1)
    }
}

/// The Path Index of the first `n` nodes: every directory's full path to
/// its address, a later directory of the same path replacing an earlier.
pub open spec fn index_upto(s: Seq<EntryView>, n: int) -> Map<Seq<u8>, u32>
    decreases n,
{
    if n <= 0 {
        Map::empty()
    } else if s[n - 1].is_dir {
        index_upto(s, n - 1).insert(path_of(s, n - 1), (n - 1) as u32)
    } else {
        index_upto(s, n - 1)
    }
}

/// The Path Index of a store.
pub open spec fn path_index_of(s: Seq<EntryView>) -> Map<Seq<u8>, u32> {
    index_upto(s, s.len() as int)
}

/// Every address in the Path Index is a directory whose full path is the key.
pub proof fn lemma_index_sound(s: Seq<EntryView>, n: int)
    requires
        0 <= n <= s.len() <= 0xffff_ffff,
    ensures
        forall|p: Seq<u8>|
            #[trigger] index_upto(s, n).contains_key(p) ==> index_upto(s, n)[p] < n && s[index_upto(
                s,
                n,
            )[p] as int].is_dir && path_of(s, index_upto(s, n)[p] as int) == p,
    decreases n,
{
    if n > 0 {
        lemma_index_sound(s, n - 1);
        let prev = index_upto(s, n - 1);
        assert(((n - 1) as u32) as int == n - 1);
        assert forall|p: Seq<u8>| #[trigger] index_upto(s, n).contains_key(p) implies index_upto(s, n)[p] < n
            && s[index_upto(s, n)[p] as int].is_dir && path_of(s, index_upto(s, n)[p] as int) == p by {
            if s[n - 1].is_dir && p == path_of(s, n - 1) {
            } else {
                assert(prev.contains_key(p));
            }
        }
    }
}

proof fn lemma_index_upto_push(s: Seq<EntryView>, e: EntryView, n: int)
    requires
        0 <= n <= s.len(),
    ensures
        index_upto(s.push(e), n) == index_upto(s, n),
    decreases n,
{
    if n > 0 {
        lemma_index_upto_push(s, e, n - 1);
        lemma_path_of_push(s, e, n - 1);
        assert(s.push(e)[n - 1] == s[n - 1]);
    }
}

/// Appending a node adds its path to the Path Index when it is a directory.
pub proof fn lemma_index_push(s: Seq<EntryView>, e: EntryView)
    ensures
        path_index_of(s.push(e)) == if e.is_dir {
            path_index_of(s).insert(path_of(s.push(e), s.len() as int), s.len() as u32)
        } else {
            path_index_of(s)
        },
{
    lemma_index_upto_push(s, e, s.len() as int);
    assert(s.push(e)[s.len() as int] == e);
}

/// The 64-bit FNV-1a fingerprint of the first `n` bytes of `p`.
pub open spec fn fingerprint(p: Seq<u8>, n: int) -> u64
    decreases n,
{
    if n <= 0 {
        0xcbf2_9ce4_8422_2325
    } else {
        vstd::wrapping::u64_specs::wrapping_mul(fingerprint(p, n - 1) ^ (p[n - 1] as u64), 0x100_0000_01b3)
    }
}

fn fingerprint_of(p: &[u8]) -> (r: u64)
    ensures
        r == fingerprint(p@, p@.len() as int),
{
    let mut h: u64 = 0xcbf2_9ce4_8422_2325;
    let mut i: usize = 0;
    while i < p.len()
        invariant
            i <= p@.len(),
            h == fingerprint(p@, i as int),
        decreases p@.len() - i,
    {
        h = (h ^ (p[i] as u64)).wrapping_mul(0x100_0000_01b3);
        i = i + 1;
    }
    h
}

/// A map from paths to addresses, bucketed by path fingerprint.
pub struct PathIndex {
    buckets: std::collections::HashMap<u64, Vec<(Vec<u8>, u32)>>,
}

/// The insertions recorded in a list of entries.
pub open spec fn entries_view(es: Seq<(Vec<u8>, u32)>) -> Seq<(Seq<u8>, u32)> {
    es.map_values(|e: (Vec<u8>, u32)| (e.0@, e.1))
}

proof fn lemma_map_of_tail(es: Seq<(Seq<u8>, u32)>, p: Seq<u8>, k: int)
    requires
        0 <= k < es.len(),
        es[k].0 == p,
        forall|i: int| k < i < es.len() ==> (#[trigger] es[i]).0 != p,
    ensures
        map_of(es).contains_key(p),
        map_of(es)[p] == es[k].1,
    decreases es.len(),
{
    if k < es.len() - 1 {
        assert(es.drop_last()[k] == es[k]);
        assert forall|i: int| k < i < es.drop_last().len() implies (#[trigger] es.drop_last()[i]).0 != p by {
            assert(es.drop_last()[i] == es[i]);
        }
        lemma_map_of_tail(es.drop_last(), p, k);
    }
}

proof fn lemma_map_of_absent(es: Seq<(Seq<u8>, u32)>, p: Seq<u8>)
    requires
        forall|i: int| 0 <= i < es.len() ==> (#[trigger] es[i]).0 != p,
    ensures
        !map_of(es).contains_key(p),
    decreases es.len(),
{
    if es.len() > 0 {
        assert forall|i: int| 0 <= i < es.drop_last().len() implies (#[trigger] es.drop_last()[i]).0 != p by {
            assert(es.drop_last()[i] == es[i]);
        }
        lemma_map_of_absent(es.drop_last(), p);
    }
}

/// The map that the bucket of `p`'s fingerprint records for `p`.
pub open spec fn bucket_map(m: Map<u64, Vec<(Vec<u8>, u32)>>, p: Seq<u8>) -> Map<Seq<u8>, u32> {
    if m.contains_key(fingerprint(p, p.len() as int)) {
        map_of(entries_view(m[fingerprint(p, p.len() as int)]@))
    } else {
        Map::empty()
    }
}

impl View for PathIndex {
    type V = Map<Seq<u8>, u32>;

    closed spec fn view(&self) -> Map<Seq<u8>, u32> {
        Map::new(
            |p: Seq<u8>| bucket_map(self.buckets@, p).contains_key(p),
            |p: Seq<u8>| bucket_map(self.buckets@, p)[p],
        )
    }
}

impl PathIndex {
    /// An empty index.
    pub fn new() -> (r: PathIndex)
        ensures
            r@ == Map::<Seq<u8>, u32>::empty(),
    {
        let r = PathIndex { buckets: std::collections::HashMap::new() };
        assert(r@ =~= Map::<Seq<u8>, u32>::empty());
        r
    }

    /// The address recorded for `p`, if any.
    pub fn get(&self, p: &[u8]) -> (r: Option<u32>)
        ensures
            match r {
                Some(a) => self@.contains_key(p@) && self@[p@] == a,
                None => !self@.contains_key(p@),
            },
    {
        broadcast use vstd::std_specs::hash::group_hash_axioms;
        let h = fingerprint_of(p);
        let bucket = match self.buckets.get(&h) {
            None => {
                return None;
            },
            Some(b) => b,
        };
        let ghost es = entries_view(bucket@);
        assert(es == entries_view(self.buckets@[h]@));
        assert(bucket_map(self.buckets@, p@) == map_of(es));
        let mut i: usize = bucket.len();
        while i > 0
            invariant
                es == entries_view(bucket@),
                bucket_map(self.buckets@, p@) == map_of(es),
                i <= es.len(),
                forall|k: int| i <= k < es.len() ==> (#[trigger] es[k]).0 != p@,
            decreases i,
        {
            let e = &bucket[i - 1];
            if bytes_eq(e.0.as_slice(), p) {
                proof {
                    lemma_map_of_tail(es, p@, i - 1);
                    assert(bucket_map(self.buckets@, p@) == map_of(es));
                    assert(self@.contains_key(p@));
                    assert(self@[p@] == map_of(es)[p@]);
                }
                return Some(e.1);
            }
            i = i - 1;
        }
        proof {
            lemma_map_of_absent(es, p@);
        }
        None
    }

    /// Whether `p` is recorded.
    pub fn contains(&self, p: &[u8]) -> (r: bool)
        ensures
            r == self@.contains_key(p@),
    {
        self.get(p).is_some()
    }

    /// Records `a` for `p`, replacing any earlier address.
    pub fn insert(&mut self, p: Vec<u8>, a: u32)
        ensures
            final(self)@ == old(self)@.insert(p@, a),
    {
        broadcast use vstd::std_specs::hash::group_hash_axioms;
        let ghost old_self = self@;
        let ghost old_m = self.buckets@;
        let h = fingerprint_of(p.as_slice());
        let mut bucket = match self.buckets.remove(&h) {
            Some(b) => b,
            None => Vec::new(),
        };
        let ghost old_es = entries_view(bucket@);
        proof {
            if old_m.contains_key(h) {
                assert(old_es == entries_view(old_m[h]@));
            } else {
                assert(old_es =~= Seq::<(Seq<u8>, u32)>::empty());
            }
        }
        let ghost pv = p@;
        bucket.push((p, a));
        proof {
            assert(entries_view(bucket@) =~= old_es.push((pv, a)));
            assert(entries_view(bucket@).drop_last() =~= old_es);
        }
        self.buckets.insert(h, bucket);
        proof {
            let m = self.buckets@;
            assert(m == old_m.remove(h).insert(h, bucket));
            assert forall|q: Seq<u8>| #[trigger] bucket_map(m, q) == if fingerprint(q, q.len() as int) == h {
                bucket_map(old_m, q).insert(pv, a)
            } else {
                bucket_map(old_m, q)
            } by {
                if fingerprint(q, q.len() as int) == h {
                    assert(bucket_map(m, q) == map_of(entries_view(bucket@)));
                    if !old_m.contains_key(h) {
                        assert(map_of(old_es) =~= Map::<Seq<u8>, u32>::empty());
                    }
                }
            }
            assert(self@ =~= old_self.insert(pv, a));
        }
    }
}

/// Builds the Path Index of a well-formed store.
pub fn build_path_to_index_map(file_db: &FileDb) -> (r: PathIndex)
    requires
        wf(db_view(file_db@)),
    ensures
        r@ == path_index_of(db_view(file_db@)),
{
    let ghost s = db_view(file_db@);
    let mut index = PathIndex::new();
    let mut i: usize = 0;
    while i < file_db.len()
        invariant
            s == db_view(file_db@),
            wf(s),
            i <= s.len(),
            index@ == index_upto(s, i as int),
        decreases s.len() - i,
    {
        if file_db[i].is_dir {
            proof {
                lemma_walk_wf(s, i as int, s.len());
            }
            match get_full_path(file_db, i as u32) {
                Ok(p) => {
                    index.insert(p, i as u32);
                },
                Err(_) => {},
            }
        }
        i = i + 1;
    }
    index
}

} // verus!
