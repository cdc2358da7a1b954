//! Listings and totals of a catalog.
use vstd::prelude::*;

use crate::path::{path_starts_with, strip_trailing, strip_trailing_slashes, under};
use crate::store::{all_full_paths, db_view, full_path, get_full_path, path_of, wf, EntryView, FileDb, FileDbError, MAX_NODES};

verus! {

/// The decimal digits of `n`.
pub open spec fn decimal(n: nat) -> Seq<u8>
    decreases n,
{
    if n < 10 {
        seq![(48 + n) as u8]
    } else {
        decimal(n / 10).push((48 + n % 10) as u8)
    }
}

/// The bytes of `h` in decimal, separated by `, `.
pub open spec fn decimal_list(h: Seq<u8>) -> Seq<u8>
    decreases h.len(),
{
    if h.len() == 0 {
        Seq::empty()
    } else if h.len() == 1 {
        decimal(h[0] as nat)
    } else {
        decimal_list(h.drop_last()) + seq![44u8, 32u8] + decimal(h.last() as nat)
    }
}

/// A hash as text: its bytes in decimal, in brackets.
pub open spec fn hash_text(h: Seq<u8>) -> Seq<u8> {
    seq![91u8] + decimal_list(h) + seq![93u8]
}

/// A line of the full listing: path, size and hash, separated by spaces.
pub open spec fn full_line(path: Seq<u8>, e: EntryView) -> Seq<u8> {
    path + seq![32u8] + decimal(e.size as nat) + seq![32u8] + hash_text(e.hash)
}

/// Whether every node's parent chain reaches the root.
pub open spec fn all_paths_ok(s: Seq<EntryView>) -> bool {
    forall|i: int| 0 <= i < s.len() ==> (#[trigger] full_path(s, i)) is Some
}

fn push_decimal(out: &mut Vec<u8>, n: u64)
    ensures
        final(out)@ == old(out)@ + decimal(n as nat),
    decreases n,
{
    if n >= 10 {
        push_decimal(out, n / 10);
    }
    out.push((48 + n % 10) as u8);
    proof {
        if n < 10 {
            assert(n % 10 == n);
        }
    }
    assert(final(out)@ =~= old(out)@ + decimal(n as nat)) by {
        if n >= 10 {
            assert(decimal(n as nat) == decimal((n / 10) as nat).push((48 + n % 10) as u8));
        }
    }
}

fn push_hash_text(out: &mut Vec<u8>, h: &[u8; 32])
    ensures
        final(out)@ == old(out)@ + hash_text(h@),
{
    out.push(91u8);
    let ghost start = out@;
    let mut k: usize = 0;
    assert(h@.take(0) =~= Seq::<u8>::empty());
    while k < 32
        invariant
            k <= 32,
            h@.len() == 32,
            out@ == start + decimal_list(h@.take(k as int)),
        decreases 32 - k,
    {
        let ghost before = out@;
        if k > 0 {
            out.push(44u8);
            out.push(32u8);
        }
        push_decimal(&mut *out, h[k] as u64);
        proof {
            assert(h@.take(k + 1).drop_last() =~= h@.take(k as int));
            assert(h@.take(k + 1).last() == h@[k as int]);
            if k == 0 {
                assert(out@ =~= start + decimal_list(h@.take(1)));
            } else {
                assert(out@ =~= start + decimal_list(h@.take(k + 1)));
            }
        }
        k = k + 1;
    }
    assert(h@.take(32) =~= h@);
    out.push(93u8);
    assert(out@ =~= old(out)@ + hash_text(h@));
}

/// The full path of every node, by address; `CorruptIndex` when a parent
/// chain is broken or cyclic.
pub fn dump(file_db: &FileDb) -> (r: Result<Vec<Vec<u8>>, FileDbError>)
    requires
        file_db@.len() <= MAX_NODES,
    ensures
        r is Ok <==> all_paths_ok(db_view(file_db@)),
        r is Err ==> r == Err::<Vec<Vec<u8>>, FileDbError>(FileDbError::CorruptIndex),
        match r {
            Ok(lines) => lines@.len() == file_db@.len() && forall|i: int|
                0 <= i < lines@.len() ==> full_path(db_view(file_db@), i) == Some((#[trigger] lines@[i])@),
            Err(_) => true,
        },
{
    dump_helper(file_db, false)
}

/// As `dump`, each path followed by the node's size and hash (see
/// `full_line`).
pub fn dump_full(file_db: &FileDb) -> (r: Result<Vec<Vec<u8>>, FileDbError>)
    requires
        file_db@.len() <= MAX_NODES,
    ensures
        r is Ok <==> all_paths_ok(db_view(file_db@)),
        r is Err ==> r == Err::<Vec<Vec<u8>>, FileDbError>(FileDbError::CorruptIndex),
        match r {
            Ok(lines) => lines@.len() == file_db@.len() && forall|i: int|
                0 <= i < lines@.len() ==> Some((#[trigger] lines@[i])@) == match full_path(db_view(file_db@), i) {
                    Some(p) => Some(full_line(p, db_view(file_db@)[i])),
                    None => None,
                },
            Err(_) => true,
        },
{
    dump_helper(file_db, true)
}

fn dump_helper(file_db: &FileDb, full: bool) -> (r: Result<Vec<Vec<u8>>, FileDbError>)
    requires
        file_db@.len() <= MAX_NODES,
    ensures
        r is Ok <==> all_paths_ok(db_view(file_db@)),
        r is Err ==> r == Err::<Vec<Vec<u8>>, FileDbError>(FileDbError::CorruptIndex),
        match r {
            Ok(lines) => lines@.len() == file_db@.len() && forall|i: int|
                0 <= i < lines@.len() ==> Some((#[trigger] lines@[i])@) == match full_path(db_view(file_db@), i) {
                    Some(p) => Some(if full { full_line(p, db_view(file_db@)[i]) } else { p }),
                    None => None,
                },
            Err(_) => true,
        },
{
    let ghost s = db_view(file_db@);
    let mut lines: Vec<Vec<u8>> = Vec::new();
    let mut index: usize = 0;
    while index < file_db.len()
        invariant
            s == db_view(file_db@),
            s.len() <= MAX_NODES,
            index <= s.len(),
            lines@.len() == index,
            forall|i: int| 0 <= i < index ==> (#[trigger] full_path(s, i)) is Some,
            forall|i: int|
                0 <= i < index ==> Some((#[trigger] lines@[i])@) == match full_path(s, i) {
                    Some(p) => Some(if full { full_line(p, s[i]) } else { p }),
                    None => None,
                },
        decreases s.len() - index,
    {
        let path = match get_full_path(file_db, index as u32) {
            Ok(p) => p,
            Err(e) => {
                proof {
                    assert(full_path(s, index as int) is None);
                }
                return Err(e);
            },
        };
        let ghost pv = path@;
        let mut line = path;
        if full {
            let e = &file_db[index];
            line.push(32u8);
            push_decimal(&mut line, e.size);
            line.push(32u8);
            push_hash_text(&mut line, &e.hash);
            assert(line@ =~= full_line(pv, s[index as int]));
        }
        lines.push(line);
        index = index + 1;
    }
    Ok(lines)
}

/// The number of the first `n` nodes under `prefix` (all, when absent)
/// that are directories (`dirs == true`) or files.
pub open spec fn count_kind(s: Seq<EntryView>, prefix: Option<Seq<u8>>, dirs: bool, n: int) -> nat
    decreases n,
{
    if n <= 0 {
        0
    } else {
        count_kind(s, prefix, dirs, n - 1) + if s[n - 1].is_dir == dirs && match prefix {
            Some(t) => under(path_of(s, n - 1), t),
            None => true,
        } {
            1nat
        } else {
            0nat
        }
    }
}

/// The total size of the first `n` nodes' files under `prefix`.
pub open spec fn file_bytes(s: Seq<EntryView>, prefix: Option<Seq<u8>>, n: int) -> nat
    decreases n,
{
    if n <= 0 {
        0
    } else {
        file_bytes(s, prefix, n - 1) + if !s[n - 1].is_dir && match prefix {
            Some(t) => under(path_of(s, n - 1), t),
            None => true,
        } {
            s[n - 1].size as nat
        } else {
            0nat
        }
    }
}

/// Totals of a catalog.
pub struct Stats {
    pub entries: u64,
    pub files: u64,
    pub dirs: u64,
    pub size: u128,
    /// The largest node of the whole store (the last of equal ones).
    pub largest: Option<u32>,
}

/// Counts the files and directories under `prefix` (everything when
/// absent; trailing separators ignored) and the files' total size, and
/// finds the largest node.
pub fn stats(file_db: &FileDb, prefix: &Option<Vec<u8>>) -> (r: Stats)
    requires
        wf(db_view(file_db@)),
    ensures
        r.entries == file_db@.len(),
        r.files == count_kind(db_view(file_db@), match prefix { Some(t) => Some(strip_trailing(t@)), None => None }, false, file_db@.len() as int),
        r.dirs == count_kind(db_view(file_db@), match prefix { Some(t) => Some(strip_trailing(t@)), None => None }, true, file_db@.len() as int),
        r.size == file_bytes(db_view(file_db@), match prefix { Some(t) => Some(strip_trailing(t@)), None => None }, file_db@.len() as int),
        match r.largest {
            Some(k) => k < file_db@.len() && (forall|i: int| 0 <= i < file_db@.len() ==> #[trigger] file_db@[i].size <= file_db@[k as int].size)
                && (forall|i: int| k < i < file_db@.len() ==> #[trigger] file_db@[i].size < file_db@[k as int].size),
            None => file_db@.len() == 0,
        },
{
    let prefix_v: Option<Vec<u8>> = match prefix {
        Some(t) => Some(strip_trailing_slashes(t.as_slice())),
        None => None,
    };
    let prefix = &prefix_v;
    let ghost s = db_view(file_db@);
    let ghost pv: Option<Seq<u8>> = match prefix { Some(t) => Some(t@), None => None };
    let n = file_db.len();
    let paths = all_full_paths(file_db);
    let mut files: u64 = 0;
    let mut dirs: u64 = 0;
    let mut size: u128 = 0;
    let mut largest: Option<u32> = None;
    let mut i: usize = 0;
    while i < n
        invariant
            s == db_view(file_db@),
            n == s.len(),
            n <= 0xffff_fffe,
            i <= n,
            pv == match prefix { Some(t) => Some(t@), None => None::<Seq<u8>> },
            paths@.len() == n,
            forall|k: int| 0 <= k < n ==> (#[trigger] paths@[k])@ == path_of(s, k),
            files == count_kind(s, pv, false, i as int),
            dirs == count_kind(s, pv, true, i as int),
            files + dirs <= i,
            size == file_bytes(s, pv, i as int),
            size <= i * 0xffff_ffff_ffff_ffff,
            match largest {
                Some(k) => k < i && (forall|j: int| 0 <= j < i ==> #[trigger] file_db@[j].size <= file_db@[k as int].size)
                    && (forall|j: int| k < j < i ==> #[trigger] file_db@[j].size < file_db@[k as int].size),
                None => i == 0,
            },
        decreases n - i,
    {
        let e = &file_db[i];
        let counted = match prefix {
            Some(t) => path_starts_with(paths[i].as_slice(), t.as_slice()),
            None => true,
        };
        if counted {
            if e.is_dir {
                dirs = dirs + 1;
            } else {
                files = files + 1;
                assert(size + e.size <= (i + 1) * 0xffff_ffff_ffff_ffff) by (nonlinear_arith)
                    requires
                        size <= i * 0xffff_ffff_ffff_ffff,
                        e.size <= 0xffff_ffff_ffff_ffff,
                ;
                assert((i + 1) * 0xffff_ffff_ffff_ffff <= 0x1_0000_0000 * 0xffff_ffff_ffff_ffff) by (nonlinear_arith)
                    requires
                        i + 1 <= 0x1_0000_0000,
                ;
                size = size + e.size as u128;
            }
        } else {
            assert(size <= (i + 1) * 0xffff_ffff_ffff_ffff) by (nonlinear_arith)
                requires
                    size <= i * 0xffff_ffff_ffff_ffff,
            ;
        }
        if e.is_dir {
            assert(size <= (i + 1) * 0xffff_ffff_ffff_ffff) by (nonlinear_arith)
                requires
                    size <= i * 0xffff_ffff_ffff_ffff,
            ;
        }
        largest = match largest {
            None => Some(i as u32),
            Some(k) => if e.size >= file_db[k as usize].size {
                Some(i as u32)
            } else {
                Some(k)
            },
        };
        i = i + 1;
    }
    Stats { entries: n as u64, files, dirs, size, largest }
}

} // verus!
