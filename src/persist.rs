//! The catalog's byte form: the node list, each node as a plain row,
//! serialised by bincode inside a zlib stream.
use vstd::prelude::*;

use crate::store::{check_store, copy_entry, db_view, lemma_db_view_push, wf, EntryView, FileDb, FileDbEntry, FileDbError};

verus! {

/// One node as bincode writes it: a platform tag (0, a Unix byte string),
/// the name, `is_dir`, `parent`, `size`, `modified`, `accessed` and the hash.
pub type Row = (u32, Vec<u8>, bool, u32, u64, u64, u64, [u8; 32]);

/// The value of a row.
pub type RowView = (u32, Seq<u8>, bool, u32, u64, u64, u64, Seq<u8>);

/// The value of a row.
pub open spec fn row_view(r: Row) -> RowView {
    (r.0, r.1@, r.2, r.3, r.4, r.5, r.6, r.7@)
}

/// The values of rows.
pub open spec fn rows_view(rs: Seq<Row>) -> Seq<RowView> {
    rs.map_values(|r: Row| row_view(r))
}

/// The row of a node.
pub open spec fn row_of(e: EntryView) -> RowView {
    (0u32, e.name, e.is_dir, e.parent, e.size, e.modified, e.accessed, e.hash)
}

/// The rows of a store.
pub open spec fn rows_of(s: Seq<EntryView>) -> Seq<RowView> {
    s.map_values(|e: EntryView| row_of(e))
}

/// The node of a row.
pub open spec fn entry_of(r: RowView) -> EntryView {
    EntryView { name: r.1, is_dir: r.2, parent: r.3, size: r.4, modified: r.5, accessed: r.6, hash: r.7 }
}

/// The store that rows hold, when every platform tag is 0.
pub open spec fn entries_of(rs: Seq<RowView>) -> Option<Seq<EntryView>> {
    if forall|k: int| 0 <= k < rs.len() ==> (#[trigger] rs[k]).0 == 0 {
        Some(rs.map_values(|r: RowView| entry_of(r)))
    } else {
        None
    }
}

/// The bytes that `bincode::serialize` writes for the rows.
pub uninterp spec fn bincode_of(rows: Seq<RowView>) -> Seq<u8>;

/// The rows that `bincode::deserialize` reads from the bytes, if any.
pub uninterp spec fn bincode_rows_of(bytes: Seq<u8>) -> Option<Seq<RowView>>;

/// Relies on `bincode::serialize` (default options: fixed-width
/// little-endian integers, 8-byte lengths, no size limit): the encoding of
/// the rows, which `bincode::deserialize` reads back. Serialising plain
/// rows into a `Vec` does not fail.
#[verifier::external_body]
fn bincode_encode(rows: &Vec<Row>) -> (r: Vec<u8>)
    ensures
        r@ == bincode_of(rows_view(rows@)),
        bincode_rows_of(r@) == Some(rows_view(rows@)),
{
    bincode::serialize(rows).expect("serialising plain rows does not fail")
}

/// Relies on `bincode::deserialize` (default options): the rows that it
/// reads from the bytes, or `None` when it fails.
#[verifier::external_body]
fn bincode_decode(bytes: &[u8]) -> (r: Option<Vec<Row>>)
    ensures
        match r {
            Some(v) => bincode_rows_of(bytes@) == Some(rows_view(v@)),
            None => bincode_rows_of(bytes@) is None,
        },
{
    bincode::deserialize(bytes).ok()
}

/// The serialised form of a store.
pub fn encode(file_db: &FileDb) -> (r: Vec<u8>)
    ensures
        r@ == bincode_of(rows_of(db_view(file_db@))),
        bincode_rows_of(r@) == Some(rows_of(db_view(file_db@))),
{
    let ghost s = db_view(file_db@);
    let mut rows: Vec<Row> = Vec::new();
    let mut i: usize = 0;
    while i < file_db.len()
        invariant
            s == db_view(file_db@),
            i <= s.len(),
            rows_view(rows@) == rows_of(s).take(i as int),
        decreases s.len() - i,
    {
        let e = copy_entry(&file_db[i]);
        let row: Row = (0u32, e.name, e.is_dir, e.parent, e.size, e.modified, e.accessed, e.hash);
        let ghost old_rows = rows@;
        assert(row_view(row) == rows_of(s)[i as int]);
        rows.push(row);
        assert(rows_view(rows@) =~= rows_view(old_rows).push(row_view(row)));
        i = i + 1;
        assert(rows_view(rows@) =~= rows_of(s).take(i as int));
    }
    assert(rows_of(s).take(i as int) =~= rows_of(s));
    bincode_encode(&rows)
}

/// Reads a store from its serialised form; `CorruptIndex` when bincode
/// cannot read rows from the bytes or a row has another platform tag.
pub fn decode(bytes: &[u8]) -> (r: Result<FileDb, FileDbError>)
    ensures
        match bincode_rows_of(bytes@) {
            Some(rs) => match entries_of(rs) {
                Some(s) => r is Ok && db_view(r->Ok_0@) == s,
                None => r == Err::<FileDb, FileDbError>(FileDbError::CorruptIndex),
            },
            None => r == Err::<FileDb, FileDbError>(FileDbError::CorruptIndex),
        },
{
    let rows = match bincode_decode(bytes) {
        Some(v) => v,
        None => return Err(FileDbError::CorruptIndex),
    };
    let ghost rs = rows_view(rows@);
    let mut db: FileDb = Vec::new();
    let mut i: usize = 0;
    assert(db_view(db@) =~= Seq::<EntryView>::empty());
    while i < rows.len()
        invariant
            rs == rows_view(rows@),
            bincode_rows_of(bytes@) == Some(rs),
            i <= rs.len(),
            forall|k: int| 0 <= k < i ==> (#[trigger] rs[k]).0 == 0,
            db_view(db@) == rs.take(i as int).map_values(|r: RowView| entry_of(r)),
        decreases rs.len() - i,
    {
        let row = &rows[i];
        if row.0 != 0 {
            assert(rs[i as int].0 != 0);
            assert(entries_of(rs) is None);
            return Err(FileDbError::CorruptIndex);
        }
        let e = FileDbEntry {
            name: crate::path::copy_bytes(row.1.as_slice()),
            is_dir: row.2,
            parent: row.3,
            size: row.4,
            modified: row.5,
            accessed: row.6,
            hash: row.7,
        };
        let ghost old_db = db@;
        assert(e@ == entry_of(rs[i as int]));
        db.push(e);
        proof {
            lemma_db_view_push(old_db, e);
            assert(rs.take(i + 1).map_values(|r: RowView| entry_of(r)) =~= rs.take(i as int).map_values(
                |r: RowView| entry_of(r),
            ).push(entry_of(rs[i as int])));
        }
        i = i + 1;
    }
    assert(rs.take(i as int) =~= rs);
    Ok(db)
}

/// The zlib stream that flate2 writes for `data` at its fast level.
pub uninterp spec fn zlib_fast_of(data: Seq<u8>) -> Seq<u8>;

/// What flate2's zlib decoder reads out of `data`; `None` when it fails.
pub uninterp spec fn zlib_inflate_of(data: Seq<u8>) -> Option<Seq<u8>>;

/// Relies on `flate2::write::ZlibEncoder` with `Compression::fast()`, writing
/// into a `Vec`: the zlib stream of the input, which is lossless, so the
/// zlib decoder reads the input back out of it. The encoder fails only when
/// its writer fails, and a `Vec` writer never does.
#[verifier::external_body]
fn zlib_compress(data: &[u8]) -> (r: Vec<u8>)
    ensures
        r@ == zlib_fast_of(data@),
        zlib_inflate_of(r@) == Some(data@),
{
    let mut enc = flate2::write::ZlibEncoder::new(Vec::new(), flate2::Compression::fast());
    std::io::Write::write_all(&mut enc, data).expect("writing into a Vec does not fail");
    enc.finish().expect("writing into a Vec does not fail")
}

/// Relies on `flate2::read::ZlibDecoder` over a byte slice: the bytes it
/// reads out of `data`, or `None` when reading fails.
#[verifier::external_body]
fn zlib_decompress(data: &[u8]) -> (r: Option<Vec<u8>>)
    ensures
        match r {
            Some(v) => zlib_inflate_of(data@) == Some(v@),
            None => zlib_inflate_of(data@) is None,
        },
{
    let mut out: Vec<u8> = Vec::new();
    match std::io::Read::read_to_end(&mut flate2::read::ZlibDecoder::new(data), &mut out) {
        Ok(_) => Some(out),
        Err(_) => None,
    }
}

/// The store that catalog bytes hold: `IoError` when they do not inflate,
/// `CorruptIndex` when bincode cannot read a store from the inflated bytes
/// or the store breaks the forest invariants.
pub open spec fn loaded(bytes: Seq<u8>) -> Result<Seq<EntryView>, FileDbError> {
    match zlib_inflate_of(bytes) {
        None => Err(FileDbError::IoError),
        Some(x) => match bincode_rows_of(x) {
            None => Err(FileDbError::CorruptIndex),
            Some(rs) => match entries_of(rs) {
                None => Err(FileDbError::CorruptIndex),
                Some(s) => if wf(s) {
                    Ok(s)
                } else {
                    Err(FileDbError::CorruptIndex)
                },
            },
        },
    }
}

/// The catalog bytes of a store: its serialised form, zlib-compressed.
pub fn save_compressed(file_db: &FileDb) -> (r: Vec<u8>)
    ensures
        r@ == zlib_fast_of(bincode_of(rows_of(db_view(file_db@)))),
        zlib_inflate_of(r@) == Some(bincode_of(rows_of(db_view(file_db@)))),
        bincode_rows_of(bincode_of(rows_of(db_view(file_db@)))) == Some(rows_of(db_view(file_db@))),
{
    let packed = encode(file_db);
    zlib_compress(packed.as_slice())
}

/// Reads a store back from catalog bytes (see `loaded`).
pub fn load_compressed(bytes: &[u8]) -> (r: Result<FileDb, FileDbError>)
    ensures
        match loaded(bytes@) {
            Ok(s) => r is Ok && db_view(r->Ok_0@) == s,
            Err(e) => r == Err::<FileDb, FileDbError>(e),
        },
{
    let raw = match zlib_decompress(bytes) {
        Some(v) => v,
        None => return Err(FileDbError::IoError),
    };
    let db = decode(raw.as_slice())?;
    check_store(&db)?;
    Ok(db)
}

/// Rows carry every field of a node: reading the rows of a store back
/// gives the store.
pub proof fn lemma_rows_round_trip(s: Seq<EntryView>)
    ensures
        entries_of(rows_of(s)) == Some(s),
{
    let rs = rows_of(s);
    assert forall|k: int| 0 <= k < rs.len() implies (#[trigger] rs[k]).0 == 0 by {}
    assert(rs.map_values(|r: RowView| entry_of(r)) =~= s);
}

/// Catalog round trip: the bytes that `save_compressed` gives for a
/// well-formed store (they inflate to its serialised form, which bincode
/// reads back as its rows) load back as that same store.
pub proof fn lemma_catalog_round_trip(db: Seq<FileDbEntry>, bytes: Seq<u8>)
    requires
        wf(db_view(db)),
        zlib_inflate_of(bytes) == Some(bincode_of(rows_of(db_view(db)))),
        bincode_rows_of(bincode_of(rows_of(db_view(db)))) == Some(rows_of(db_view(db))),
    ensures
        loaded(bytes) == Ok::<Seq<EntryView>, FileDbError>(db_view(db)),
{
    lemma_rows_round_trip(db_view(db));
}

} // verus!
