use vstd::prelude::*;

use crate::fingerprint::{FuzzyHash, FuzzyHashAlgorithm};
use crate::packing::{pack_bits, packs, unpack_bits, unpacked};
use rusqlite::OptionalExtension;

verus! {

#[verifier::external_type_specification]
#[verifier::external_body]
pub struct ExConnection(rusqlite::Connection);

#[verifier::external_type_specification]
#[verifier::external_body]
pub struct ExSqlError(rusqlite::Error);

const SCHEMA_SQL: &'static str = "PRAGMA journal_mode=WAL;
PRAGMA synchronous=NORMAL;
CREATE TABLE IF NOT EXISTS hash_cache (
    path TEXT NOT NULL,
    algo INTEGER NOT NULL,
    mtime INTEGER NOT NULL,
    size INTEGER NOT NULL,
    bits BLOB NOT NULL,
    bits_len INTEGER NOT NULL,
    PRIMARY KEY(path, algo)
);";

const SELECT_SQL: &'static str = "SELECT mtime, size, bits, bits_len FROM hash_cache WHERE path = ?1 AND algo = ?2";

const UPSERT_SQL: &'static str = "INSERT INTO hash_cache (path, algo, mtime, size, bits, bits_len)
VALUES (?1, ?2, ?3, ?4, ?5, ?6)
ON CONFLICT(path, algo) DO UPDATE SET
    mtime = excluded.mtime,
    size = excluded.size,
    bits = excluded.bits,
    bits_len = excluded.bits_len";

/// The validity stamp of an item: modification time in seconds and size in bytes.
#[derive(Clone, Copy, Debug, PartialEq, Eq, Structural)]
pub struct FileFingerprint {
    pub mtime: i64,
    pub size: i64,
}

/// One stored cache row, without its key.
#[derive(Debug)]
pub struct CacheRow {
    pub mtime: i64,
    pub size: i64,
    pub bits: Vec<u8>,
    pub bits_len: i64,
}

/// A failure of the cache's storage.
#[derive(Debug)]
pub enum CacheError {
    Database { path: String, source: rusqlite::Error },
}

/// `row` is what storing `bits` under `stamp` writes.
pub open spec fn stores(row: CacheRow, stamp: FileFingerprint, bits: Seq<bool>) -> bool {
    &&& row.mtime == stamp.mtime
    &&& row.size == stamp.size
    &&& packs(row.bits@, bits)
    &&& row.bits_len == bits.len()
}

/// The bits a lookup under `stamp` reads from `row`: none unless the stored stamp
/// equals `stamp` and the recorded length fits the stored bytes.
pub open spec fn row_lookup(row: CacheRow, stamp: FileFingerprint) -> Option<Seq<bool>> {
    if row.mtime == stamp.mtime && row.size == stamp.size && 0 <= row.bits_len <= 8
        * row.bits@.len() && row.bits_len <= usize::MAX {
        Some(unpacked(row.bits@, row.bits_len as nat))
    } else {
        None
    }
}

/// The row that storing `hash` under `stamp` writes.
pub fn stored_row(stamp: &FileFingerprint, hash: &FuzzyHash) -> (r: CacheRow)
    requires
        hash.bits.len() <= i64::MAX,
    ensures
        stores(r, *stamp, hash.bits@),
{
    let bits = pack_bits(&hash.bits);
    CacheRow { mtime: stamp.mtime, size: stamp.size, bits, bits_len: hash.bits.len() as i64 }
}

/// The fingerprint a row yields for a lookup under `stamp`, if the row is valid.
pub fn hash_from_row(row: &CacheRow, algo: FuzzyHashAlgorithm, stamp: &FileFingerprint) -> (r:
    Option<FuzzyHash>)
    ensures
        r.is_some() == row_lookup(*row, *stamp).is_some(),
        r matches Some(h) ==> h.algo == algo && row_lookup(*row, *stamp) == Some(h.bits@),
{
    if row.mtime == stamp.mtime && row.size == stamp.size && 0 <= row.bits_len && row.bits_len
        as u128 <= 8 * (row.bits.len() as u128) && row.bits_len as u128 <= usize::MAX as u128 {
        let len = row.bits_len as usize;
        let bits = unpack_bits(&row.bits, len);
        Some(FuzzyHash { algo, bits })
    } else {
        None
    }
}

/// Storing a fingerprint under a stamp and looking it up under the same stamp
/// gives back the identical bits; under any other stamp the lookup finds nothing.
pub proof fn lemma_cache_round_trip(
    row: CacheRow,
    stamp: FileFingerprint,
    other: FileFingerprint,
    hash: FuzzyHash,
)
    requires
        stores(row, stamp, hash.bits@),
    ensures
        row_lookup(row, stamp) == Some(hash.bits@),
        other != stamp ==> row_lookup(row, other).is_none(),
{
    let n = hash.bits@.len();
    assert(n <= 8 * ((n + 7) / 8)) by (nonlinear_arith);
    assert(hash.bits.len() == n);
    crate::packing::lemma_pack_round_trip(row.bits@, hash.bits@);
}

/// Relies on rusqlite::Connection::open: opens or creates the database file.
#[verifier::external_body]
fn open_connection(path: &str) -> (r: Result<rusqlite::Connection, rusqlite::Error>) {
    rusqlite::Connection::open(path)
}

/// Relies on rusqlite::Connection::execute_batch: runs statements without parameters.
#[verifier::external_body]
fn execute_batch(conn: &rusqlite::Connection, sql: &str) -> (r: Result<(), rusqlite::Error>) {
    conn.execute_batch(sql)
}

/// Relies on rusqlite::Connection::query_row: the first row of `sql` bound to the
/// key, read as four columns; no row reads as `None`.
#[verifier::external_body]
fn query_key_row(conn: &rusqlite::Connection, sql: &str, path: &str, algo: i64) -> (r: Result<
    Option<(i64, i64, Vec<u8>, i64)>,
    rusqlite::Error,
>) {
    conn.query_row(sql, (path, algo), |row| <(i64, i64, Vec<u8>, i64)>::try_from(row)).optional()
}

/// Relies on rusqlite::Connection::execute: runs `sql` with the key and the row bound.
#[verifier::external_body]
fn execute_row(
    conn: &rusqlite::Connection,
    sql: &str,
    path: &str,
    algo: i64,
    row: &CacheRow,
) -> (r: Result<usize, rusqlite::Error>) {
    conn.execute(sql, (path, algo, row.mtime, row.size, &row.bits, row.bits_len))
}

/// A persistent store of fingerprints keyed by item identity and algorithm.
pub struct HashCache {
    conn: rusqlite::Connection,
    path: String,
}

impl HashCache {
    /// Where the store lives.
    pub closed spec fn location(&self) -> Seq<char> {
        self.path@
    }

    /// Opens the store at `path`, creating its table when it is missing.
    pub fn open(path: &str) -> (r: Result<HashCache, CacheError>)
        ensures
            r matches Ok(c) ==> c.location() == path@,
            r matches Err(CacheError::Database { path: p, .. }) ==> p@ == path@,
    {
        let conn = match open_connection(path) {
            Ok(c) => c,
            Err(source) => {
                return Err(CacheError::Database { path: path.to_owned(), source });
            },
        };
        match execute_batch(&conn, SCHEMA_SQL) {
            Ok(()) => Ok(HashCache { conn, path: path.to_owned() }),
            Err(source) => Err(CacheError::Database { path: path.to_owned(), source }),
        }
    }

    pub fn path(&self) -> (r: &str)
        ensures
            r@ == self.location(),
    {
        self.path.as_str()
    }

    /// The cached fingerprint of `image_path` under `algo`, if a row exists and its
    /// stamp equals `stamp`; a missing row, another stamp or a storage failure is a miss.
    pub fn lookup(&self, image_path: &str, algo: FuzzyHashAlgorithm, stamp: &FileFingerprint) -> (r:
        Option<FuzzyHash>)
        ensures
            r matches Some(h) ==> h.algo == algo,
    {
        match query_key_row(&self.conn, SELECT_SQL, image_path, algo.code()) {
            Ok(Some((mtime, size, bits, bits_len))) => {
                let row = CacheRow { mtime, size, bits, bits_len };
                hash_from_row(&row, algo, stamp)
            },
            Ok(None) => None,
            Err(_) => None,
        }
    }

    /// Writes `hash` under `stamp` for `image_path` and `algo`, replacing any earlier row.
    pub fn store(
        &self,
        image_path: &str,
        algo: FuzzyHashAlgorithm,
        stamp: &FileFingerprint,
        hash: &FuzzyHash,
    ) -> (r: Result<(), CacheError>)
        requires
            hash.bits.len() <= i64::MAX,
        ensures
            r matches Err(CacheError::Database { path: p, .. }) ==> p@ == self.location(),
    {
        let row = stored_row(stamp, hash);
        match execute_row(&self.conn, UPSERT_SQL, image_path, algo.code(), &row) {
            Ok(_) => Ok(()),
            Err(source) => Err(CacheError::Database { path: self.path.clone(), source }),
        }
    }
}

} // verus!
