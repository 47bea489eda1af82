//! A block store in a SQLite database: the reference outside backend.
//!
//! Schema: a `Blocks` table keyed by block identifier holding opaque
//! bytes, and a `Metadata` table holding a single format-version
//! identifier written at creation and checked at every open.  The open
//! logic — when a store is created, reused or truncated, and when a
//! version mismatch is refused — is verified; the SQL statements behind
//! it are trusted to treat the `Blocks` table as the block map the
//! `DataStore` contract describes.
use rusqlite::OptionalExtension;
use vstd::prelude::*;

use crate::bytes::bytes_eq;
use crate::errors::RepoError;
use crate::store::{lists_blocks, DataStore};

verus! {

#[verifier::external_type_specification]
#[verifier::external_body]
pub struct ExConnection(rusqlite::Connection);

/// How `open` treats an existing or missing store.
#[derive(Debug, Clone, Copy, PartialEq, Eq, Structural)]
pub enum OpenOption {
    /// Open the store, creating it if it is missing.
    Create,
    /// Create a new store; fail with `AlreadyExists` if one exists.
    CreateNew,
    /// Open an existing store and drop all its blocks.
    Truncate,
}

/// A `DataStore` which stores blocks in a SQLite database.
pub struct SqliteStore {
    connection: rusqlite::Connection,
    blocks: Ghost<Map<Seq<u8>, Seq<u8>>>,
}

/// The block map of a store that holds nothing.
pub open spec fn no_blocks() -> Map<Seq<u8>, Seq<u8>> {
    Map::empty()
}

/// Relies on std::path::Path::is_file: whether `path` names an existing
/// regular file; the answer depends on the file system, so nothing more
/// is promised.
#[verifier::external_body]
fn path_is_file(path: &str) -> (r: bool) {
    std::path::Path::new(path).is_file()
}

/// Relies on rusqlite::Connection::open and execute_batch: a fresh
/// database with an empty `Blocks` table and the given version recorded —
/// so the store's block map starts empty.
#[verifier::external_body]
fn connect_fresh(path: &str, version: &Vec<u8>) -> (r: Result<SqliteStore, RepoError>)
    ensures
        r matches Ok(s) ==> s.blocks() == no_blocks(),
        r matches Err(e) ==> e == RepoError::Backend,
{
    let connection = rusqlite::Connection::open(path).map_err(|_| RepoError::Backend)?;
    connection
        .execute_batch(
            "CREATE TABLE Blocks (id BLOB PRIMARY KEY, data BLOB NOT NULL);
             CREATE TABLE Metadata (key TEXT PRIMARY KEY, value BLOB NOT NULL);",
        )
        .map_err(|_| RepoError::Backend)?;
    connection
        .execute("INSERT INTO Metadata (key, value) VALUES ('version', ?1);", (version,))
        .map_err(|_| RepoError::Backend)?;
    Ok(SqliteStore { connection, blocks: Ghost(Map::empty()) })
}

/// Relies on rusqlite::Connection::open and query_row: the store at
/// `path` with the format-version bytes it recorded.  Its block map is
/// whatever the `Blocks` table holds, so the contract leaves it
/// unconstrained; the block wrappers below speak relative to it.
#[verifier::external_body]
fn connect_existing(path: &str) -> (r: Result<(SqliteStore, Vec<u8>), RepoError>)
    ensures
        r matches Err(e) ==> (e == RepoError::Backend || e == RepoError::UnsupportedFormat),
{
    let connection = rusqlite::Connection::open(path).map_err(|_| RepoError::Backend)?;
    let version: Vec<u8> = connection
        .query_row("SELECT value FROM Metadata WHERE key = 'version';", [], |row| row.get(0))
        .map_err(|_| RepoError::UnsupportedFormat)?;
    Ok((SqliteStore { connection, blocks: Ghost(Map::empty()) }, version))
}

/// Relies on rusqlite::Connection::execute with DELETE: every row of
/// `Blocks` is dropped, so the block map is empty afterwards.
#[verifier::external_body]
fn truncate_blocks(s: &mut SqliteStore) -> (r: Result<(), RepoError>)
    ensures
        r is Ok ==> final(s).blocks() == no_blocks(),
        r is Err ==> final(s).blocks() == old(s).blocks(),
        r matches Err(e) ==> e == RepoError::Backend,
{
    s.connection.execute("DELETE FROM Blocks;", []).map_err(|_| RepoError::Backend)?;
    Ok(())
}

/// The version identifier this build writes and accepts.
fn current_version() -> (r: Vec<u8>)
    ensures
        r@.len() == 16,
{
    let mut v: Vec<u8> = Vec::new();
    let mut i: usize = 0;
    while i < 16
        invariant
            v@.len() == i,
            i <= 16,
        decreases 16 - i,
    {
        v.push(i as u8);
        i = i + 1;
    }
    v
}

impl SqliteStore {
    /// Open a store at `path` under the given option: `CreateNew` fails
    /// with `AlreadyExists` on an existing store and hands back an empty
    /// one; `Create` reuses or creates one; `Truncate` clears all stored
    /// blocks after a successful open.  Opening an existing store refuses
    /// a format version this build does not write with
    /// `UnsupportedFormat`.
    pub fn open(path: &str, option: OpenOption) -> (r: Result<SqliteStore, RepoError>)
        ensures
            option == OpenOption::CreateNew ==> (r matches Ok(s) ==> s.blocks() == no_blocks()),
            option == OpenOption::Truncate ==> (r matches Ok(s) ==> s.blocks() == no_blocks()),
            r matches Err(e) ==> (e == RepoError::AlreadyExists || e == RepoError::NotFound || e
                == RepoError::UnsupportedFormat || e == RepoError::Backend),
    {
        let version = current_version();
        let exists = path_is_file(path);
        if option == OpenOption::CreateNew && exists {
            return Err(RepoError::AlreadyExists);
        }
        if !exists {
            if option == OpenOption::Truncate {
                return Err(RepoError::NotFound);
            }
            return connect_fresh(path, &version);
        }
        let (mut store, stored) = connect_existing(path)?;
        if !bytes_eq(stored.as_slice(), version.as_slice()) {
            return Err(RepoError::UnsupportedFormat);
        }
        if option == OpenOption::Truncate {
            truncate_blocks(&mut store)?;
        }
        Ok(store)
    }
}

/// Relies on rusqlite::Connection::execute with REPLACE INTO: the row
/// under `id` holds exactly `data` afterwards, and no other row changes.
#[verifier::external_body]
fn sql_write_block(s: &mut SqliteStore, id: &Vec<u8>, data: &Vec<u8>) -> (r: Result<
    (),
    RepoError,
>)
    ensures
        r is Ok ==> final(s).blocks() == old(s).blocks().insert(id@, data@),
        r is Err ==> final(s).blocks() == old(s).blocks(),
        r matches Err(e) ==> e == RepoError::Backend,
{
    s.connection
        .execute("REPLACE INTO Blocks (id, data) VALUES (?1, ?2);", (id, data))
        .map_err(|_| RepoError::Backend)?;
    Ok(())
}

/// Relies on rusqlite::Connection::query_row with OptionalExtension: the
/// row under `id`, or nothing, leaving the table as it was.
#[verifier::external_body]
fn sql_read_block(s: &mut SqliteStore, id: &Vec<u8>) -> (r: Result<Option<Vec<u8>>, RepoError>)
    ensures
        final(s).blocks() == old(s).blocks(),
        r matches Ok(Some(v)) ==> old(s).blocks().contains_key(id@) && v@ == old(s).blocks()[id@],
        r matches Ok(None) ==> !old(s).blocks().contains_key(id@),
        r matches Err(e) ==> e == RepoError::Backend,
{
    s.connection
        .query_row("SELECT data FROM Blocks WHERE id = ?1;", (id,), |row| row.get(0))
        .optional()
        .map_err(|_| RepoError::Backend)
}

/// Relies on rusqlite::Connection::execute with DELETE: the row under
/// `id` is gone afterwards, whether or not it existed.
#[verifier::external_body]
fn sql_remove_block(s: &mut SqliteStore, id: &Vec<u8>) -> (r: Result<(), RepoError>)
    ensures
        r is Ok ==> final(s).blocks() == old(s).blocks().remove(id@),
        r is Err ==> final(s).blocks() == old(s).blocks(),
        r matches Err(e) ==> e == RepoError::Backend,
{
    s.connection
        .execute("DELETE FROM Blocks WHERE id = ?1;", (id,))
        .map_err(|_| RepoError::Backend)?;
    Ok(())
}

/// Relies on rusqlite::Connection::prepare and query_map over SELECT id:
/// every stored identifier, each once (`id` is the primary key).
#[verifier::external_body]
fn sql_list_blocks(s: &mut SqliteStore) -> (r: Result<Vec<Vec<u8>>, RepoError>)
    ensures
        final(s).blocks() == old(s).blocks(),
        r matches Ok(ids) ==> lists_blocks(old(s).blocks(), ids@),
        r matches Err(e) ==> e == RepoError::Backend,
{
    let mut statement = s.connection.prepare("SELECT id FROM Blocks;").map_err(
        |_| RepoError::Backend,
    )?;
    let rows = statement.query_map([], |row| row.get::<_, Vec<u8>>(0)).map_err(
        |_| RepoError::Backend,
    )?;
    let mut out = Vec::new();
    for row in rows {
        out.push(row.map_err(|_| RepoError::Backend)?);
    }
    Ok(out)
}

impl DataStore for SqliteStore {
    closed spec fn blocks(&self) -> Map<Seq<u8>, Seq<u8>> {
        self.blocks@
    }

    fn write_block(&mut self, id: &Vec<u8>, data: &Vec<u8>) -> (r: Result<(), RepoError>) {
        sql_write_block(self, id, data)
    }

    fn read_block(&mut self, id: &Vec<u8>) -> (r: Result<Option<Vec<u8>>, RepoError>) {
        sql_read_block(self, id)
    }

    fn remove_block(&mut self, id: &Vec<u8>) -> (r: Result<(), RepoError>) {
        sql_remove_block(self, id)
    }

    fn list_blocks(&mut self) -> (r: Result<Vec<Vec<u8>>, RepoError>) {
        sql_list_blocks(self)
    }
}
} // verus!
