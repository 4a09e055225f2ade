//! The handle tables behind the SQLite3 bindings.
//!
//! Guest code sees 32-bit opaque handles for `sqlite3` and `sqlite3_stmt`
//! objects; the tables map each handle to the address of the host object.
//! Text and blob columns handed to the guest are copied into guest buffers,
//! recorded per statement handle and column.

use std::collections::HashMap;
use vstd::prelude::*;

verus! {

broadcast use vstd::std_specs::hash::group_hash_axioms;

/// SQLite's result code for a generic error.
pub const SQLITE_ERROR: i32 = 1;

/// SQLite's result code for a statement that has finished.
pub const SQLITE_DONE: i32 = 101;

/// What a binding does once it has looked up its handle: call into SQLite
/// with the host object, or answer the guest at once (with a result code,
/// or `0` for a null pointer).
#[derive(Clone, Copy, Debug, PartialEq, Eq, Structural)]
pub enum Next {
    Host(u64),
    Answer(i32),
}

/// The bindings that work on a prepared statement without closing it.
#[derive(Clone, Copy, Debug, PartialEq, Eq, Structural)]
pub enum StmtCall {
    Reset,
    Step,
    BindParameterIndex,
    BindText,
    BindBlob,
    ColumnCount,
    ColumnInt,
    ColumnText,
    ColumnBlob,
    ColumnBytes,
    ColumnName,
}

/// What a statement binding answers for an unknown handle: `SQLITE_DONE`
/// for a step, and `0` (or a null pointer) for every other call.
pub open spec fn unknown_stmt_answer(call: StmtCall) -> i32 {
    if call == StmtCall::Step {
        SQLITE_DONE
    } else {
        0
    }
}

/// A guest buffer recorded for a (statement handle, column) pair.
pub type BufferEntry = ((u32, i32), u32);

/// `entries` with `buf` recorded for `key`: an existing key keeps its place
/// and takes the new buffer, a new key goes at the end.
pub open spec fn record_buffer(entries: Seq<BufferEntry>, key: (u32, i32), buf: u32) -> Seq<
    BufferEntry,
> {
    crate::plist_model::dict_insert(entries, key, buf)
}

/// The handle tables of the SQLite3 bindings.
pub struct State {
    db_handles: HashMap<u32, u64>,
    stmt_handles: HashMap<u32, u64>,
    string_bufs: Vec<BufferEntry>,
    blob_bufs: Vec<BufferEntry>,
}

impl State {
    /// No (statement handle, column) pair has two buffers recorded.
    #[verifier::type_invariant]
    closed spec fn buffers_distinct(self) -> bool {
        crate::plist_model::keys_unique(self.string_bufs@) && crate::plist_model::keys_unique(
            self.blob_bufs@,
        )
    }

    /// Open databases: guest handle to host `sqlite3` address.
    pub closed spec fn dbs(&self) -> Map<u32, u64> {
        self.db_handles@
    }

    /// Prepared statements: guest handle to host `sqlite3_stmt` address.
    pub closed spec fn stmts(&self) -> Map<u32, u64> {
        self.stmt_handles@
    }

    /// Guest buffers holding text columns, by (statement handle, column).
    pub closed spec fn string_buffers(&self) -> Seq<BufferEntry> {
        self.string_bufs@
    }

    /// Guest buffers holding blob columns, by (statement handle, column).
    pub closed spec fn blob_buffers(&self) -> Seq<BufferEntry> {
        self.blob_bufs@
    }

    /// Empty tables.
    pub fn new() -> (s: Self)
        ensures
            s.dbs() == Map::<u32, u64>::empty(),
            s.stmts() == Map::<u32, u64>::empty(),
            s.string_buffers() == Seq::<BufferEntry>::empty(),
            s.blob_buffers() == Seq::<BufferEntry>::empty(),
    {
        State {
            db_handles: HashMap::new(),
            stmt_handles: HashMap::new(),
            string_bufs: Vec::new(),
            blob_bufs: Vec::new(),
        }
    }

    /// Records an opened database under `handle`.
    pub fn register_db(&mut self, handle: u32, raw_db: u64)
        ensures
            final(self).dbs() == old(self).dbs().insert(handle, raw_db),
            final(self).stmts() == old(self).stmts(),
            final(self).string_buffers() == old(self).string_buffers(),
            final(self).blob_buffers() == old(self).blob_buffers(),
    {
        proof {
            use_type_invariant(&*self);
        }
        let mut table: HashMap<u32, u64> = HashMap::new();
        std::mem::swap(&mut table, &mut self.db_handles);
        table.insert(handle, raw_db);
        self.db_handles = table;
    }

    /// The database recorded under `handle`, if any.
    pub fn db(&self, handle: u32) -> (raw_db: Option<u64>)
        ensures
            raw_db == (if self.dbs().contains_key(handle) {
                Some(self.dbs()[handle])
            } else {
                None
            }),
    {
        match self.db_handles.get(&handle) {
            Some(raw) => Some(*raw),
            None => None,
        }
    }

    /// Removes the database recorded under `handle` and returns it, as
    /// closing a database does; `None` for an unknown handle.
    pub fn take_db(&mut self, handle: u32) -> (raw_db: Option<u64>)
        ensures
            raw_db == (if old(self).dbs().contains_key(handle) {
                Some(old(self).dbs()[handle])
            } else {
                None
            }),
            final(self).dbs() == old(self).dbs().remove(handle),
            final(self).stmts() == old(self).stmts(),
            final(self).string_buffers() == old(self).string_buffers(),
            final(self).blob_buffers() == old(self).blob_buffers(),
    {
        proof {
            use_type_invariant(&*self);
        }
        let mut table: HashMap<u32, u64> = HashMap::new();
        std::mem::swap(&mut table, &mut self.db_handles);
        let raw_db = table.remove(&handle);
        self.db_handles = table;
        raw_db
    }

    /// Records a prepared statement under `handle`.
    pub fn register_stmt(&mut self, handle: u32, raw_stmt: u64)
        ensures
            final(self).stmts() == old(self).stmts().insert(handle, raw_stmt),
            final(self).dbs() == old(self).dbs(),
            final(self).string_buffers() == old(self).string_buffers(),
            final(self).blob_buffers() == old(self).blob_buffers(),
    {
        proof {
            use_type_invariant(&*self);
        }
        let mut table: HashMap<u32, u64> = HashMap::new();
        std::mem::swap(&mut table, &mut self.stmt_handles);
        table.insert(handle, raw_stmt);
        self.stmt_handles = table;
    }

    /// The statement recorded under `handle`, if any.
    pub fn stmt(&self, handle: u32) -> (raw_stmt: Option<u64>)
        ensures
            raw_stmt == (if self.stmts().contains_key(handle) {
                Some(self.stmts()[handle])
            } else {
                None
            }),
    {
        match self.stmt_handles.get(&handle) {
            Some(raw) => Some(*raw),
            None => None,
        }
    }

    /// Removes the statement recorded under `handle` and returns it, as
    /// finalizing a statement does; `None` for an unknown handle.
    pub fn take_stmt(&mut self, handle: u32) -> (raw_stmt: Option<u64>)
        ensures
            raw_stmt == (if old(self).stmts().contains_key(handle) {
                Some(old(self).stmts()[handle])
            } else {
                None
            }),
            final(self).stmts() == old(self).stmts().remove(handle),
            final(self).dbs() == old(self).dbs(),
            final(self).string_buffers() == old(self).string_buffers(),
            final(self).blob_buffers() == old(self).blob_buffers(),
    {
        proof {
            use_type_invariant(&*self);
        }
        let mut table: HashMap<u32, u64> = HashMap::new();
        std::mem::swap(&mut table, &mut self.stmt_handles);
        let raw_stmt = table.remove(&handle);
        self.stmt_handles = table;
        raw_stmt
    }

    /// Records the guest buffer holding text column `col` of statement `stmt`.
    pub fn record_string_buf(&mut self, stmt: u32, col: i32, buf: u32)
        ensures
            final(self).string_buffers() == record_buffer(
                old(self).string_buffers(),
                (stmt, col),
                buf,
            ),
            final(self).dbs() == old(self).dbs(),
            final(self).stmts() == old(self).stmts(),
            final(self).blob_buffers() == old(self).blob_buffers(),
            crate::plist_model::keys_unique(final(self).string_buffers()),
    {
        proof {
            use_type_invariant(&*self);
        }
        let mut bufs: Vec<BufferEntry> = Vec::new();
        std::mem::swap(&mut bufs, &mut self.string_bufs);
        record_in(&mut bufs, (stmt, col), buf);
        self.string_bufs = bufs;
    }

    /// Records the guest buffer holding blob column `col` of statement `stmt`.
    pub fn record_blob_buf(&mut self, stmt: u32, col: i32, buf: u32)
        ensures
            final(self).blob_buffers() == record_buffer(
                old(self).blob_buffers(),
                (stmt, col),
                buf,
            ),
            final(self).dbs() == old(self).dbs(),
            final(self).stmts() == old(self).stmts(),
            final(self).string_buffers() == old(self).string_buffers(),
            crate::plist_model::keys_unique(final(self).blob_buffers()),
    {
        proof {
            use_type_invariant(&*self);
        }
        let mut bufs: Vec<BufferEntry> = Vec::new();
        std::mem::swap(&mut bufs, &mut self.blob_bufs);
        record_in(&mut bufs, (stmt, col), buf);
        self.blob_bufs = bufs;
    }
}

impl State {
    /// `sqlite3_close`: forgets the database and calls into SQLite with it,
    /// or answers `0` for an unknown handle.
    pub fn close(&mut self, db: u32) -> (next: Next)
        ensures
            next == (if old(self).dbs().contains_key(db) {
                Next::Host(old(self).dbs()[db])
            } else {
                Next::Answer(0)
            }),
            final(self).dbs() == old(self).dbs().remove(db),
            final(self).stmts() == old(self).stmts(),
            final(self).string_buffers() == old(self).string_buffers(),
            final(self).blob_buffers() == old(self).blob_buffers(),
    {
        match self.take_db(db) {
            Some(raw) => Next::Host(raw),
            None => Next::Answer(0),
        }
    }

    /// `sqlite3_prepare_v2`: prepares on the database, or answers
    /// `SQLITE_ERROR` for an unknown handle.
    pub fn prepare(&self, db: u32) -> (next: Next)
        ensures
            next == (if self.dbs().contains_key(db) {
                Next::Host(self.dbs()[db])
            } else {
                Next::Answer(SQLITE_ERROR)
            }),
    {
        match self.db(db) {
            Some(raw) => Next::Host(raw),
            None => Next::Answer(SQLITE_ERROR),
        }
    }

    /// `sqlite3_finalize`: forgets the statement and calls into SQLite with
    /// it, or answers `0` for an unknown handle.
    pub fn finalize(&mut self, stmt: u32) -> (next: Next)
        ensures
            next == (if old(self).stmts().contains_key(stmt) {
                Next::Host(old(self).stmts()[stmt])
            } else {
                Next::Answer(0)
            }),
            final(self).stmts() == old(self).stmts().remove(stmt),
            final(self).dbs() == old(self).dbs(),
            final(self).string_buffers() == old(self).string_buffers(),
            final(self).blob_buffers() == old(self).blob_buffers(),
    {
        match self.take_stmt(stmt) {
            Some(raw) => Next::Host(raw),
            None => Next::Answer(0),
        }
    }

    /// Any other statement binding: calls into SQLite with the statement,
    /// or answers as `unknown_stmt_answer` says for an unknown handle.
    pub fn stmt_call(&self, stmt: u32, call: StmtCall) -> (next: Next)
        ensures
            next == (if self.stmts().contains_key(stmt) {
                Next::Host(self.stmts()[stmt])
            } else {
                Next::Answer(unknown_stmt_answer(call))
            }),
    {
        match self.stmt(stmt) {
            Some(raw) => Next::Host(raw),
            None => match call {
                StmtCall::Step => Next::Answer(SQLITE_DONE),
                _ => Next::Answer(0),
            },
        }
    }
}

/// Whether opening a database or preparing a statement gave an object to
/// hand to the guest: a zero result code and a non-null host pointer.
pub fn opened(rc: i32, raw: u64) -> (ok: bool)
    ensures
        ok == (rc == 0 && raw != 0),
{
    rc == 0 && raw != 0
}

/// Whether binding a blob binds NULL: for a null value or a length that is
/// not positive.
pub fn binds_null_blob(value_is_null: bool, n: i32) -> (null: bool)
    ensures
        null == (value_is_null || n <= 0),
{
    value_is_null || n <= 0
}

/// Whether a blob column reads as a null pointer: where SQLite gave a null
/// pointer or a length that is not positive.
pub fn blob_column_is_null(blob_is_null: bool, len: i32) -> (null: bool)
    ensures
        null == (blob_is_null || len <= 0),
{
    blob_is_null || len <= 0
}

/// The file name a database opens under in the sandbox directory when its
/// guest path has no host path: the guest path's file name, or `game.db`.
pub fn sandbox_db_name(file_name: Option<String>) -> (name: String)
    ensures
        name@ == (match file_name {
            Some(f) => f@,
            None => "game.db"@,
        }),
{
    match file_name {
        Some(f) => f,
        None => "game.db".to_owned(),
    }
}

impl Default for State {
    fn default() -> (s: Self)
        ensures
            s.dbs() == Map::<u32, u64>::empty(),
            s.stmts() == Map::<u32, u64>::empty(),
            s.string_buffers() == Seq::<BufferEntry>::empty(),
            s.blob_buffers() == Seq::<BufferEntry>::empty(),
    {
        State::new()
    }
}

fn record_in(entries: &mut Vec<BufferEntry>, key: (u32, i32), buf: u32)
    requires
        crate::plist_model::keys_unique(old(entries)@),
    ensures
        final(entries)@ == record_buffer(old(entries)@, key, buf),
        crate::plist_model::keys_unique(final(entries)@),
{
    proof {
        crate::plist_model::lemma_dict_insert_shape(old(entries)@, key, buf);
    }
    let ghost e = entries@;
    let n = entries.len();
    let mut i: usize = 0;
    while i < n
        invariant
            n == entries@.len(),
            entries@ == e,
            e == old(entries)@,
            crate::plist_model::keys_unique(e),
            i <= n,
            forall|j: int| 0 <= j < i ==> e[j].0 != key,
        decreases n - i,
    {
        let k = entries[i].0;
        if k.0 == key.0 && k.1 == key.1 {
            proof {
                crate::plist_model::lemma_first_index_at(e, key, i as int);
            }
            entries[i] = (key, buf);
            assert(entries@ =~= record_buffer(e, key, buf));
            proof {
                crate::plist_model::lemma_dict_insert_shape(e, key, buf);
            }
            return;
        }
        i = i + 1;
    }
    proof {
        crate::plist_model::lemma_first_index_at(e, key, n as int);
    }
    entries.push((key, buf));
    assert(entries@ =~= record_buffer(e, key, buf));
}

/// Closing a database handle right after registering it gives back the
/// host database it was registered with, and leaves the table as it was,
/// less that handle; the same holds of statement handles.
pub proof fn law_take_after_register(table: Map<u32, u64>, handle: u32, raw: u64)
    ensures
        table.insert(handle, raw).contains_key(handle),
        table.insert(handle, raw)[handle] == raw,
        table.insert(handle, raw).remove(handle) == table.remove(handle),
{
    assert(table.insert(handle, raw).remove(handle) =~= table.remove(handle));
}

/// The text a C string is built from: `bytes`, or nothing where `bytes`
/// holds a zero byte (which a C string cannot).
pub open spec fn c_string_text(bytes: Seq<u8>) -> Seq<u8> {
    if bytes.contains(0u8) {
        Seq::empty()
    } else {
        bytes
    }
}

/// The bytes of the C string made from `bytes`, falling back to the empty
/// string where `bytes` holds a zero byte, as preparing SQL and binding
/// text do.
pub fn c_string_or_empty(bytes: Vec<u8>) -> (text: Vec<u8>)
    ensures
        text@ == c_string_text(bytes@),
{
    let n = bytes.len();
    let mut i: usize = 0;
    while i < n
        invariant
            n == bytes@.len(),
            i <= n,
            forall|j: int| 0 <= j < i ==> bytes@[j] != 0u8,
        decreases n - i,
    {
        if bytes[i] == 0 {
            assert(bytes@[i as int] == 0u8);
            return Vec::new();
        }
        i = i + 1;
    }
    assert(!bytes@.contains(0u8));
    bytes
}

} // verus!
