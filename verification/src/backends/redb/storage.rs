//! The redb database as the registry sees it: tables of rows, read and written in transactions.
//!
//! What a database, or a transaction on it, holds is a map from table names to tables, and a
//! table is a map from keys to [`Cell`]s. A key is the byte string under which redb files a row;
//! for a text it is the text in UTF-8. Every failure comes back as its text.
//!
//! Of the functions below nothing is proved: each makes one redb call on a table, and its contract
//! says what redb documents of that call.

use redb::{ReadableDatabase, ReadableTable};
use vstd::prelude::*;

verus! {

/// The value of a row.
pub enum Cell {
    /// In a table of byte strings.
    Bytes(Seq<u8>),
    /// In a table of texts.
    Text(Seq<char>),
    /// In a table of single bytes.
    Byte(u8),
    /// In a table of numbers.
    Number(u32),
    /// In a table of points in time: seconds and nanoseconds.
    Instant(u64, u32),
}

/// A redb database.
#[verifier::external_type_specification]
#[verifier::external_body]
pub struct ExDatabase(redb::Database);

/// A redb read transaction.
#[verifier::external_type_specification]
#[verifier::external_body]
pub struct ExReadTransaction(redb::ReadTransaction);

/// A redb write transaction.
#[verifier::external_type_specification]
#[verifier::external_body]
pub struct ExWriteTransaction(redb::WriteTransaction);

/// The tables of a database, as of the last commit.
pub uninterp spec fn committed(db: redb::Database) -> Map<Seq<char>, Map<Seq<u8>, Cell>>;

/// The tables that a read transaction sees.
pub uninterp spec fn snapshot(txn: redb::ReadTransaction) -> Map<Seq<char>, Map<Seq<u8>, Cell>>;

/// The tables that a write transaction sees and would commit.
pub uninterp spec fn pending(txn: redb::WriteTransaction) -> Map<Seq<char>, Map<Seq<u8>, Cell>>;

/// Whether a write transaction on the database is in progress.
pub uninterp spec fn writing(db: redb::Database) -> bool;

/// The database that a write transaction is in progress on.
pub uninterp spec fn origin(txn: redb::WriteTransaction) -> redb::Database;

/// The path of the file that a database was opened at.
pub uninterp spec fn opened_at(db: redb::Database) -> Seq<char>;

/// The rows of a table; none, if there is no such table.
pub open spec fn rows(tables: Map<Seq<char>, Map<Seq<u8>, Cell>>, table: Seq<char>) -> Map<Seq<u8>, Cell> {
    if tables.contains_key(table) {
        tables[table]
    } else {
        Map::empty()
    }
}

/// The value of a row; `None`, if there is no such row.
pub open spec fn cell(
    tables: Map<Seq<char>, Map<Seq<u8>, Cell>>,
    table: Seq<char>,
    key: Seq<u8>,
) -> Option<Cell> {
    if rows(tables, table).contains_key(key) {
        Some(rows(tables, table)[key])
    } else {
        None
    }
}

/// The tables after a table was opened for writing: it exists now.
pub open spec fn opened(
    tables: Map<Seq<char>, Map<Seq<u8>, Cell>>,
    table: Seq<char>,
) -> Map<Seq<char>, Map<Seq<u8>, Cell>> {
    tables.insert(table, rows(tables, table))
}

/// The tables after a row was put into a table.
pub open spec fn put(
    tables: Map<Seq<char>, Map<Seq<u8>, Cell>>,
    table: Seq<char>,
    key: Seq<u8>,
    value: Cell,
) -> Map<Seq<char>, Map<Seq<u8>, Cell>> {
    tables.insert(table, rows(tables, table).insert(key, value))
}

/// The tables after a row was taken out of a table.
pub open spec fn cut(
    tables: Map<Seq<char>, Map<Seq<u8>, Cell>>,
    table: Seq<char>,
    key: Seq<u8>,
) -> Map<Seq<char>, Map<Seq<u8>, Cell>> {
    tables.insert(table, rows(tables, table).remove(key))
}

/// `Database::create` opens the database file at `path`, or creates one that holds nothing.
///
/// No transaction is in progress on the database. What the file holds is left unsaid: it is on
/// disk.
#[verifier::external_body]
pub(crate) fn create_database(path: &str) -> (result: Result<redb::Database, String>)
    ensures
        result matches Ok(db) ==> !writing(db) && opened_at(db) == path@,
{
    redb::Database::create(path).map_err(|e| e.to_string())
}

/// `Database::begin_read` takes a snapshot of what was last committed.
#[verifier::external_body]
pub(crate) fn begin_read(db: &redb::Database) -> (result: Result<redb::ReadTransaction, String>)
    ensures
        result matches Ok(txn) ==> snapshot(txn) == committed(*db),
{
    db.begin_read().map_err(|e| e.to_string())
}

/// `Database::begin_write` starts a write transaction on what was last committed. It would wait
/// for another one to end, so there must be none.
#[verifier::external_body]
pub(crate) fn begin_write(db: &mut redb::Database) -> (result: Result<redb::WriteTransaction, String>)
    requires
        !writing(*old(db)),
    ensures
        committed(*final(db)) == committed(*old(db)),
        opened_at(*final(db)) == opened_at(*old(db)),
        writing(*final(db)) == (result is Ok),
        result matches Ok(txn) ==> origin(txn) == *final(db) && pending(txn) == committed(*old(db)),
{
    db.begin_write().map_err(|e| e.to_string())
}

/// `WriteTransaction::commit` makes what the transaction wrote visible to later transactions,
/// and ends it. If it fails, the transaction has ended all the same, and either nothing that it
/// wrote has been committed or all of it has: which, is left unsaid.
#[verifier::external_body]
pub(crate) fn commit(db: &mut redb::Database, txn: redb::WriteTransaction) -> (result: Result<(), String>)
    requires
        origin(txn) == *old(db),
    ensures
        !writing(*final(db)),
        opened_at(*final(db)) == opened_at(*old(db)),
        result is Ok ==> committed(*final(db)) == pending(txn),
        result is Err ==> committed(*final(db)) == committed(*old(db)) || committed(*final(db)) == pending(txn),
{
    txn.commit().map_err(|e| e.to_string())
}

/// Dropping a `WriteTransaction` that was not committed ends it, and nothing that it wrote is
/// ever committed.
#[verifier::external_body]
pub(crate) fn discard(db: &mut redb::Database, txn: redb::WriteTransaction)
    requires
        origin(txn) == *old(db),
    ensures
        !writing(*final(db)),
        opened_at(*final(db)) == opened_at(*old(db)),
        committed(*final(db)) == committed(*old(db)),
{
    drop(txn);
}

/// `ReadTransaction::open_table` and `get`, on a table from texts to byte strings: the value of a
/// row. A table that does not exist is a failure.
#[verifier::external_body]
pub(crate) fn read_text_bytes(txn: &redb::ReadTransaction, table: &str, key: &str) -> (result: Result<
    Option<Vec<u8>>,
    String,
>)
    requires
        table@.len() > 0,
    ensures
        result matches Ok(found) ==> match found {
                Some(v) => cell(snapshot(*txn), table@, vstd::utf8::encode_utf8(key@)) == Some(Cell::Bytes(v@)),
                None => cell(snapshot(*txn), table@, vstd::utf8::encode_utf8(key@)) is None,
            },
{
    let definition = redb::TableDefinition::<&str, &[u8]>::new(table);
    let rows = txn.open_table(definition).map_err(|e| e.to_string())?;
    let row = rows.get(key).map_err(|e| e.to_string())?;
    Ok(row.map(|v| v.value().to_vec()))
}

/// `ReadTransaction::open_table` and `get`, on a table from byte strings to byte strings: the
/// value of a row. A table that does not exist is a failure.
#[verifier::external_body]
pub(crate) fn read_bytes_bytes(txn: &redb::ReadTransaction, table: &str, key: &[u8]) -> (result: Result<
    Option<Vec<u8>>,
    String,
>)
    requires
        table@.len() > 0,
    ensures
        result matches Ok(found) ==> match found {
                Some(v) => cell(snapshot(*txn), table@, key@) == Some(Cell::Bytes(v@)),
                None => cell(snapshot(*txn), table@, key@) is None,
            },
{
    let definition = redb::TableDefinition::<&[u8], &[u8]>::new(table);
    let rows = txn.open_table(definition).map_err(|e| e.to_string())?;
    let row = rows.get(key).map_err(|e| e.to_string())?;
    Ok(row.map(|v| v.value().to_vec()))
}

/// `ReadTransaction::open_table` and `get`, on a table from byte strings to texts: the value of a
/// row. A table that does not exist is a failure.
#[verifier::external_body]
pub(crate) fn read_bytes_text(txn: &redb::ReadTransaction, table: &str, key: &[u8]) -> (result: Result<
    Option<String>,
    String,
>)
    requires
        table@.len() > 0,
    ensures
        result matches Ok(found) ==> match found {
                Some(v) => cell(snapshot(*txn), table@, key@) == Some(Cell::Text(v@)),
                None => cell(snapshot(*txn), table@, key@) is None,
            },
{
    let definition = redb::TableDefinition::<&[u8], &str>::new(table);
    let rows = txn.open_table(definition).map_err(|e| e.to_string())?;
    let row = rows.get(key).map_err(|e| e.to_string())?;
    Ok(row.map(|v| v.value().to_owned()))
}

/// `ReadTransaction::open_table` and `get`, on a table from byte strings to points in time: the
/// value of a row. A table that does not exist is a failure.
#[verifier::external_body]
pub(crate) fn read_bytes_instant(txn: &redb::ReadTransaction, table: &str, key: &[u8]) -> (result: Result<
    Option<(u64, u32)>,
    String,
>)
    requires
        table@.len() > 0,
    ensures
        result matches Ok(found) ==> match found {
                Some(v) => cell(snapshot(*txn), table@, key@) == Some(Cell::Instant(v.0, v.1)),
                None => cell(snapshot(*txn), table@, key@) is None,
            },
{
    let definition = redb::TableDefinition::<&[u8], (u64, u32)>::new(table);
    let rows = txn.open_table(definition).map_err(|e| e.to_string())?;
    let row = rows.get(key).map_err(|e| e.to_string())?;
    Ok(row.map(|v| v.value()))
}

/// `ReadTransaction::open_table` and `get`, on a table from byte strings to single bytes: the
/// value of a row. A table that does not exist is a failure.
#[verifier::external_body]
pub(crate) fn read_bytes_byte(txn: &redb::ReadTransaction, table: &str, key: &[u8]) -> (result: Result<
    Option<u8>,
    String,
>)
    requires
        table@.len() > 0,
    ensures
        result matches Ok(found) ==> match found {
                Some(v) => cell(snapshot(*txn), table@, key@) == Some(Cell::Byte(v)),
                None => cell(snapshot(*txn), table@, key@) is None,
            },
{
    let definition = redb::TableDefinition::<&[u8], u8>::new(table);
    let rows = txn.open_table(definition).map_err(|e| e.to_string())?;
    let row = rows.get(key).map_err(|e| e.to_string())?;
    Ok(row.map(|v| v.value()))
}

/// `ReadTransaction::open_table` and `get`, on a table from texts to numbers: the value of a row.
/// A table that does not exist has no rows.
#[verifier::external_body]
pub(crate) fn read_text_number(txn: &redb::ReadTransaction, table: &str, key: &str) -> (result: Result<
    Option<u32>,
    String,
>)
    requires
        table@.len() > 0,
    ensures
        result matches Ok(found) ==> match found {
                Some(v) => cell(snapshot(*txn), table@, vstd::utf8::encode_utf8(key@)) == Some(Cell::Number(v)),
                None => cell(snapshot(*txn), table@, vstd::utf8::encode_utf8(key@)) is None,
            },
{
    let definition = redb::TableDefinition::<&str, u32>::new(table);
    match txn.open_table(definition) {
        Ok(rows) => Ok(rows.get(key).map_err(|e| e.to_string())?.map(|v| v.value())),
        Err(redb::TableError::TableDoesNotExist(_)) => Ok(None),
        Err(e) => Err(e.to_string()),
    }
}

/// Whether `list` holds the rows of a table, each once.
pub open spec fn lists_text_bytes(
    list: Seq<(String, Vec<u8>)>,
    tables: Map<Seq<char>, Map<Seq<u8>, Cell>>,
    table: Seq<char>,
) -> bool {
    &&& forall|i: int|
        0 <= i < list.len() ==> cell(tables, table, vstd::utf8::encode_utf8((#[trigger] list[i]).0@)) == Some(
            Cell::Bytes(list[i].1@),
        )
    &&& forall|i: int, j: int| 0 <= i < j < list.len() ==> (#[trigger] list[i]).0@ != (#[trigger] list[j]).0@
    &&& forall|key: Seq<u8>| #[trigger]
        rows(tables, table).contains_key(key) ==> exists|i: int|
            0 <= i < list.len() && vstd::utf8::encode_utf8((#[trigger] list[i]).0@) == key
}

/// `ReadTransaction::open_table` and `iter`, on a table from texts to byte strings: all rows. A
/// table that does not exist is a failure. The rows come in the order of their keys, of which
/// nothing is claimed.
#[verifier::external_body]
pub(crate) fn read_all_text_bytes(txn: &redb::ReadTransaction, table: &str) -> (result: Result<
    Vec<(String, Vec<u8>)>,
    String,
>)
    requires
        table@.len() > 0,
    ensures
        result matches Ok(list) ==> lists_text_bytes(list@, snapshot(*txn), table@),
{
    let definition = redb::TableDefinition::<&str, &[u8]>::new(table);
    let rows = txn.open_table(definition).map_err(|e| e.to_string())?;
    let all = rows.iter().map_err(|e| e.to_string())?;
    all.map(|row| row.map(|(k, v)| (k.value().to_owned(), v.value().to_vec())).map_err(|e| e.to_string())).collect()
}

/// Whether `list` holds the rows of a table, each once.
pub open spec fn lists_bytes_text(
    list: Seq<(Vec<u8>, String)>,
    tables: Map<Seq<char>, Map<Seq<u8>, Cell>>,
    table: Seq<char>,
) -> bool {
    &&& forall|i: int|
        0 <= i < list.len() ==> cell(tables, table, (#[trigger] list[i]).0@) == Some(Cell::Text(list[i].1@))
    &&& forall|i: int, j: int| 0 <= i < j < list.len() ==> (#[trigger] list[i]).0@ != (#[trigger] list[j]).0@
    &&& forall|key: Seq<u8>| #[trigger]
        rows(tables, table).contains_key(key) ==> exists|i: int|
            0 <= i < list.len() && (#[trigger] list[i]).0@ == key
}

/// `ReadTransaction::open_table` and `iter`, on a table from byte strings to texts: all rows, or
/// `None` if the table does not exist. The rows come in the order of their keys, of which nothing
/// is claimed.
#[verifier::external_body]
pub(crate) fn read_all_bytes_text(txn: &redb::ReadTransaction, table: &str) -> (result: Result<
    Option<Vec<(Vec<u8>, String)>>,
    String,
>)
    requires
        table@.len() > 0,
    ensures
        result matches Ok(found) ==> match found {
            Some(list) => snapshot(*txn).contains_key(table@) && lists_bytes_text(list@, snapshot(*txn), table@),
            None => !snapshot(*txn).contains_key(table@),
        },
{
    let rows = match txn.open_table(redb::TableDefinition::<&[u8], &str>::new(table)) {
        Ok(rows) => rows,
        Err(redb::TableError::TableDoesNotExist(_)) => return Ok(None),
        Err(e) => return Err(e.to_string()),
    };
    let all = rows.iter().map_err(|e| e.to_string())?;
    all.map(|row| row.map(|(k, v)| (k.value().to_vec(), v.value().to_owned())).map_err(|e| e.to_string())).collect::<
        Result<Vec<_>, String>,
    >().map(Some)
}

/// `WriteTransaction::open_table` and `get`, on a table from texts to byte strings: the value of
/// a row. A table that does not exist is created.
#[verifier::external_body]
pub(crate) fn get_text_bytes(txn: &mut redb::WriteTransaction, table: &str, key: &str) -> (result: Result<
    Option<Vec<u8>>,
    String,
>)
    requires
        table@.len() > 0,
    ensures
        origin(*final(txn)) == origin(*old(txn)),
        result matches Ok(found) ==> {
            &&& pending(*final(txn)) == opened(pending(*old(txn)), table@)
            &&& match found {
                Some(v) => cell(pending(*old(txn)), table@, vstd::utf8::encode_utf8(key@)) == Some(Cell::Bytes(v@)),
                None => cell(pending(*old(txn)), table@, vstd::utf8::encode_utf8(key@)) is None,
            }
        },
{
    let definition = redb::TableDefinition::<&str, &[u8]>::new(table);
    let rows = txn.open_table(definition).map_err(|e| e.to_string())?;
    let row = rows.get(key).map_err(|e| e.to_string())?;
    Ok(row.map(|v| v.value().to_vec()))
}

/// `WriteTransaction::open_table` and `get`, on a table from byte strings to byte strings: the
/// value of a row. A table that does not exist is created.
#[verifier::external_body]
pub(crate) fn get_bytes_bytes(txn: &mut redb::WriteTransaction, table: &str, key: &[u8]) -> (result: Result<
    Option<Vec<u8>>,
    String,
>)
    requires
        table@.len() > 0,
    ensures
        origin(*final(txn)) == origin(*old(txn)),
        result matches Ok(found) ==> {
            &&& pending(*final(txn)) == opened(pending(*old(txn)), table@)
            &&& match found {
                Some(v) => cell(pending(*old(txn)), table@, key@) == Some(Cell::Bytes(v@)),
                None => cell(pending(*old(txn)), table@, key@) is None,
            }
        },
{
    let definition = redb::TableDefinition::<&[u8], &[u8]>::new(table);
    let rows = txn.open_table(definition).map_err(|e| e.to_string())?;
    let row = rows.get(key).map_err(|e| e.to_string())?;
    Ok(row.map(|v| v.value().to_vec()))
}

/// `WriteTransaction::open_table` and `get`, on a table from byte strings to texts: the value of
/// a row. A table that does not exist is created.
#[verifier::external_body]
pub(crate) fn get_bytes_text(txn: &mut redb::WriteTransaction, table: &str, key: &[u8]) -> (result: Result<
    Option<String>,
    String,
>)
    requires
        table@.len() > 0,
    ensures
        origin(*final(txn)) == origin(*old(txn)),
        result matches Ok(found) ==> {
            &&& pending(*final(txn)) == opened(pending(*old(txn)), table@)
            &&& match found {
                Some(v) => cell(pending(*old(txn)), table@, key@) == Some(Cell::Text(v@)),
                None => cell(pending(*old(txn)), table@, key@) is None,
            }
        },
{
    let definition = redb::TableDefinition::<&[u8], &str>::new(table);
    let rows = txn.open_table(definition).map_err(|e| e.to_string())?;
    let row = rows.get(key).map_err(|e| e.to_string())?;
    Ok(row.map(|v| v.value().to_owned()))
}

/// `WriteTransaction::open_table` and `get`, on a table from byte strings to points in time: the
/// value of a row. A table that does not exist is created.
#[verifier::external_body]
pub(crate) fn get_bytes_instant(txn: &mut redb::WriteTransaction, table: &str, key: &[u8]) -> (result: Result<
    Option<(u64, u32)>,
    String,
>)
    requires
        table@.len() > 0,
    ensures
        origin(*final(txn)) == origin(*old(txn)),
        result matches Ok(found) ==> {
            &&& pending(*final(txn)) == opened(pending(*old(txn)), table@)
            &&& match found {
                Some(v) => cell(pending(*old(txn)), table@, key@) == Some(Cell::Instant(v.0, v.1)),
                None => cell(pending(*old(txn)), table@, key@) is None,
            }
        },
{
    let definition = redb::TableDefinition::<&[u8], (u64, u32)>::new(table);
    let rows = txn.open_table(definition).map_err(|e| e.to_string())?;
    let row = rows.get(key).map_err(|e| e.to_string())?;
    Ok(row.map(|v| v.value()))
}

/// `WriteTransaction::open_table` and `get`, on a table from byte strings to single bytes: the
/// value of a row. A table that does not exist is created.
#[verifier::external_body]
pub(crate) fn get_bytes_byte(txn: &mut redb::WriteTransaction, table: &str, key: &[u8]) -> (result: Result<
    Option<u8>,
    String,
>)
    requires
        table@.len() > 0,
    ensures
        origin(*final(txn)) == origin(*old(txn)),
        result matches Ok(found) ==> {
            &&& pending(*final(txn)) == opened(pending(*old(txn)), table@)
            &&& match found {
                Some(v) => cell(pending(*old(txn)), table@, key@) == Some(Cell::Byte(v)),
                None => cell(pending(*old(txn)), table@, key@) is None,
            }
        },
{
    let definition = redb::TableDefinition::<&[u8], u8>::new(table);
    let rows = txn.open_table(definition).map_err(|e| e.to_string())?;
    let row = rows.get(key).map_err(|e| e.to_string())?;
    Ok(row.map(|v| v.value()))
}

/// `WriteTransaction::open_table` and `iter`, on a table from texts to byte strings: all rows. A
/// table that does not exist is created. The rows come in the order of their keys, of which
/// nothing is claimed.
#[verifier::external_body]
pub(crate) fn get_all_text_bytes(txn: &mut redb::WriteTransaction, table: &str) -> (result: Result<
    Vec<(String, Vec<u8>)>,
    String,
>)
    requires
        table@.len() > 0,
    ensures
        origin(*final(txn)) == origin(*old(txn)),
        result matches Ok(list) ==> {
            &&& pending(*final(txn)) == opened(pending(*old(txn)), table@)
            &&& lists_text_bytes(list@, pending(*old(txn)), table@)
        },
{
    let definition = redb::TableDefinition::<&str, &[u8]>::new(table);
    let rows = txn.open_table(definition).map_err(|e| e.to_string())?;
    let all = rows.iter().map_err(|e| e.to_string())?;
    all.map(|row| row.map(|(k, v)| (k.value().to_owned(), v.value().to_vec())).map_err(|e| e.to_string())).collect()
}

/// Whether `list` holds the rows of a table, each once.
pub open spec fn lists_bytes_bytes(
    list: Seq<(Vec<u8>, Vec<u8>)>,
    tables: Map<Seq<char>, Map<Seq<u8>, Cell>>,
    table: Seq<char>,
) -> bool {
    &&& forall|i: int|
        0 <= i < list.len() ==> cell(tables, table, (#[trigger] list[i]).0@) == Some(Cell::Bytes(list[i].1@))
    &&& forall|i: int, j: int| 0 <= i < j < list.len() ==> (#[trigger] list[i]).0@ != (#[trigger] list[j]).0@
    &&& forall|key: Seq<u8>| #[trigger]
        rows(tables, table).contains_key(key) ==> exists|i: int|
            0 <= i < list.len() && (#[trigger] list[i]).0@ == key
}

/// `WriteTransaction::open_table` and `iter`, on a table from byte strings to byte strings: all
/// rows. A table that does not exist is created. The rows come in the order of their keys, of
/// which nothing is claimed.
#[verifier::external_body]
pub(crate) fn get_all_bytes_bytes(txn: &mut redb::WriteTransaction, table: &str) -> (result: Result<
    Vec<(Vec<u8>, Vec<u8>)>,
    String,
>)
    requires
        table@.len() > 0,
    ensures
        origin(*final(txn)) == origin(*old(txn)),
        result matches Ok(list) ==> {
            &&& pending(*final(txn)) == opened(pending(*old(txn)), table@)
            &&& lists_bytes_bytes(list@, pending(*old(txn)), table@)
        },
{
    let definition = redb::TableDefinition::<&[u8], &[u8]>::new(table);
    let rows = txn.open_table(definition).map_err(|e| e.to_string())?;
    let all = rows.iter().map_err(|e| e.to_string())?;
    all.map(|row| row.map(|(k, v)| (k.value().to_vec(), v.value().to_vec())).map_err(|e| e.to_string())).collect()
}

/// `WriteTransaction::open_table` and `Table::insert`, on a table from texts to byte strings:
/// puts a row, in place of any under the same key. A table that does not exist is created.
#[verifier::external_body]
pub(crate) fn put_text_bytes(
    txn: &mut redb::WriteTransaction,
    table: &str,
    key: &str,
    value: &[u8],
) -> (result: Result<(), String>)
    requires
        table@.len() > 0,
    ensures
        origin(*final(txn)) == origin(*old(txn)),
        result is Ok ==> pending(*final(txn)) == put(
            pending(*old(txn)),
            table@,
            vstd::utf8::encode_utf8(key@),
            Cell::Bytes(value@),
        ),
{
    let definition = redb::TableDefinition::<&str, &[u8]>::new(table);
    let mut rows = txn.open_table(definition).map_err(|e| e.to_string())?;
    rows.insert(key, value).map_err(|e| e.to_string())?;
    Ok(())
}

/// `WriteTransaction::open_table` and `Table::insert`, on a table from byte strings to byte
/// strings: puts a row, in place of any under the same key. A table that does not exist is
/// created.
#[verifier::external_body]
pub(crate) fn put_bytes_bytes(
    txn: &mut redb::WriteTransaction,
    table: &str,
    key: &[u8],
    value: &[u8],
) -> (result: Result<(), String>)
    requires
        table@.len() > 0,
    ensures
        origin(*final(txn)) == origin(*old(txn)),
        result is Ok ==> pending(*final(txn)) == put(pending(*old(txn)), table@, key@, Cell::Bytes(value@)),
{
    let definition = redb::TableDefinition::<&[u8], &[u8]>::new(table);
    let mut rows = txn.open_table(definition).map_err(|e| e.to_string())?;
    rows.insert(key, value).map_err(|e| e.to_string())?;
    Ok(())
}

/// `WriteTransaction::open_table` and `Table::insert`, on a table from byte strings to texts:
/// puts a row, in place of any under the same key. A table that does not exist is created.
#[verifier::external_body]
pub(crate) fn put_bytes_text(
    txn: &mut redb::WriteTransaction,
    table: &str,
    key: &[u8],
    value: &str,
) -> (result: Result<(), String>)
    requires
        table@.len() > 0,
    ensures
        origin(*final(txn)) == origin(*old(txn)),
        result is Ok ==> pending(*final(txn)) == put(pending(*old(txn)), table@, key@, Cell::Text(value@)),
{
    let definition = redb::TableDefinition::<&[u8], &str>::new(table);
    let mut rows = txn.open_table(definition).map_err(|e| e.to_string())?;
    rows.insert(key, value).map_err(|e| e.to_string())?;
    Ok(())
}

/// `WriteTransaction::open_table` and `Table::insert`, on a table from byte strings to points in
/// time: puts a row, in place of any under the same key. A table that does not exist is created.
#[verifier::external_body]
pub(crate) fn put_bytes_instant(
    txn: &mut redb::WriteTransaction,
    table: &str,
    key: &[u8],
    value: (u64, u32),
) -> (result: Result<(), String>)
    requires
        table@.len() > 0,
    ensures
        origin(*final(txn)) == origin(*old(txn)),
        result is Ok ==> pending(*final(txn)) == put(
            pending(*old(txn)),
            table@,
            key@,
            Cell::Instant(value.0, value.1),
        ),
{
    let definition = redb::TableDefinition::<&[u8], (u64, u32)>::new(table);
    let mut rows = txn.open_table(definition).map_err(|e| e.to_string())?;
    rows.insert(key, value).map_err(|e| e.to_string())?;
    Ok(())
}

/// `WriteTransaction::open_table` and `Table::insert`, on a table from byte strings to single
/// bytes: puts a row, in place of any under the same key. A table that does not exist is created.
#[verifier::external_body]
pub(crate) fn put_bytes_byte(
    txn: &mut redb::WriteTransaction,
    table: &str,
    key: &[u8],
    value: u8,
) -> (result: Result<(), String>)
    requires
        table@.len() > 0,
    ensures
        origin(*final(txn)) == origin(*old(txn)),
        result is Ok ==> pending(*final(txn)) == put(pending(*old(txn)), table@, key@, Cell::Byte(value)),
{
    let definition = redb::TableDefinition::<&[u8], u8>::new(table);
    let mut rows = txn.open_table(definition).map_err(|e| e.to_string())?;
    rows.insert(key, value).map_err(|e| e.to_string())?;
    Ok(())
}

/// `WriteTransaction::open_table` and `Table::insert`, on a table from texts to numbers: puts a
/// row, in place of any under the same key. A table that does not exist is created.
#[verifier::external_body]
pub(crate) fn put_text_number(
    txn: &mut redb::WriteTransaction,
    table: &str,
    key: &str,
    value: u32,
) -> (result: Result<(), String>)
    requires
        table@.len() > 0,
    ensures
        origin(*final(txn)) == origin(*old(txn)),
        result is Ok ==> pending(*final(txn)) == put(
            pending(*old(txn)),
            table@,
            vstd::utf8::encode_utf8(key@),
            Cell::Number(value),
        ),
{
    let definition = redb::TableDefinition::<&str, u32>::new(table);
    let mut rows = txn.open_table(definition).map_err(|e| e.to_string())?;
    rows.insert(key, value).map_err(|e| e.to_string())?;
    Ok(())
}

/// `WriteTransaction::open_table` and `Table::remove`, on a table from byte strings to byte
/// strings: takes out a row, if it is there, and gives its value. A table that does not exist is
/// created.
#[verifier::external_body]
pub(crate) fn cut_bytes_bytes(txn: &mut redb::WriteTransaction, table: &str, key: &[u8]) -> (result: Result<
    Option<Vec<u8>>,
    String,
>)
    requires
        table@.len() > 0,
    ensures
        origin(*final(txn)) == origin(*old(txn)),
        result matches Ok(found) ==> {
            &&& pending(*final(txn)) == cut(pending(*old(txn)), table@, key@)
            &&& match found {
                Some(v) => cell(pending(*old(txn)), table@, key@) == Some(Cell::Bytes(v@)),
                None => cell(pending(*old(txn)), table@, key@) is None,
            }
        },
{
    let definition = redb::TableDefinition::<&[u8], &[u8]>::new(table);
    let mut rows = txn.open_table(definition).map_err(|e| e.to_string())?;
    let row = rows.remove(key).map_err(|e| e.to_string())?;
    Ok(row.map(|v| v.value().to_vec()))
}

/// `WriteTransaction::open_table` and `Table::remove`, on a table from byte strings to texts:
/// takes out a row, if it is there. A table that does not exist is created.
#[verifier::external_body]
pub(crate) fn cut_bytes_text(txn: &mut redb::WriteTransaction, table: &str, key: &[u8]) -> (result: Result<(), String>)
    requires
        table@.len() > 0,
    ensures
        origin(*final(txn)) == origin(*old(txn)),
        result is Ok ==> pending(*final(txn)) == cut(pending(*old(txn)), table@, key@),
{
    let definition = redb::TableDefinition::<&[u8], &str>::new(table);
    let mut rows = txn.open_table(definition).map_err(|e| e.to_string())?;
    rows.remove(key).map_err(|e| e.to_string())?;
    Ok(())
}

/// `WriteTransaction::open_table` and `Table::remove`, on a table from byte strings to points in
/// time: takes out a row, if it is there. A table that does not exist is created.
#[verifier::external_body]
pub(crate) fn cut_bytes_instant(
    txn: &mut redb::WriteTransaction,
    table: &str,
    key: &[u8],
) -> (result: Result<(), String>)
    requires
        table@.len() > 0,
    ensures
        origin(*final(txn)) == origin(*old(txn)),
        result is Ok ==> pending(*final(txn)) == cut(pending(*old(txn)), table@, key@),
{
    let definition = redb::TableDefinition::<&[u8], (u64, u32)>::new(table);
    let mut rows = txn.open_table(definition).map_err(|e| e.to_string())?;
    rows.remove(key).map_err(|e| e.to_string())?;
    Ok(())
}

/// `WriteTransaction::open_table` and `Table::remove`, on a table from byte strings to single
/// bytes: takes out a row, if it is there. A table that does not exist is created.
#[verifier::external_body]
pub(crate) fn cut_bytes_byte(txn: &mut redb::WriteTransaction, table: &str, key: &[u8]) -> (result: Result<(), String>)
    requires
        table@.len() > 0,
    ensures
        origin(*final(txn)) == origin(*old(txn)),
        result is Ok ==> pending(*final(txn)) == cut(pending(*old(txn)), table@, key@),
{
    let definition = redb::TableDefinition::<&[u8], u8>::new(table);
    let mut rows = txn.open_table(definition).map_err(|e| e.to_string())?;
    rows.remove(key).map_err(|e| e.to_string())?;
    Ok(())
}

/// `WriteTransaction::delete_table`: the table is gone, whether or not it was there.
#[verifier::external_body]
pub(crate) fn delete_bytes_text(txn: &mut redb::WriteTransaction, table: &str) -> (result: Result<(), String>)
    requires
        table@.len() > 0,
    ensures
        origin(*final(txn)) == origin(*old(txn)),
        result is Ok ==> pending(*final(txn)) == pending(*old(txn)).remove(table@),
{
    let definition = redb::TableDefinition::<&[u8], &str>::new(table);
    txn.delete_table(definition).map_err(|e| e.to_string())?;
    Ok(())
}

/// Whether `db` is what [`create_database`] gave for `path` in a call of it: the database that the
/// file at that path was, when it was opened.
pub closed spec fn opened_from(path: &str, db: redb::Database) -> bool {
    call_ensures(create_database, (path,), Ok(db))
}

/// A database comes from a path only by a call of [`create_database`].
pub(crate) proof fn law_opened_from(path: &str, db: redb::Database)
    ensures
        opened_from(path, db) <==> call_ensures(create_database, (path,), Ok(db)),
        opened_from(path, db) ==> opened_at(db) == path@,
{
}

/// What a row is before and after: a row that is put is there with its value, a row that is cut is
/// gone, every other row is as it was, and opening a table changes no row.
pub proof fn law_rows(
    tables: Map<Seq<char>, Map<Seq<u8>, Cell>>,
    table: Seq<char>,
    key: Seq<u8>,
    value: Cell,
    other: Seq<char>,
    row: Seq<u8>,
)
    ensures
        cell(tables, other, row) == if tables.contains_key(other) && tables[other].contains_key(row) {
            Some(tables[other][row])
        } else {
            None
        },
        cell(put(tables, table, key, value), other, row) == if other == table && row == key {
            Some(value)
        } else {
            cell(tables, other, row)
        },
        cell(cut(tables, table, key), other, row) == if other == table && row == key {
            None
        } else {
            cell(tables, other, row)
        },
        cell(opened(tables, table), other, row) == cell(tables, other, row),
        opened(tables, table).contains_key(table),
{
}

} // verus!
