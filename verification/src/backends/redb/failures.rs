//! Where a storage error comes from.
//!
//! An error of the storage that an operation returns is one that redb reported to it: it has the very
//! text that a call of [`storage`] came back with.

use vstd::prelude::*;

use super::codec;
use super::schema::Shape;
use super::storage;
use crate::endpoint;
use crate::error::Error;
use crate::laws;
use crate::model;
use crate::model::{MemberState, RegistryState};
use crate::registry::Permission;
use crate::time;

verus! {

/// Whether a call of [`storage`] came back with this text as its error.
pub closed spec fn reported(text: String) -> bool {
    ||| exists|path: &str| #[trigger]
        call_ensures(storage::create_database, (path,), Err(text))
    ||| exists|db: &redb::Database| #[trigger]
        call_ensures(storage::begin_read, (db,), Err(text))
    ||| exists|db: &mut redb::Database| #[trigger]
        call_ensures(storage::begin_write, (db,), Err(text))
    ||| exists|db: &mut redb::Database, txn: redb::WriteTransaction| #[trigger]
        call_ensures(storage::commit, (db, txn), Err(text))
    ||| exists|txn: &redb::ReadTransaction, table: &str, key: &str| #[trigger]
        call_ensures(storage::read_text_bytes, (txn, table, key), Err(text))
    ||| exists|txn: &redb::ReadTransaction, table: &str, key: &[u8]| #[trigger]
        call_ensures(storage::read_bytes_bytes, (txn, table, key), Err(text))
    ||| exists|txn: &redb::ReadTransaction, table: &str, key: &[u8]| #[trigger]
        call_ensures(storage::read_bytes_text, (txn, table, key), Err(text))
    ||| exists|txn: &redb::ReadTransaction, table: &str, key: &[u8]| #[trigger]
        call_ensures(storage::read_bytes_instant, (txn, table, key), Err(text))
    ||| exists|txn: &redb::ReadTransaction, table: &str, key: &[u8]| #[trigger]
        call_ensures(storage::read_bytes_byte, (txn, table, key), Err(text))
    ||| exists|txn: &redb::ReadTransaction, table: &str, key: &str| #[trigger]
        call_ensures(storage::read_text_number, (txn, table, key), Err(text))
    ||| exists|txn: &redb::ReadTransaction, table: &str| #[trigger]
        call_ensures(storage::read_all_text_bytes, (txn, table), Err(text))
    ||| exists|txn: &redb::ReadTransaction, table: &str| #[trigger]
        call_ensures(storage::read_all_bytes_text, (txn, table), Err(text))
    ||| exists|txn: &mut redb::WriteTransaction, table: &str, key: &str| #[trigger]
        call_ensures(storage::get_text_bytes, (txn, table, key), Err(text))
    ||| exists|txn: &mut redb::WriteTransaction, table: &str, key: &[u8]| #[trigger]
        call_ensures(storage::get_bytes_bytes, (txn, table, key), Err(text))
    ||| exists|txn: &mut redb::WriteTransaction, table: &str, key: &[u8]| #[trigger]
        call_ensures(storage::get_bytes_text, (txn, table, key), Err(text))
    ||| exists|txn: &mut redb::WriteTransaction, table: &str, key: &[u8]| #[trigger]
        call_ensures(storage::get_bytes_instant, (txn, table, key), Err(text))
    ||| exists|txn: &mut redb::WriteTransaction, table: &str, key: &[u8]| #[trigger]
        call_ensures(storage::get_bytes_byte, (txn, table, key), Err(text))
    ||| exists|txn: &mut redb::WriteTransaction, table: &str| #[trigger]
        call_ensures(storage::get_all_text_bytes, (txn, table), Err(text))
    ||| exists|txn: &mut redb::WriteTransaction, table: &str| #[trigger]
        call_ensures(storage::get_all_bytes_bytes, (txn, table), Err(text))
    ||| exists|txn: &mut redb::WriteTransaction, table: &str, key: &str, value: &[u8]| #[trigger]
        call_ensures(storage::put_text_bytes, (txn, table, key, value), Err(text))
    ||| exists|txn: &mut redb::WriteTransaction, table: &str, key: &[u8], value: &[u8]| #[trigger]
        call_ensures(storage::put_bytes_bytes, (txn, table, key, value), Err(text))
    ||| exists|txn: &mut redb::WriteTransaction, table: &str, key: &[u8], value: &str| #[trigger]
        call_ensures(storage::put_bytes_text, (txn, table, key, value), Err(text))
    ||| exists|txn: &mut redb::WriteTransaction, table: &str, key: &[u8], value: (u64, u32)| #[trigger]
        call_ensures(storage::put_bytes_instant, (txn, table, key, value), Err(text))
    ||| exists|txn: &mut redb::WriteTransaction, table: &str, key: &[u8], value: u8| #[trigger]
        call_ensures(storage::put_bytes_byte, (txn, table, key, value), Err(text))
    ||| exists|txn: &mut redb::WriteTransaction, table: &str, key: &str, value: u32| #[trigger]
        call_ensures(storage::put_text_number, (txn, table, key, value), Err(text))
    ||| exists|txn: &mut redb::WriteTransaction, table: &str, key: &[u8]| #[trigger]
        call_ensures(storage::cut_bytes_bytes, (txn, table, key), Err(text))
    ||| exists|txn: &mut redb::WriteTransaction, table: &str, key: &[u8]| #[trigger]
        call_ensures(storage::cut_bytes_text, (txn, table, key), Err(text))
    ||| exists|txn: &mut redb::WriteTransaction, table: &str, key: &[u8]| #[trigger]
        call_ensures(storage::cut_bytes_instant, (txn, table, key), Err(text))
    ||| exists|txn: &mut redb::WriteTransaction, table: &str, key: &[u8]| #[trigger]
        call_ensures(storage::cut_bytes_byte, (txn, table, key), Err(text))
    ||| exists|txn: &mut redb::WriteTransaction, table: &str| #[trigger]
        call_ensures(storage::delete_bytes_text, (txn, table), Err(text))
}

/// Whether a failure of the storage, if that is what a result is, was reported by redb.
pub open spec fn owed_to_redb<T>(result: Result<T, Error>) -> bool {
    result matches Err(Error::Storage(text)) ==> reported(text)
}

/// An error of [`storage::create_database`] is reported.
pub(crate) broadcast proof fn law_create_database_reports(
    path: &str,
    result: Result<redb::Database, String>,
)
    ensures
        #[trigger] call_ensures(storage::create_database, (path,), result) ==> (result matches Err(
            text,
        ) ==> reported(text)),
{
}

/// An error of [`storage::begin_read`] is reported.
pub(crate) broadcast proof fn law_begin_read_reports(
    db: &redb::Database,
    result: Result<redb::ReadTransaction, String>,
)
    ensures
        #[trigger] call_ensures(storage::begin_read, (db,), result) ==> (result matches Err(
            text,
        ) ==> reported(text)),
{
}

/// An error of [`storage::begin_write`] is reported.
pub(crate) broadcast proof fn law_begin_write_reports(
    db: &mut redb::Database,
    result: Result<redb::WriteTransaction, String>,
)
    ensures
        #[trigger] call_ensures(storage::begin_write, (db,), result) ==> (result matches Err(
            text,
        ) ==> reported(text)),
{
}

/// An error of [`storage::commit`] is reported.
pub(crate) broadcast proof fn law_commit_reports(
    db: &mut redb::Database,
    txn: redb::WriteTransaction,
    result: Result<(), String>,
)
    ensures
        #[trigger] call_ensures(storage::commit, (db, txn), result) ==> (result matches Err(
            text,
        ) ==> reported(text)),
{
}

/// An error of [`storage::read_text_bytes`] is reported.
pub(crate) broadcast proof fn law_read_text_bytes_reports(
    txn: &redb::ReadTransaction,
    table: &str,
    key: &str,
    result: Result<Option<Vec<u8>>, String>,
)
    ensures
        #[trigger] call_ensures(storage::read_text_bytes, (txn, table, key), result) ==> (result matches Err(
            text,
        ) ==> reported(text)),
{
}

/// An error of [`storage::read_bytes_bytes`] is reported.
pub(crate) broadcast proof fn law_read_bytes_bytes_reports(
    txn: &redb::ReadTransaction,
    table: &str,
    key: &[u8],
    result: Result<Option<Vec<u8>>, String>,
)
    ensures
        #[trigger] call_ensures(storage::read_bytes_bytes, (txn, table, key), result) ==> (result matches Err(
            text,
        ) ==> reported(text)),
{
}

/// An error of [`storage::read_bytes_text`] is reported.
pub(crate) broadcast proof fn law_read_bytes_text_reports(
    txn: &redb::ReadTransaction,
    table: &str,
    key: &[u8],
    result: Result<Option<String>, String>,
)
    ensures
        #[trigger] call_ensures(storage::read_bytes_text, (txn, table, key), result) ==> (result matches Err(
            text,
        ) ==> reported(text)),
{
}

/// An error of [`storage::read_bytes_instant`] is reported.
pub(crate) broadcast proof fn law_read_bytes_instant_reports(
    txn: &redb::ReadTransaction,
    table: &str,
    key: &[u8],
    result: Result<Option<(u64, u32)>, String>,
)
    ensures
        #[trigger] call_ensures(storage::read_bytes_instant, (txn, table, key), result) ==> (result matches Err(
            text,
        ) ==> reported(text)),
{
}

/// An error of [`storage::read_bytes_byte`] is reported.
pub(crate) broadcast proof fn law_read_bytes_byte_reports(
    txn: &redb::ReadTransaction,
    table: &str,
    key: &[u8],
    result: Result<Option<u8>, String>,
)
    ensures
        #[trigger] call_ensures(storage::read_bytes_byte, (txn, table, key), result) ==> (result matches Err(
            text,
        ) ==> reported(text)),
{
}

/// An error of [`storage::read_text_number`] is reported.
pub(crate) broadcast proof fn law_read_text_number_reports(
    txn: &redb::ReadTransaction,
    table: &str,
    key: &str,
    result: Result<Option<u32>, String>,
)
    ensures
        #[trigger] call_ensures(storage::read_text_number, (txn, table, key), result) ==> (result matches Err(
            text,
        ) ==> reported(text)),
{
}

/// An error of [`storage::read_all_text_bytes`] is reported.
pub(crate) broadcast proof fn law_read_all_text_bytes_reports(
    txn: &redb::ReadTransaction,
    table: &str,
    result: Result<Vec<(String, Vec<u8>)>, String>,
)
    ensures
        #[trigger] call_ensures(storage::read_all_text_bytes, (txn, table), result) ==> (result matches Err(
            text,
        ) ==> reported(text)),
{
}

/// An error of [`storage::read_all_bytes_text`] is reported.
pub(crate) broadcast proof fn law_read_all_bytes_text_reports(
    txn: &redb::ReadTransaction,
    table: &str,
    result: Result<Option<Vec<(Vec<u8>, String)>>, String>,
)
    ensures
        #[trigger] call_ensures(storage::read_all_bytes_text, (txn, table), result) ==> (result matches Err(
            text,
        ) ==> reported(text)),
{
}

/// An error of [`storage::get_text_bytes`] is reported.
pub(crate) broadcast proof fn law_get_text_bytes_reports(
    txn: &mut redb::WriteTransaction,
    table: &str,
    key: &str,
    result: Result<Option<Vec<u8>>, String>,
)
    ensures
        #[trigger] call_ensures(storage::get_text_bytes, (txn, table, key), result) ==> (result matches Err(
            text,
        ) ==> reported(text)),
{
}

/// An error of [`storage::get_bytes_bytes`] is reported.
pub(crate) broadcast proof fn law_get_bytes_bytes_reports(
    txn: &mut redb::WriteTransaction,
    table: &str,
    key: &[u8],
    result: Result<Option<Vec<u8>>, String>,
)
    ensures
        #[trigger] call_ensures(storage::get_bytes_bytes, (txn, table, key), result) ==> (result matches Err(
            text,
        ) ==> reported(text)),
{
}

/// An error of [`storage::get_bytes_text`] is reported.
pub(crate) broadcast proof fn law_get_bytes_text_reports(
    txn: &mut redb::WriteTransaction,
    table: &str,
    key: &[u8],
    result: Result<Option<String>, String>,
)
    ensures
        #[trigger] call_ensures(storage::get_bytes_text, (txn, table, key), result) ==> (result matches Err(
            text,
        ) ==> reported(text)),
{
}

/// An error of [`storage::get_bytes_instant`] is reported.
pub(crate) broadcast proof fn law_get_bytes_instant_reports(
    txn: &mut redb::WriteTransaction,
    table: &str,
    key: &[u8],
    result: Result<Option<(u64, u32)>, String>,
)
    ensures
        #[trigger] call_ensures(storage::get_bytes_instant, (txn, table, key), result) ==> (result matches Err(
            text,
        ) ==> reported(text)),
{
}

/// An error of [`storage::get_bytes_byte`] is reported.
pub(crate) broadcast proof fn law_get_bytes_byte_reports(
    txn: &mut redb::WriteTransaction,
    table: &str,
    key: &[u8],
    result: Result<Option<u8>, String>,
)
    ensures
        #[trigger] call_ensures(storage::get_bytes_byte, (txn, table, key), result) ==> (result matches Err(
            text,
        ) ==> reported(text)),
{
}

/// An error of [`storage::get_all_text_bytes`] is reported.
pub(crate) broadcast proof fn law_get_all_text_bytes_reports(
    txn: &mut redb::WriteTransaction,
    table: &str,
    result: Result<Vec<(String, Vec<u8>)>, String>,
)
    ensures
        #[trigger] call_ensures(storage::get_all_text_bytes, (txn, table), result) ==> (result matches Err(
            text,
        ) ==> reported(text)),
{
}

/// An error of [`storage::get_all_bytes_bytes`] is reported.
pub(crate) broadcast proof fn law_get_all_bytes_bytes_reports(
    txn: &mut redb::WriteTransaction,
    table: &str,
    result: Result<Vec<(Vec<u8>, Vec<u8>)>, String>,
)
    ensures
        #[trigger] call_ensures(storage::get_all_bytes_bytes, (txn, table), result) ==> (result matches Err(
            text,
        ) ==> reported(text)),
{
}

/// An error of [`storage::put_text_bytes`] is reported.
pub(crate) broadcast proof fn law_put_text_bytes_reports(
    txn: &mut redb::WriteTransaction,
    table: &str,
    key: &str,
    value: &[u8],
    result: Result<(), String>,
)
    ensures
        #[trigger] call_ensures(storage::put_text_bytes, (txn, table, key, value), result) ==> (result matches Err(
            text,
        ) ==> reported(text)),
{
}

/// An error of [`storage::put_bytes_bytes`] is reported.
pub(crate) broadcast proof fn law_put_bytes_bytes_reports(
    txn: &mut redb::WriteTransaction,
    table: &str,
    key: &[u8],
    value: &[u8],
    result: Result<(), String>,
)
    ensures
        #[trigger] call_ensures(storage::put_bytes_bytes, (txn, table, key, value), result) ==> (result matches Err(
            text,
        ) ==> reported(text)),
{
}

/// An error of [`storage::put_bytes_text`] is reported.
pub(crate) broadcast proof fn law_put_bytes_text_reports(
    txn: &mut redb::WriteTransaction,
    table: &str,
    key: &[u8],
    value: &str,
    result: Result<(), String>,
)
    ensures
        #[trigger] call_ensures(storage::put_bytes_text, (txn, table, key, value), result) ==> (result matches Err(
            text,
        ) ==> reported(text)),
{
}

/// An error of [`storage::put_bytes_instant`] is reported.
pub(crate) broadcast proof fn law_put_bytes_instant_reports(
    txn: &mut redb::WriteTransaction,
    table: &str,
    key: &[u8],
    value: (u64, u32),
    result: Result<(), String>,
)
    ensures
        #[trigger] call_ensures(storage::put_bytes_instant, (txn, table, key, value), result) ==> (result matches Err(
            text,
        ) ==> reported(text)),
{
}

/// An error of [`storage::put_bytes_byte`] is reported.
pub(crate) broadcast proof fn law_put_bytes_byte_reports(
    txn: &mut redb::WriteTransaction,
    table: &str,
    key: &[u8],
    value: u8,
    result: Result<(), String>,
)
    ensures
        #[trigger] call_ensures(storage::put_bytes_byte, (txn, table, key, value), result) ==> (result matches Err(
            text,
        ) ==> reported(text)),
{
}

/// An error of [`storage::put_text_number`] is reported.
pub(crate) broadcast proof fn law_put_text_number_reports(
    txn: &mut redb::WriteTransaction,
    table: &str,
    key: &str,
    value: u32,
    result: Result<(), String>,
)
    ensures
        #[trigger] call_ensures(storage::put_text_number, (txn, table, key, value), result) ==> (result matches Err(
            text,
        ) ==> reported(text)),
{
}

/// An error of [`storage::cut_bytes_bytes`] is reported.
pub(crate) broadcast proof fn law_cut_bytes_bytes_reports(
    txn: &mut redb::WriteTransaction,
    table: &str,
    key: &[u8],
    result: Result<Option<Vec<u8>>, String>,
)
    ensures
        #[trigger] call_ensures(storage::cut_bytes_bytes, (txn, table, key), result) ==> (result matches Err(
            text,
        ) ==> reported(text)),
{
}

/// An error of [`storage::cut_bytes_text`] is reported.
pub(crate) broadcast proof fn law_cut_bytes_text_reports(
    txn: &mut redb::WriteTransaction,
    table: &str,
    key: &[u8],
    result: Result<(), String>,
)
    ensures
        #[trigger] call_ensures(storage::cut_bytes_text, (txn, table, key), result) ==> (result matches Err(
            text,
        ) ==> reported(text)),
{
}

/// An error of [`storage::cut_bytes_instant`] is reported.
pub(crate) broadcast proof fn law_cut_bytes_instant_reports(
    txn: &mut redb::WriteTransaction,
    table: &str,
    key: &[u8],
    result: Result<(), String>,
)
    ensures
        #[trigger] call_ensures(storage::cut_bytes_instant, (txn, table, key), result) ==> (result matches Err(
            text,
        ) ==> reported(text)),
{
}

/// An error of [`storage::cut_bytes_byte`] is reported.
pub(crate) broadcast proof fn law_cut_bytes_byte_reports(
    txn: &mut redb::WriteTransaction,
    table: &str,
    key: &[u8],
    result: Result<(), String>,
)
    ensures
        #[trigger] call_ensures(storage::cut_bytes_byte, (txn, table, key), result) ==> (result matches Err(
            text,
        ) ==> reported(text)),
{
}

/// An error of [`storage::delete_bytes_text`] is reported.
pub(crate) broadcast proof fn law_delete_bytes_text_reports(
    txn: &mut redb::WriteTransaction,
    table: &str,
    result: Result<(), String>,
)
    ensures
        #[trigger] call_ensures(storage::delete_bytes_text, (txn, table), result) ==> (result matches Err(
            text,
        ) ==> reported(text)),
{
}

/// What each call of [`storage`] comes back with as its error is reported.
pub(crate) broadcast group group_reports {
    law_create_database_reports,
    law_begin_read_reports,
    law_begin_write_reports,
    law_commit_reports,
    law_read_text_bytes_reports,
    law_read_bytes_bytes_reports,
    law_read_bytes_text_reports,
    law_read_bytes_instant_reports,
    law_read_bytes_byte_reports,
    law_read_text_number_reports,
    law_read_all_text_bytes_reports,
    law_read_all_bytes_text_reports,
    law_get_text_bytes_reports,
    law_get_bytes_bytes_reports,
    law_get_bytes_text_reports,
    law_get_bytes_instant_reports,
    law_get_bytes_byte_reports,
    law_get_all_text_bytes_reports,
    law_get_all_bytes_bytes_reports,
    law_put_text_bytes_reports,
    law_put_bytes_bytes_reports,
    law_put_bytes_text_reports,
    law_put_bytes_instant_reports,
    law_put_bytes_byte_reports,
    law_put_text_number_reports,
    law_cut_bytes_bytes_reports,
    law_cut_bytes_text_reports,
    law_cut_bytes_instant_reports,
    law_cut_bytes_byte_reports,
    law_delete_bytes_text_reports,
}

/// Nothing is reported but what a call of [`storage`] came back with.
pub(crate) proof fn law_reported(text: String)
    requires
        reported(text),
    ensures
        ({
            ||| exists|path: &str| #[trigger]
                call_ensures(storage::create_database, (path,), Err(text))
            ||| exists|db: &redb::Database| #[trigger]
                call_ensures(storage::begin_read, (db,), Err(text))
            ||| exists|db: &mut redb::Database| #[trigger]
                call_ensures(storage::begin_write, (db,), Err(text))
            ||| exists|db: &mut redb::Database, txn: redb::WriteTransaction| #[trigger]
                call_ensures(storage::commit, (db, txn), Err(text))
            ||| exists|txn: &redb::ReadTransaction, table: &str, key: &str| #[trigger]
                call_ensures(storage::read_text_bytes, (txn, table, key), Err(text))
            ||| exists|txn: &redb::ReadTransaction, table: &str, key: &[u8]| #[trigger]
                call_ensures(storage::read_bytes_bytes, (txn, table, key), Err(text))
            ||| exists|txn: &redb::ReadTransaction, table: &str, key: &[u8]| #[trigger]
                call_ensures(storage::read_bytes_text, (txn, table, key), Err(text))
            ||| exists|txn: &redb::ReadTransaction, table: &str, key: &[u8]| #[trigger]
                call_ensures(storage::read_bytes_instant, (txn, table, key), Err(text))
            ||| exists|txn: &redb::ReadTransaction, table: &str, key: &[u8]| #[trigger]
                call_ensures(storage::read_bytes_byte, (txn, table, key), Err(text))
            ||| exists|txn: &redb::ReadTransaction, table: &str, key: &str| #[trigger]
                call_ensures(storage::read_text_number, (txn, table, key), Err(text))
            ||| exists|txn: &redb::ReadTransaction, table: &str| #[trigger]
                call_ensures(storage::read_all_text_bytes, (txn, table), Err(text))
            ||| exists|txn: &redb::ReadTransaction, table: &str| #[trigger]
                call_ensures(storage::read_all_bytes_text, (txn, table), Err(text))
            ||| exists|txn: &mut redb::WriteTransaction, table: &str, key: &str| #[trigger]
                call_ensures(storage::get_text_bytes, (txn, table, key), Err(text))
            ||| exists|txn: &mut redb::WriteTransaction, table: &str, key: &[u8]| #[trigger]
                call_ensures(storage::get_bytes_bytes, (txn, table, key), Err(text))
            ||| exists|txn: &mut redb::WriteTransaction, table: &str, key: &[u8]| #[trigger]
                call_ensures(storage::get_bytes_text, (txn, table, key), Err(text))
            ||| exists|txn: &mut redb::WriteTransaction, table: &str, key: &[u8]| #[trigger]
                call_ensures(storage::get_bytes_instant, (txn, table, key), Err(text))
            ||| exists|txn: &mut redb::WriteTransaction, table: &str, key: &[u8]| #[trigger]
                call_ensures(storage::get_bytes_byte, (txn, table, key), Err(text))
            ||| exists|txn: &mut redb::WriteTransaction, table: &str| #[trigger]
                call_ensures(storage::get_all_text_bytes, (txn, table), Err(text))
            ||| exists|txn: &mut redb::WriteTransaction, table: &str| #[trigger]
                call_ensures(storage::get_all_bytes_bytes, (txn, table), Err(text))
            ||| exists|txn: &mut redb::WriteTransaction, table: &str, key: &str, value: &[u8]| #[trigger]
                call_ensures(storage::put_text_bytes, (txn, table, key, value), Err(text))
            ||| exists|txn: &mut redb::WriteTransaction, table: &str, key: &[u8], value: &[u8]| #[trigger]
                call_ensures(storage::put_bytes_bytes, (txn, table, key, value), Err(text))
            ||| exists|txn: &mut redb::WriteTransaction, table: &str, key: &[u8], value: &str| #[trigger]
                call_ensures(storage::put_bytes_text, (txn, table, key, value), Err(text))
            ||| exists|txn: &mut redb::WriteTransaction, table: &str, key: &[u8], value: (u64, u32)| #[trigger]
                call_ensures(storage::put_bytes_instant, (txn, table, key, value), Err(text))
            ||| exists|txn: &mut redb::WriteTransaction, table: &str, key: &[u8], value: u8| #[trigger]
                call_ensures(storage::put_bytes_byte, (txn, table, key, value), Err(text))
            ||| exists|txn: &mut redb::WriteTransaction, table: &str, key: &str, value: u32| #[trigger]
                call_ensures(storage::put_text_number, (txn, table, key, value), Err(text))
            ||| exists|txn: &mut redb::WriteTransaction, table: &str, key: &[u8]| #[trigger]
                call_ensures(storage::cut_bytes_bytes, (txn, table, key), Err(text))
            ||| exists|txn: &mut redb::WriteTransaction, table: &str, key: &[u8]| #[trigger]
                call_ensures(storage::cut_bytes_text, (txn, table, key), Err(text))
            ||| exists|txn: &mut redb::WriteTransaction, table: &str, key: &[u8]| #[trigger]
                call_ensures(storage::cut_bytes_instant, (txn, table, key), Err(text))
            ||| exists|txn: &mut redb::WriteTransaction, table: &str, key: &[u8]| #[trigger]
                call_ensures(storage::cut_bytes_byte, (txn, table, key), Err(text))
            ||| exists|txn: &mut redb::WriteTransaction, table: &str| #[trigger]
                call_ensures(storage::delete_bytes_text, (txn, table), Err(text))
        }),
{
}

/// Whether every member of a registry is a peer that there can be, with an expiry that there can be,
/// so that all of it can be read back.
pub open spec fn legible(s: RegistryState) -> bool {
    forall|name: Seq<char>, i: int|
        s.rings.contains_key(name) && 0 <= i < s.rings[name].len() ==> {
            &&& endpoint::encodes_point((#[trigger] s.rings[name][i]).peer)
            &&& s.rings[name][i].expires_at matches Some(end) ==> end < time::TOO_LATE
        }
}

/// A registry stays legible: an empty one is, and every operation keeps it so that is given peers and
/// expiries that there can be.
pub proof fn law_legible(
    s: RegistryState,
    name: Seq<char>,
    peer: Seq<u8>,
    label: Option<Seq<char>>,
    expires_at: Option<int>,
    now: int,
    id: Seq<u8>,
    permissions: Set<Permission>,
)
    requires
        legible(s),
    ensures
        legible(RegistryState::initial()),
        s.create_ring(name) matches Ok(next) ==> legible(next),
        endpoint::encodes_point(peer) && (expires_at matches Some(end) ==> end < time::TOO_LATE) ==> (s.add_peer(
            name,
            peer,
            label,
            expires_at,
            now,
        ) matches Ok(next) ==> legible(next)),
        s.remove_peer(name, peer) matches Ok(next) ==> legible(next),
        s.add_ring_to_resource(id, name, permissions) matches Ok(next) ==> legible(next),
        legible(s.clear_resource(id)),
        legible(s.evict(now)),
{
    if s.rings.contains_key(name) {
        let before = s.rings[name];
        let added = model::enrol(before, peer, label, expires_at, now);
        if endpoint::encodes_point(peer) && (expires_at matches Some(end) ==> end < time::TOO_LATE) {
            let next = s.add_peer(name, peer, label, expires_at, now)->Ok_0;
            assert forall|n: Seq<char>, i: int| next.rings.contains_key(n) && 0 <= i < next.rings[n].len() implies {
                &&& endpoint::encodes_point((#[trigger] next.rings[n][i]).peer)
                &&& next.rings[n][i].expires_at matches Some(end) ==> end < time::TOO_LATE
            } by {
                if n != name {
                    assert(next.rings[n][i] == s.rings[n][i]);
                } else if i < before.len() {
                    assert(endpoint::encodes_point(s.rings[name][i].peer));
                }
            }
        }
        let next = s.remove_peer(name, peer)->Ok_0;
        assert forall|n: Seq<char>, i: int| next.rings.contains_key(n) && 0 <= i < next.rings[n].len() implies {
            &&& endpoint::encodes_point((#[trigger] next.rings[n][i]).peer)
            &&& next.rings[n][i].expires_at matches Some(end) ==> end < time::TOO_LATE
        } by {
            if n == name {
                lemma_kept(before, |m: MemberState| m.peer != peer, i);
                let j = choose|j: int| 0 <= j < before.len() && before[j] == next.rings[n][i];
                assert(s.rings[name][j] == next.rings[n][i]);
            } else {
                assert(next.rings[n][i] == s.rings[n][i]);
            }
        }
    }
    if let Ok(next) = s.create_ring(name) {
        assert forall|n: Seq<char>, i: int| next.rings.contains_key(n) && 0 <= i < next.rings[n].len() implies {
            &&& endpoint::encodes_point((#[trigger] next.rings[n][i]).peer)
            &&& next.rings[n][i].expires_at matches Some(end) ==> end < time::TOO_LATE
        } by {
            assert(next.rings[n][i] == s.rings[n][i]);
        }
    }
    let next = s.evict(now);
    assert forall|n: Seq<char>, i: int| next.rings.contains_key(n) && 0 <= i < next.rings[n].len() implies {
        &&& endpoint::encodes_point((#[trigger] next.rings[n][i]).peer)
        &&& next.rings[n][i].expires_at matches Some(end) ==> end < time::TOO_LATE
    } by {
        lemma_kept(s.rings[n], |m: MemberState| !m.expired(now), i);
        let j = choose|j: int| 0 <= j < s.rings[n].len() && s.rings[n][j] == next.rings[n][i];
        assert(s.rings[n][j] == next.rings[n][i]);
    }
    assert(s.clear_resource(id).rings == s.rings);
    assert forall|n: Seq<char>, i: int|
        s.clear_resource(id).rings.contains_key(n) && 0 <= i < s.clear_resource(id).rings[n].len() implies {
        &&& endpoint::encodes_point((#[trigger] s.clear_resource(id).rings[n][i]).peer)
        &&& s.clear_resource(id).rings[n][i].expires_at matches Some(end) ==> end < time::TOO_LATE
    } by {
        assert(s.clear_resource(id).rings[n][i] == s.rings[n][i]);
    }
    if let Ok(next) = s.add_ring_to_resource(id, name, permissions) {
        assert(next.rings == s.rings);
        assert forall|n: Seq<char>, i: int| next.rings.contains_key(n) && 0 <= i < next.rings[n].len() implies {
            &&& endpoint::encodes_point((#[trigger] next.rings[n][i]).peer)
            &&& next.rings[n][i].expires_at matches Some(end) ==> end < time::TOO_LATE
        } by {
            assert(next.rings[n][i] == s.rings[n][i]);
        }
    }
}

/// What a filter keeps was there.
pub(crate) proof fn lemma_kept(members: Seq<MemberState>, pred: spec_fn(MemberState) -> bool, i: int)
    requires
        0 <= i < members.filter(pred).len(),
    ensures
        exists|j: int| 0 <= j < members.len() && members[j] == members.filter(pred)[i],
{
    laws::lemma_filter_members(members, pred, members.filter(pred)[i]);
    assert(members.filter(pred).contains(members.filter(pred)[i]));
    assert(members.contains(members.filter(pred)[i]));
}

/// A member that cannot be read back makes the registry illegible.
pub(crate) proof fn lemma_illegible(s: Shape, name: Seq<char>, peer: Seq<u8>)
    requires
        s.has_ring(name),
        s.peers(name).contains(peer),
        !endpoint::encodes_point(peer) || (s.expiry(codec::member_row(name, peer)) matches Some(end) && end
            >= time::TOO_LATE),
    ensures
        !legible(s.state()),
{
    let i = choose|i: int| 0 <= i < s.peers(name).len() && s.peers(name)[i] == peer;
    let member = s.state().rings[name][i];
    assert(s.state().rings.contains_key(name));
    assert(s.state().rings[name] == s.members(name));
    assert(member == s.member(name, peer));
    assert(s.state().rings[name][i].peer == peer);
}

} // verus!
