//! The items of `sea_query`, `strum` and `serde_json` that the library uses, with what it
//! relies on of each.

use vstd::prelude::*;

use crate::statement::DbBackend;

verus! {

/// `sea_query::SelectStatement`: a `SELECT` query under construction, carried through unread.
#[verifier::external_type_specification]
#[verifier::external_body]
pub struct ExSelectStatement(sea_query::SelectStatement);

/// `sea_query::Values`: the parameters collected while a statement is built.
#[verifier::external_type_specification]
#[verifier::external_body]
pub struct ExValues(sea_query::Values);

/// `sea_query::Value`: one SQL value of a result row.
#[verifier::external_type_specification]
#[verifier::external_body]
pub struct ExValue(sea_query::Value);

/// `serde_json::Value`: a JSON document, the model type of the JSON selectors.
#[verifier::external_type_specification]
#[verifier::external_body]
pub struct ExJsonValue(serde_json::Value);

/// What `sea_query::SelectStatement::build` gives for `query` with the query builder of
/// `backend`: the SQL text in that backend's dialect and the parameters it collects, or `None`
/// where building panics (as it does for constructs that the backend's builder does not
/// support).
pub uninterp spec fn built_select(
    query: sea_query::SelectStatement,
    backend: DbBackend,
) -> Option<(Seq<char>, sea_query::Values)>;

/// Calls `sea_query::SelectStatement::build` with the query builder of `backend`, which renders
/// the query as SQL text in that backend's dialect and collects its parameters. The call is
/// admitted only where it does not panic; the text and parameters are what `built_select`
/// names, a function of the statement and the backend.
#[verifier::external_body]
pub(crate) fn build_select(query: &sea_query::SelectStatement, backend: DbBackend) -> (r: (
    String,
    sea_query::Values,
))
    requires
        built_select(*query, backend) is Some,
    ensures
        built_select(*query, backend) == Some((r.0@, r.1)),
{
    match backend {
        DbBackend::MySql => query.build(sea_query::MysqlQueryBuilder),
        DbBackend::Postgres => query.build(sea_query::PostgresQueryBuilder),
        DbBackend::Sqlite => query.build(sea_query::SqliteQueryBuilder),
    }
}

/// Calls `sea_query::SelectStatement::clear_selects` on `query`, which empties its list of
/// selected expressions, and returns the statement. Nothing is claimed of the statement: it is
/// opaque here.
#[verifier::external_body]
pub(crate) fn without_selects(query: sea_query::SelectStatement) -> sea_query::SelectStatement {
    let mut query = query;
    query.clear_selects();
    query
}

/// What `sea_query::SelectStatement::limit` makes of `query`: the same query with its `LIMIT`
/// set to `limit`.
pub uninterp spec fn limited_select(
    query: sea_query::SelectStatement,
    limit: u64,
) -> sea_query::SelectStatement;

/// Calls `sea_query::SelectStatement::limit` on `query`, which sets its `LIMIT` to `limit`, and
/// returns the statement: what `limited_select` names, a function of the two arguments.
#[verifier::external_body]
pub(crate) fn with_limit(query: sea_query::SelectStatement, limit: u64) -> (r:
    sea_query::SelectStatement)
    ensures
        r == limited_select(query, limit),
{
    let mut query = query;
    query.limit(limit);
    query
}

/// Calls `strum::IntoEnumIterator::iter` and collects every variant of `C`, in declaration
/// order. Nothing is claimed of the variants: they are values of an outside type.
#[verifier::external_body]
pub(crate) fn enum_variants<C: strum::IntoEnumIterator>() -> Vec<C> {
    C::iter().collect()
}

/// Calls `sea_query::Iden::to_string`, the unquoted name of a column identifier. Nothing is
/// claimed of the name: it is what the identifier's own `Iden` impl writes.
#[verifier::external_body]
pub(crate) fn iden_name<C: sea_query::Iden>(column: &C) -> String {
    sea_query::Iden::to_string(column)
}

/// What `sea_query::sea_value_to_json_value` gives for `value`, or `None` where it panics: it
/// panics on bytes that are not valid UTF-8 text, and on nothing else under the features built.
pub uninterp spec fn json_of_value(value: sea_query::Value) -> Option<serde_json::Value>;

/// Calls `sea_query::sea_value_to_json_value`, the JSON form of a SQL value: `null` for a
/// `NULL`, a boolean, number or string for a scalar, the document itself for JSON. The call is
/// admitted only where it does not panic; its result is what `json_of_value` names.
#[verifier::external_body]
pub(crate) fn sea_value_to_json(value: &sea_query::Value) -> (j: serde_json::Value)
    requires
        json_of_value(*value) is Some,
    ensures
        json_of_value(*value) == Some(j),
{
    sea_query::sea_value_to_json_value(value)
}

/// Takes the bytes out of a `sea_query::Value::Bytes` that holds some, by reference; `None` for
/// every other value. `sea_query::sea_value_to_json_value` panics on exactly the bytes that are
/// not valid UTF-8 (`std::str::from_utf8(..).unwrap()`), and on no other value.
#[verifier::external_body]
pub(crate) fn value_bytes(value: &sea_query::Value) -> (b: Option<&[u8]>)
    ensures
        b is None ==> json_of_value(*value) is Some,
        b matches Some(bytes) ==> (json_of_value(*value) is Some <==> vstd::utf8::valid_utf8(
            bytes@,
        )),
{
    match value {
        sea_query::Value::Bytes(Some(bytes)) => Some(bytes.as_slice()),
        _ => None,
    }
}

/// Calls `std::str::from_utf8`, which succeeds exactly on valid UTF-8 bytes.
#[verifier::external_body]
pub(crate) fn is_utf8(bytes: &[u8]) -> (r: bool)
    ensures
        r == vstd::utf8::valid_utf8(bytes@),
{
    std::str::from_utf8(bytes).is_ok()
}

/// Calls `str::strip_prefix`: the rest of `s` after `prefix`, where `s` starts with it.
#[verifier::external_body]
pub(crate) fn strip_prefix<'a>(s: &'a str, prefix: &str) -> (r: Option<&'a str>)
    ensures
        r is Some <==> prefix@.is_prefix_of(s@),
        r matches Some(rest) ==> rest@ == s@.skip(prefix@.len() as int),
{
    s.strip_prefix(prefix)
}

/// What a JSON object of `entries` is, inserted in order into a `serde_json::Map` (a later entry
/// replacing an earlier one with the same key).
pub uninterp spec fn json_object_of(entries: Seq<(Seq<char>, serde_json::Value)>) -> serde_json::Value;

/// Collects `entries` into a `serde_json::Map`, inserting them in order, and wraps it as a
/// `serde_json::Value::Object`: what `json_object_of` names for their contents.
#[verifier::external_body]
pub(crate) fn json_object(entries: Vec<(String, serde_json::Value)>) -> (j: serde_json::Value)
    ensures
        j == json_object_of(entries@.map_values(|e: (String, serde_json::Value)| (e.0@, e.1))),
{
    serde_json::Value::Object(entries.into_iter().collect())
}

} // verus!
