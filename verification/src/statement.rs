//! Statements, result rows and errors: the values that a select executor sends to and receives
//! from a database connection.

use vstd::prelude::*;

use crate::outside::{build_select, built_select};
use vstd::string::StringExecFns;

verus! {

/// The database backends a statement can be built for.
#[derive(Clone, Copy, Debug, PartialEq, Eq, Structural)]
pub enum DbBackend {
    MySql,
    Postgres,
    Sqlite,
}

/// A raw SQL statement, with its parameters, for one backend.
#[derive(Clone, Debug, PartialEq)]
pub struct Statement {
    pub sql: String,
    pub values: Option<sea_query::Values>,
    pub db_backend: DbBackend,
}

impl Statement {
    /// A statement of SQL text and parameters.
    pub fn from_sql_and_values(db_backend: DbBackend, sql: String, values: sea_query::Values) -> (s:
        Statement)
        ensures
            s.db_backend == db_backend,
            s.sql == sql,
            s.values == Some(values),
    {
        Statement { sql, values: Some(values), db_backend }
    }

    /// A statement of SQL text without parameters.
    pub fn from_string(db_backend: DbBackend, sql: String) -> (s: Statement)
        ensures
            s.db_backend == db_backend,
            s.sql == sql,
            s.values is None,
    {
        Statement { sql, values: None, db_backend }
    }
}

/// `s` is the statement that building `query` for `backend` gives: its SQL text and parameters,
/// for that backend.
pub open spec fn built_statement(
    s: Statement,
    query: sea_query::SelectStatement,
    backend: DbBackend,
) -> bool {
    &&& s.db_backend == backend
    &&& s.values is Some
    &&& built_select(query, backend) == Some((s.sql@, s.values.unwrap()))
}

/// A statement built for a backend is labelled with that backend, and holds exactly the text
/// and parameters that building for that backend gives.
pub proof fn lemma_built_statement_is_for_its_backend(
    s: Statement,
    query: sea_query::SelectStatement,
    backend: DbBackend,
)
    requires
        built_statement(s, query, backend),
    ensures
        s.db_backend == backend,
        built_select(query, backend) == Some((s.sql@, s.values.unwrap())),
{
}

impl DbBackend {
    /// Builds `query` into a statement in this backend's dialect.
    pub fn build(&self, query: &sea_query::SelectStatement) -> (s: Statement)
        requires
            built_select(*query, *self) is Some,
        ensures
            built_statement(s, *query, *self),
            s.db_backend == *self,
            s.values == Some(built_select(*query, *self).unwrap().1),
            s.sql@ == built_select(*query, *self).unwrap().0,
    {
        let (sql, values) = build_select(query, *self);
        Statement::from_sql_and_values(*self, sql, values)
    }
}

/// One row of a query's result: each column's name with its value, in column order.
#[derive(Clone, Debug)]
pub struct QueryResult {
    pub row: Vec<(String, sea_query::Value)>,
}

/// An error of a database operation.
#[derive(Clone, Debug, PartialEq, Eq)]
pub enum DbErr {
    /// The connection to the database failed.
    Conn(String),
    /// A statement failed to execute.
    Exec(String),
    /// A query failed.
    Query(String),
    /// A value could not be decoded into the requested type.
    Type(String),
    /// No record was found where one was expected.
    RecordNotFound(String),
    /// An error raised by the caller.
    Custom(String),
}

/// An error while reading a typed value out of a result row.
#[derive(Clone, Debug, PartialEq, Eq)]
pub enum TryGetError {
    /// Reading failed.
    DbErr(DbErr),
    /// The column of the given name held `NULL`.
    Null(String),
}

/// The message of the decoding error for a `NULL` in column `column`.
pub open spec fn null_value_message(column: Seq<char>) -> Seq<char> {
    "A null value was encountered while decoding "@ + column
}

/// Writes the decoding message for a `NULL` in column `column`.
fn format_null_value_message(column: &String) -> (m: String)
    ensures
        m@ == null_value_message(column@),
{
    let start = String::from_str("A null value was encountered while decoding ");
    start.concat(column.as_str())
}

/// `d` is the database error that the failed read `e` becomes: a reading error is passed on, a
/// `NULL` becomes a type error whose message names the column.
pub open spec fn db_err_of_failed_read(e: TryGetError, d: DbErr) -> bool {
    match e {
        TryGetError::DbErr(inner) => d == inner,
        TryGetError::Null(column) => d matches DbErr::Type(m) && m@ == null_value_message(column@),
    }
}

impl TryGetError {
    /// Converts a failed read into a database error: a reading error is passed on, a `NULL`
    /// becomes a type error that names the column.
    pub fn into_db_err(self) -> (e: DbErr)
        ensures
            db_err_of_failed_read(self, e),
    {
        match self {
            TryGetError::DbErr(inner) => inner,
            TryGetError::Null(column) => DbErr::Type(format_null_value_message(&column)),
        }
    }
}

} // verus!
