//! The traits through which the select executor reaches entities, models and row decoding.
//! Applications implement them for their own types.

use vstd::prelude::*;

use crate::key::{KeyValue, KeyView};
use crate::statement::{DbErr, QueryResult, TryGetError};

verus! {

/// An entity: a table, with the model type that one of its rows decodes into.
pub trait EntityTrait {
    type Model: ModelTrait + FromQueryResult;
}

/// A model: the decoded contents of one row of an entity.
pub trait ModelTrait {
    /// The value of the model's first primary key column.
    spec fn key(&self) -> KeyView;

    /// The value of the model's first primary key column.
    fn primary_key_value(&self) -> (k: KeyValue)
        ensures
            k@ == self.key(),
    ;
}

/// A type that can be decoded from a result row.
pub trait FromQueryResult: Sized {
    /// Decodes `Self` from the columns of `res` whose names start with `pre`.
    fn from_query_result(res: &QueryResult, pre: &str) -> Result<Self, DbErr>;

    /// Decodes `Self` from the columns of `res` whose names start with `pre`, giving `None`
    /// where they do not hold one.
    fn from_query_result_optional(res: &QueryResult, pre: &str) -> (r: Result<Option<Self>, DbErr>)
        default_ensures
            exists|decoded: Result<Self, DbErr>|
                {
                    &&& call_ensures(Self::from_query_result, (res, pre), decoded)
                    &&& match decoded {
                        Ok(model) => r == Ok::<Option<Self>, DbErr>(Some(model)),
                        Err(_) => r == Ok::<Option<Self>, DbErr>(None),
                    }
                },
    {
        match Self::from_query_result(res, pre) {
            Ok(model) => Ok(Some(model)),
            Err(_) => Ok(None),
        }
    }
}

/// A model that selects only some columns of its entity.
pub trait PartialModelTrait: FromQueryResult {
    /// Adds the model's columns to the selected expressions of `query`.
    fn select_cols(query: sea_query::SelectStatement) -> sea_query::SelectStatement;
}

/// An enumeration of column identifiers, each variant naming one column.
///
/// An enumeration with `strum::IntoEnumIterator` and `sea_query::Iden` implements it by
/// returning `crate::selector::enum_column_names::<Self>()`, whose contract ties the names to the
/// variants; nothing here holds other implementations to that.
pub trait ColumnEnum {
    /// The names of the columns, one per variant, in declaration order.
    fn column_names() -> Vec<String>;
}

/// A tuple of values that can be read out of a result row.
pub trait TryGetableMany: Sized {
    /// Reads the values of the columns named `pre` followed by each of `cols`, in order.
    fn try_get_many(res: &QueryResult, pre: &str, cols: &[String]) -> Result<Self, TryGetError>;

    /// Reads the values of the row's columns by position, from the first.
    fn try_get_many_by_index(res: &QueryResult) -> Result<Self, TryGetError>;
}

} // verus!
