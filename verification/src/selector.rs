//! Selectors: a query, or a raw statement, together with the rule that decodes each of its
//! result rows.

use core::marker::PhantomData;
use vstd::prelude::*;

use crate::outside::{built_select, enum_variants, iden_name, limited_select, with_limit};
use crate::statement::{built_statement, db_err_of_failed_read, DbBackend, DbErr, QueryResult, Statement};
use crate::statement::TryGetError;
use crate::traits::{ColumnEnum, FromQueryResult, TryGetableMany};

verus! {

/// Defines a type to do `SELECT` operations through a `SelectStatement` on a model.
#[derive(Debug)]
pub struct Selector<S> {
    pub query: sea_query::SelectStatement,
    pub selector: S,
}

/// Performs a raw `SELECT` operation on a model.
#[derive(Clone, Debug)]
pub struct SelectorRaw<S> {
    pub stmt: Statement,
    pub selector: S,
}

/// A trait for any type that can perform SELECT queries.
pub trait SelectorTrait {
    type Item: Sized;

    /// Decodes one result row into an item.
    fn from_raw_query_result(res: QueryResult) -> Result<Self::Item, DbErr>;
}

/// Gets a tuple from a result row by a list of column identifiers.
#[derive(Debug)]
pub struct SelectGetableValue<T, C> {
    pub columns: PhantomData<C>,
    pub model: PhantomData<T>,
}

/// Gets a tuple from a result row by column position.
#[derive(Debug)]
pub struct SelectGetableTuple<T> {
    pub model: PhantomData<T>,
}

/// Defines a type to get a model.
#[derive(Debug)]
pub struct SelectModel<M> {
    pub model: PhantomData<M>,
}

/// Defines a type to get two models.
#[derive(Debug)]
pub struct SelectTwoModel<M, N> {
    pub model: PhantomData<(M, N)>,
}

/// The column prefix of the first model of a two-model select.
#[derive(Clone, Copy, Debug)]
pub struct SelectA;

/// The column prefix of the second model of a two-model select.
#[derive(Clone, Copy, Debug)]
pub struct SelectB;

impl SelectA {
    #[verifier::allow_in_spec]
    pub fn as_str(&self) -> &'static str
        returns
            "A_",
    {
        "A_"
    }
}

impl SelectB {
    #[verifier::allow_in_spec]
    pub fn as_str(&self) -> &'static str
        returns
            "B_",
    {
        "B_"
    }
}

/// The items of `decoded`, in order, when every outcome is a success; otherwise the first
/// error among them.
pub open spec fn first_error_or_items<T>(decoded: Seq<Result<T, DbErr>>) -> Result<Seq<T>, DbErr>
    decreases decoded.len(),
{
    if decoded.len() == 0 {
        Ok(Seq::empty())
    } else {
        match first_error_or_items(decoded.drop_last()) {
            Err(e) => Err(e),
            Ok(items) => match decoded.last() {
                Ok(item) => Ok(items.push(item)),
                Err(e) => Err(e),
            },
        }
    }
}

/// `r` is what decoding a row gives when reading its values gave `read`: the values
/// themselves, or the database error that the failed read becomes.
pub open spec fn result_of_read<T>(read: Result<T, TryGetError>, r: Result<T, DbErr>) -> bool {
    match read {
        Ok(v) => r == Ok::<T, DbErr>(v),
        Err(e) => r matches Err(d) && db_err_of_failed_read(e, d),
    }
}

/// `variants` is a list that `strum::IntoEnumIterator::iter` yields for `C`: its variants, in
/// declaration order.
pub closed spec fn enum_variant_list<C: strum::IntoEnumIterator>(variants: Vec<C>) -> bool {
    call_ensures(enum_variants::<C>, (), variants)
}

/// `name` is a name that `sea_query::Iden::to_string` gives for `column`.
pub closed spec fn iden_name_of<C: sea_query::Iden>(column: C, name: String) -> bool {
    call_ensures(iden_name::<C>, (&column,), name)
}

/// The names of the columns of `C`, one per variant, in declaration order.
pub fn enum_column_names<C: strum::IntoEnumIterator + sea_query::Iden>() -> (names: Vec<String>)
    ensures
        exists|columns: Vec<C>|
            {
                &&& enum_variant_list(columns)
                &&& names.len() == columns.len()
                &&& forall|i: int|
                    0 <= i < names.len() ==> iden_name_of(columns@[i], #[trigger] names@[i])
            },
{
    let columns = enum_variants::<C>();
    let mut names: Vec<String> = Vec::new();
    let mut i: usize = 0;
    while i < columns.len()
        invariant
            enum_variant_list(columns),
            i <= columns.len(),
            names.len() == i,
            forall|j: int| 0 <= j < i ==> iden_name_of(columns@[j], #[trigger] names@[j]),
        decreases columns.len() - i,
    {
        names.push(iden_name(&columns[i]));
        i = i + 1;
    }
    names
}

impl<T, C> SelectorTrait for SelectGetableValue<T, C> where T: TryGetableMany, C: ColumnEnum {
    type Item = T;

    fn from_raw_query_result(res: QueryResult) -> (r: Result<T, DbErr>)
        ensures
            exists|cols: Vec<String>, names: &[String], read: Result<T, TryGetError>|
                {
                    &&& call_ensures(C::column_names, (), cols)
                    &&& names@ == cols@
                    &&& call_ensures(T::try_get_many, (&res, "", names), read)
                    &&& result_of_read(read, r)
                },
    {
        let cols = C::column_names();
        match T::try_get_many(&res, "", cols.as_slice()) {
            Ok(item) => Ok(item),
            Err(e) => Err(e.into_db_err()),
        }
    }
}

impl<T> SelectorTrait for SelectGetableTuple<T> where T: TryGetableMany {
    type Item = T;

    fn from_raw_query_result(res: QueryResult) -> (r: Result<T, DbErr>)
        ensures
            exists|read: Result<T, TryGetError>|
                call_ensures(T::try_get_many_by_index, (&res,), read) && result_of_read(read, r),
    {
        let read = T::try_get_many_by_index(&res);
        let ghost outcome = read;
        let r = match read {
            Ok(item) => Ok(item),
            Err(e) => Err(e.into_db_err()),
        };
        assert(call_ensures(T::try_get_many_by_index, (&res,), outcome) && result_of_read(outcome, r));
        r
    }
}

impl<M> SelectorTrait for SelectModel<M> where M: FromQueryResult {
    type Item = M;

    fn from_raw_query_result(res: QueryResult) -> (r: Result<M, DbErr>)
        ensures
            call_ensures(M::from_query_result, (&res, ""), r),
    {
        M::from_query_result(&res, "")
    }
}

impl<M, N> SelectorTrait for SelectTwoModel<M, N> where M: FromQueryResult, N: FromQueryResult {
    type Item = (M, Option<N>);

    fn from_raw_query_result(res: QueryResult) -> (r: Result<(M, Option<N>), DbErr>)
        ensures
            exists|first: Result<M, DbErr>|
                {
                    &&& call_ensures(M::from_query_result, (&res, "A_"), first)
                    &&& match first {
                        Err(e) => r == Err::<(M, Option<N>), DbErr>(e),
                        Ok(m) => exists|second: Result<Option<N>, DbErr>|
                            {
                                &&& call_ensures(N::from_query_result_optional, (&res, "B_"), second)
                                &&& match second {
                                    Err(e) => r == Err::<(M, Option<N>), DbErr>(e),
                                    Ok(n) => r == Ok::<(M, Option<N>), DbErr>((m, n)),
                                }
                            },
                    }
                },
    {
        let m = M::from_query_result(&res, SelectA.as_str())?;
        let n = N::from_query_result_optional(&res, SelectB.as_str())?;
        Ok((m, n))
    }
}

impl<S> Selector<S> where S: SelectorTrait {
    /// Creates a `Selector` from a query and a list of column identifiers; executing it gives
    /// values of `T`, read by those columns.
    pub fn with_columns<T, C>(query: sea_query::SelectStatement) -> (s: Selector<
        SelectGetableValue<T, C>,
    >) where T: TryGetableMany, C: ColumnEnum
        ensures
            s.query == query,
    {
        Selector { query, selector: SelectGetableValue { columns: PhantomData, model: PhantomData } }
    }

    /// Creates a `Selector` from a query; executing it gives values of `T`, read by column
    /// position.
    pub fn into_tuple<T>(query: sea_query::SelectStatement) -> (s: Selector<SelectGetableTuple<T>>) where
        T: TryGetableMany,
        ensures
            s.query == query,
    {
        Selector { query, selector: SelectGetableTuple { model: PhantomData } }
    }

    /// Builds the query for `backend`, keeping the decoding rule.
    pub fn into_selector_raw(self, backend: DbBackend) -> (r: SelectorRaw<S>)
        requires
            built_select(self.query, backend) is Some,
        ensures
            built_statement(r.stmt, self.query, backend),
            r.stmt.db_backend == backend,
            r.selector == self.selector,
    {
        let stmt = backend.build(&self.query);
        SelectorRaw { stmt, selector: self.selector }
    }

    /// Gets the SQL statement of the query for `builder`.
    pub fn into_statement(self, builder: DbBackend) -> (stmt: Statement)
        requires
            built_select(self.query, builder) is Some,
        ensures
            built_statement(stmt, self.query, builder),
            stmt.db_backend == builder,
    {
        builder.build(&self.query)
    }

    /// Limits the query to one row and builds it for `backend`: the statement that fetches a
    /// single item.
    pub fn into_selector_raw_for_one(self, backend: DbBackend) -> (r: SelectorRaw<S>)
        requires
            built_select(limited_select(self.query, 1), backend) is Some,
        ensures
            built_statement(r.stmt, limited_select(self.query, 1), backend),
            r.stmt.db_backend == backend,
            r.selector == self.selector,
    {
        let query = with_limit(self.query, 1);
        let limited = Selector { query, selector: self.selector };
        limited.into_selector_raw(backend)
    }
}

impl<S> SelectorRaw<S> where S: SelectorTrait {
    /// Selects a custom model from a raw SQL statement.
    #[verifier::allow_in_spec]
    pub fn from_statement<M>(stmt: Statement) -> SelectorRaw<SelectModel<M>> where
        M: FromQueryResult,
        returns
            (SelectorRaw { stmt, selector: SelectModel::<M> { model: PhantomData::<M> } }),
    {
        SelectorRaw { stmt, selector: SelectModel { model: PhantomData } }
    }

    /// Creates a `SelectorRaw` from a statement and a list of column identifiers; executing it
    /// gives values of `T`, read by those columns.
    pub fn with_columns<T, C>(stmt: Statement) -> (r: SelectorRaw<SelectGetableValue<T, C>>) where
        T: TryGetableMany,
        C: ColumnEnum,
        ensures
            r.stmt == stmt,
    {
        SelectorRaw { stmt, selector: SelectGetableValue { columns: PhantomData, model: PhantomData } }
    }

    /// Decodes the rows of the same statement into models of type `M`.
    #[verifier::allow_in_spec]
    pub fn into_model<M>(self) -> SelectorRaw<SelectModel<M>> where M: FromQueryResult
        returns
            (SelectorRaw { stmt: self.stmt, selector: SelectModel::<M> { model: PhantomData::<M> } }),
    {
        SelectorRaw { stmt: self.stmt, selector: SelectModel { model: PhantomData } }
    }

    /// Decodes the rows of the same statement into JSON values.
    pub fn into_json(self) -> (r: SelectorRaw<SelectModel<serde_json::Value>>)
        ensures
            r.stmt == self.stmt,
    {
        SelectorRaw { stmt: self.stmt, selector: SelectModel { model: PhantomData } }
    }

    /// Gets the SQL statement.
    #[verifier::allow_in_spec]
    pub fn into_statement(self) -> Statement
        returns
            self.stmt,
    {
        self.stmt
    }

    /// Decodes the row that a single-row query returned, if it returned one.
    pub fn one_from_row(row: Option<QueryResult>) -> (r: Result<Option<S::Item>, DbErr>)
        ensures
            row is None ==> r == Ok::<Option<S::Item>, DbErr>(None),
            row matches Some(x) ==> exists|decoded: Result<S::Item, DbErr>|
                {
                    &&& call_ensures(S::from_raw_query_result, (x,), decoded)
                    &&& match decoded {
                        Ok(item) => r == Ok::<Option<S::Item>, DbErr>(Some(item)),
                        Err(e) => r == Err::<Option<S::Item>, DbErr>(e),
                    }
                },
    {
        match row {
            Some(row) => {
                let decoded = S::from_raw_query_result(row);
                match decoded {
                    Ok(item) => Ok(Some(item)),
                    Err(e) => Err(e),
                }
            },
            None => Ok(None),
        }
    }

    /// Decodes the rows that a query returned, in order, stopping at the first row that fails
    /// to decode and giving its error.
    ///
    /// `decoded` in the contract stands for the outcomes of decoding the rows, from the first,
    /// up to and including the first failure.
    pub fn all_from_rows(rows: Vec<QueryResult>) -> (r: Result<Vec<S::Item>, DbErr>)
        ensures
            exists|decoded: Seq<Result<S::Item, DbErr>>|
                {
                    &&& decoded.len() <= rows.len()
                    &&& forall|i: int|
                        0 <= i < decoded.len() ==> call_ensures(
                            S::from_raw_query_result,
                            (rows@[i],),
                            #[trigger] decoded[i],
                        )
                    &&& decoded.len() < rows.len() ==> first_error_or_items(decoded) is Err
                    &&& match r {
                        Ok(items) => first_error_or_items(decoded) == Ok::<Seq<S::Item>, DbErr>(
                            items@,
                        ),
                        Err(e) => first_error_or_items(decoded) == Err::<Seq<S::Item>, DbErr>(e),
                    }
                },
            r matches Ok(items) ==> items.len() == rows.len(),
            r matches Ok(items) ==> forall|i: int|
                0 <= i < rows.len() ==> call_ensures(
                    S::from_raw_query_result,
                    (rows@[i],),
                    Ok::<S::Item, DbErr>(#[trigger] items@[i]),
                ),
            r matches Err(e) ==> exists|i: int|
                {
                    &&& 0 <= i < rows.len()
                    &&& call_ensures(S::from_raw_query_result, (rows@[i],), Err::<S::Item, DbErr>(e))
                    &&& forall|j: int|
                        0 <= j < i ==> exists|item: S::Item|
                            call_ensures(
                                S::from_raw_query_result,
                                (#[trigger] rows@[j],),
                                Ok::<S::Item, DbErr>(item),
                            )
                },
            rows.len() == 0 ==> r is Ok,
    {
        let len = rows.len();
        let ghost all = rows@;
        let mut models: Vec<S::Item> = Vec::new();
        let ghost mut decoded: Seq<Result<S::Item, DbErr>> = Seq::empty();
        for row in it: rows.into_iter()
            invariant
                it.seq() == all,
                all.len() == len,
                forall|i: int|
                    0 <= i < decoded.len() ==> call_ensures(
                        S::from_raw_query_result,
                        (all[i],),
                        #[trigger] decoded[i],
                    ),
                models.len() == it.index(),
                decoded.len() == it.index(),
                first_error_or_items(decoded) == Ok::<Seq<S::Item>, DbErr>(models@),
                forall|i: int|
                    0 <= i < models.len() ==> call_ensures(
                        S::from_raw_query_result,
                        (all[i],),
                        Ok::<S::Item, DbErr>(#[trigger] models@[i]),
                    ),
        {
            assert(it.index() < len);
            assert(row == all[it.index() as int]);
            let item = S::from_raw_query_result(row);
            proof {
                let earlier = decoded;
                decoded = decoded.push(item);
                assert(decoded.drop_last() =~= earlier);
            }
            match item {
                Ok(model) => {
                    models.push(model);
                },
                Err(e) => {
                    assert(first_error_or_items(decoded) == Err::<Seq<S::Item>, DbErr>(e));
                    assert forall|j: int| 0 <= j < models.len() implies exists|item: S::Item|
                        call_ensures(
                            S::from_raw_query_result,
                            (#[trigger] all[j],),
                            Ok::<S::Item, DbErr>(item),
                        ) by {
                        assert(call_ensures(
                            S::from_raw_query_result,
                            (all[j],),
                            Ok::<S::Item, DbErr>(models@[j]),
                        ));
                    }
                    return Err(e);
                },
            }
        }
        assert(first_error_or_items(decoded) == Ok::<Seq<S::Item>, DbErr>(models@));
        Ok(models)
    }
}

/// The outcomes of decoding rows give items exactly when every outcome is a success, and then
/// the items are those successes, one per outcome, in order: the `i`-th item is the `i`-th
/// outcome's.
pub proof fn lemma_items_are_the_decoded_rows_in_order<T>(
    decoded: Seq<Result<T, DbErr>>,
    items: Seq<T>,
)
    ensures
        first_error_or_items(decoded) == Ok::<Seq<T>, DbErr>(items) <==> (items.len()
            == decoded.len() && forall|i: int|
            0 <= i < decoded.len() ==> decoded[i] == Ok::<T, DbErr>(items[i])),
    decreases decoded.len(),
{
    if decoded.len() > 0 {
        let p = decoded.drop_last();
        if items.len() > 0 {
            lemma_items_are_the_decoded_rows_in_order(p, items.drop_last());
            if items.len() == decoded.len() && forall|i: int|
                0 <= i < decoded.len() ==> decoded[i] == Ok::<T, DbErr>(items[i]) {
                assert forall|i: int| 0 <= i < p.len() implies p[i] == Ok::<T, DbErr>(
                    items.drop_last()[i],
                ) by {
                    assert(decoded[i] == Ok::<T, DbErr>(items[i]));
                }
                assert(decoded[decoded.len() - 1] == Ok::<T, DbErr>(items[items.len() - 1]));
                assert(items.drop_last().push(items.last()) =~= items);
            }
            if first_error_or_items(decoded) == Ok::<Seq<T>, DbErr>(items) {
                let prev = first_error_or_items(p);
                assert(prev matches Ok(earlier) && decoded.last() is Ok);
                let earlier = prev->Ok_0;
                assert(items == earlier.push(decoded.last()->Ok_0));
                assert(earlier =~= items.drop_last());
                assert forall|i: int| 0 <= i < decoded.len() implies decoded[i] == Ok::<T, DbErr>(
                    items[i],
                ) by {
                    if i < p.len() {
                        assert(p[i] == decoded[i]);
                    }
                }
            }
        } else {
            if first_error_or_items(decoded) == Ok::<Seq<T>, DbErr>(items) {
                let prev = first_error_or_items(p);
                assert(prev matches Ok(earlier) && decoded.last() is Ok);
                assert(items.len() == prev->Ok_0.len() + 1);
            }
        }
    } else {
        if items.len() == 0 {
            assert(items =~= Seq::<T>::empty());
        }
    }
}

/// Taking the statement back out of a selector made from it gives that statement unchanged.
pub proof fn lemma_statement_round_trip<M: FromQueryResult>(stmt: Statement)
    ensures
        SelectorRaw::<SelectModel<M>>::from_statement::<M>(stmt).into_statement() == stmt,
{
}

/// Decoding the rows of a raw selector into another model leaves its statement unchanged.
pub proof fn lemma_into_model_keeps_statement<S: SelectorTrait, M: FromQueryResult>(
    selector: SelectorRaw<S>,
)
    ensures
        selector.into_model::<M>().into_statement() == selector.into_statement(),
{
}

} // verus!
