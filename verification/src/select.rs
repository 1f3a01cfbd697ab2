//! Select queries on one entity or on two related entities, and how each becomes a selector.

use core::marker::PhantomData;
use vstd::prelude::*;

use crate::consolidate::{
    all_children, consolidate_keyed_rows, consolidated, first_keys, last_left_with_key, groups_view, keyed_view,
    lemma_every_group_has_a_row, lemma_every_row_has_a_group, lemma_first_keys_distinct, lemma_flattened_groups,
    lemma_group_left_is_from_its_key, lemma_groups_in_first_occurrence_order,
    lemma_last_left_is_the_last_row, linked_rows, rights_with_key,
};
use crate::key::KeyView;
use crate::key::KeyValue;
use crate::outside::without_selects;
use crate::selector::{
    SelectGetableTuple, SelectGetableValue, SelectModel, SelectTwoModel, Selector, SelectorRaw,
};
use crate::statement::Statement;
use crate::traits::{
    ColumnEnum, EntityTrait, FromQueryResult, ModelTrait, PartialModelTrait, TryGetableMany,
};

verus! {

/// `after` is a statement that `sea_query::SelectStatement::clear_selects` leaves of `before`:
/// the same query with no selected expressions.
pub closed spec fn selects_cleared(
    before: sea_query::SelectStatement,
    after: sea_query::SelectStatement,
) -> bool {
    call_ensures(without_selects, (before,), after)
}

/// A `SELECT` query on the entity `E`.
#[derive(Debug)]
pub struct Select<E> {
    pub query: sea_query::SelectStatement,
    pub entity: PhantomData<E>,
}

/// A `SELECT` query on the entity `E` joined with one related `F`.
#[derive(Debug)]
pub struct SelectTwo<E, F> {
    pub query: sea_query::SelectStatement,
    pub entity: PhantomData<(E, F)>,
}

/// A `SELECT` query on the entity `E` joined with its many related `F`.
#[derive(Debug)]
pub struct SelectTwoMany<E, F> {
    pub query: sea_query::SelectStatement,
    pub entity: PhantomData<(E, F)>,
}

impl<E> Select<E> where E: EntityTrait {
    /// A select query on `E` of the given statement.
    pub fn new(query: sea_query::SelectStatement) -> (s: Select<E>)
        ensures
            s.query == query,
    {
        Select { query, entity: PhantomData }
    }

    /// Clears the selected expressions, so that only those added afterwards are selected.
    pub fn select_only(self) -> (s: Select<E>)
        ensures
            selects_cleared(self.query, s.query),
    {
        let query = without_selects(self.query);
        Select { query, entity: PhantomData }
    }

    /// Performs a select operation on a model using a raw statement.
    pub fn from_raw_sql(self, stmt: Statement) -> (r: SelectorRaw<SelectModel<E::Model>>)
        ensures
            r.stmt == stmt,
    {
        SelectorRaw { stmt, selector: SelectModel { model: PhantomData } }
    }

    /// Returns a `Selector` that decodes each row into a model `M`.
    pub fn into_model<M>(self) -> (s: Selector<SelectModel<M>>) where M: FromQueryResult
        ensures
            s.query == self.query,
    {
        Selector { query: self.query, selector: SelectModel { model: PhantomData } }
    }

    /// Returns a `Selector` that selects only the columns of the partial model `M` and decodes
    /// each row into one.
    pub fn into_partial_model<M>(self) -> (s: Selector<SelectModel<M>>) where M: PartialModelTrait
        ensures
            exists|cleared: sea_query::SelectStatement|
                selects_cleared(self.query, cleared) && call_ensures(
                    M::select_cols,
                    (cleared,),
                    s.query,
                ),
    {
        let only = self.select_only();
        let query = M::select_cols(only.query);
        Select::<E> { query, entity: PhantomData }.into_model::<M>()
    }

    /// Returns a `Selector` that decodes each row into a JSON value.
    pub fn into_json(self) -> (s: Selector<SelectModel<serde_json::Value>>)
        ensures
            s.query == self.query,
    {
        Selector { query: self.query, selector: SelectModel { model: PhantomData } }
    }

    /// Returns a `Selector` that reads each row into values of `T` by the columns of `C`.
    pub fn into_values<T, C>(self) -> (s: Selector<SelectGetableValue<T, C>>) where
        T: TryGetableMany,
        C: ColumnEnum,
        ensures
            s.query == self.query,
    {
        Selector::<SelectGetableValue<T, C>>::with_columns(self.query)
    }

    /// Returns a `Selector` that reads each row into values of `T` by column position.
    pub fn into_tuple<T>(self) -> (s: Selector<SelectGetableTuple<T>>) where T: TryGetableMany
        ensures
            s.query == self.query,
    {
        Selector::<SelectGetableTuple<T>>::into_tuple(self.query)
    }
}

impl<E, F> SelectTwo<E, F> where E: EntityTrait, F: EntityTrait {
    /// A select query on `E` and one related `F` of the given statement.
    pub fn new(query: sea_query::SelectStatement) -> (s: SelectTwo<E, F>)
        ensures
            s.query == query,
    {
        SelectTwo { query, entity: PhantomData }
    }

    /// Clears the selected expressions, so that only those added afterwards are selected.
    pub fn select_only(self) -> (s: SelectTwo<E, F>)
        ensures
            selects_cleared(self.query, s.query),
    {
        let query = without_selects(self.query);
        SelectTwo { query, entity: PhantomData }
    }

    /// Returns a `Selector` that decodes each row into a model `M` and, where present, a model
    /// `N`.
    pub fn into_model<M, N>(self) -> (s: Selector<SelectTwoModel<M, N>>) where
        M: FromQueryResult,
        N: FromQueryResult,
        ensures
            s.query == self.query,
    {
        Selector { query: self.query, selector: SelectTwoModel { model: PhantomData } }
    }

    /// Returns a `Selector` that selects only the columns of the partial models `M` and `N`
    /// and decodes each row into them.
    pub fn into_partial_model<M, N>(self) -> (s: Selector<SelectTwoModel<M, N>>) where
        M: PartialModelTrait,
        N: PartialModelTrait,
        ensures
            exists|cleared: sea_query::SelectStatement, with_m: sea_query::SelectStatement|
                {
                    &&& selects_cleared(self.query, cleared)
                    &&& call_ensures(M::select_cols, (cleared,), with_m)
                    &&& call_ensures(N::select_cols, (with_m,), s.query)
                },
    {
        let only = self.select_only();
        let query = M::select_cols(only.query);
        let query = N::select_cols(query);
        SelectTwo::<E, F> { query, entity: PhantomData }.into_model::<M, N>()
    }

    /// Returns a `Selector` that decodes each row into two JSON values.
    pub fn into_json(self) -> (s: Selector<SelectTwoModel<serde_json::Value, serde_json::Value>>)
        ensures
            s.query == self.query,
    {
        Selector { query: self.query, selector: SelectTwoModel { model: PhantomData } }
    }
}

impl<E, F> SelectTwoMany<E, F> where E: EntityTrait, F: EntityTrait {
    /// A select query on `E` and its many related `F` of the given statement.
    pub fn new(query: sea_query::SelectStatement) -> (s: SelectTwoMany<E, F>)
        ensures
            s.query == query,
    {
        SelectTwoMany { query, entity: PhantomData }
    }

    /// Clears the selected expressions, so that only those added afterwards are selected.
    pub fn select_only(self) -> (s: SelectTwoMany<E, F>)
        ensures
            selects_cleared(self.query, s.query),
    {
        let query = without_selects(self.query);
        SelectTwoMany { query, entity: PhantomData }
    }

    /// Returns a `Selector` that decodes each row into a model `M` and, where present, a model
    /// `N`.
    pub fn into_model<M, N>(self) -> (s: Selector<SelectTwoModel<M, N>>) where
        M: FromQueryResult,
        N: FromQueryResult,
        ensures
            s.query == self.query,
    {
        Selector { query: self.query, selector: SelectTwoModel { model: PhantomData } }
    }

    /// Returns a `Selector` that selects only the columns of the partial models `M` and `N`
    /// and decodes each row into them.
    pub fn into_partial_model<M, N>(self) -> (s: Selector<SelectTwoModel<M, N>>) where
        M: PartialModelTrait,
        N: PartialModelTrait,
        ensures
            exists|cleared: sea_query::SelectStatement, with_m: sea_query::SelectStatement|
                {
                    &&& selects_cleared(self.query, cleared)
                    &&& call_ensures(M::select_cols, (cleared,), with_m)
                    &&& call_ensures(N::select_cols, (with_m,), s.query)
                },
    {
        let only = self.select_only();
        let query = M::select_cols(only.query);
        let query = N::select_cols(query);
        SelectTwoMany::<E, F> { query, entity: PhantomData }.into_model::<M, N>()
    }

    /// Returns a `Selector` that decodes each row into two JSON values.
    pub fn into_json(self) -> (s: Selector<SelectTwoModel<serde_json::Value, serde_json::Value>>)
        ensures
            s.query == self.query,
    {
        Selector { query: self.query, selector: SelectTwoModel { model: PhantomData } }
    }
}

/// The rows of a one-to-many select, each keyed by its left-hand model's primary key.
pub open spec fn rows_by_primary_key<L: ModelTrait, R>(rows: Seq<(L, Option<R>)>) -> Seq<
    (KeyView, L, Option<R>),
> {
    rows.map_values(|row: (L, Option<R>)| (row.0.key(), row.0, row.1))
}

/// Whether a row of a one-to-many select holds a right-hand model.
pub open spec fn linked<L, R>() -> spec_fn((L, Option<R>)) -> bool {
    |row: (L, Option<R>)| row.1 is Some
}

/// Whether a row of a one-to-many select has a left-hand model of key `k` and holds a
/// right-hand model.
pub open spec fn linked_with_key<L: ModelTrait, R>(k: KeyView) -> spec_fn((L, Option<R>)) -> bool {
    |row: (L, Option<R>)| row.0.key() == k && row.1 is Some
}

/// The right-hand model of a row that holds one.
pub open spec fn child<L, R>() -> spec_fn((L, Option<R>)) -> R {
    |row: (L, Option<R>)| row.1.unwrap()
}

proof fn lemma_rights_are_the_linked_rows_of_the_key<L: ModelTrait, R>(
    rows: Seq<(L, Option<R>)>,
    k: KeyView,
)
    ensures
        rights_with_key(rows_by_primary_key(rows), k) == rows.filter(linked_with_key(k)).map_values(
            child(),
        ),
        linked_rows(rows_by_primary_key(rows)) == rows.filter(linked()).len(),
    decreases rows.len(),
{
    broadcast use Seq::lemma_filter_push;

    if rows.len() > 0 {
        let p = rows.drop_last();
        lemma_rights_are_the_linked_rows_of_the_key(p, k);
        assert(p.push(rows.last()) =~= rows);
        assert(rows_by_primary_key(rows).drop_last() =~= rows_by_primary_key(p));
        assert(rows.filter(linked_with_key(k)).map_values(child()) =~= if linked_with_key(k)(
            rows.last(),
        ) {
            p.filter(linked_with_key(k)).map_values(child()).push(rows.last().1.unwrap())
        } else {
            p.filter(linked_with_key(k)).map_values(child())
        });
    } else {
        reveal(Seq::filter);
    }
}

/// Consolidating a one-to-many select by primary key keeps every row: every row's parent key is
/// the key of a group, and every group's parent is a parent of the rows; no key appears in two
/// groups; each group holds the right-hand models of exactly the rows with its parent's key, in
/// row order; and there are as many right-hand models over all groups as rows that hold one.
pub proof fn lemma_consolidation_by_primary_key<L: ModelTrait, R>(rows: Seq<(L, Option<R>)>)
    ensures
        ({
            let groups = consolidated(rows_by_primary_key(rows));
            &&& forall|i: int|
                #![trigger rows[i]]
                0 <= i < rows.len() ==> exists|j: int|
                    0 <= j < groups.len() && (#[trigger] groups[j]).0.key() == rows[i].0.key()
            &&& forall|j: int|
                0 <= j < groups.len() ==> exists|i: int|
                    0 <= i < rows.len() && rows[i].0 == (#[trigger] groups[j]).0
            &&& forall|j: int, k: int|
                0 <= j < k < groups.len() ==> groups[j].0.key() != groups[k].0.key()
            &&& forall|j: int|
                0 <= j < groups.len() ==> (#[trigger] groups[j]).1 == rows.filter(
                    linked_with_key(groups[j].0.key()),
                ).map_values(child())
            &&& all_children(groups).len() == rows.filter(linked()).len()
        }),
{
    let kr = rows_by_primary_key(rows);
    let groups = consolidated(kr);
    let fk = first_keys(kr);
    assert forall|j: int| 0 <= j < groups.len() implies (#[trigger] groups[j]).0.key() == fk[j]
        && exists|i: int| 0 <= i < rows.len() && rows[i].0 == groups[j].0 by {
        lemma_group_left_is_from_its_key(kr, j);
        let i = choose|i: int| 0 <= i < kr.len() && kr[i].0 == fk[j] && kr[i].1 == groups[j].0;
        assert(kr[i] == (rows[i].0.key(), rows[i].0, rows[i].1));
    }
    assert forall|i: int| #![trigger rows[i]] 0 <= i < rows.len() implies exists|j: int|
        0 <= j < groups.len() && (#[trigger] groups[j]).0.key() == rows[i].0.key() by {
        lemma_every_row_has_a_group(kr, i);
        assert(kr[i].0 == rows[i].0.key());
        let j = choose|j: int| 0 <= j < fk.len() && fk[j] == kr[i].0;
        assert(groups[j].0.key() == fk[j]);
    }
    lemma_first_keys_distinct(kr);
    assert forall|j: int, k: int| 0 <= j < k < groups.len() implies groups[j].0.key()
        != groups[k].0.key() by {
        assert(groups[j].0.key() == fk[j]);
        assert(groups[k].0.key() == fk[k]);
    }
    assert forall|j: int| 0 <= j < groups.len() implies (#[trigger] groups[j]).1 == rows.filter(
        linked_with_key(groups[j].0.key()),
    ).map_values(child()) by {
        assert(groups[j].0.key() == fk[j]);
        lemma_rights_are_the_linked_rows_of_the_key(rows, fk[j]);
    }
    lemma_flattened_groups(kr);
    lemma_rights_are_the_linked_rows_of_the_key(rows, arbitrary());
}

/// Consolidating a one-to-many select by primary key keeps, for each key, the parent of the
/// last row with that key.
pub proof fn lemma_consolidation_keeps_last_parent<L: ModelTrait, R>(rows: Seq<(L, Option<R>)>)
    ensures
        forall|j: int|
            0 <= j < consolidated(rows_by_primary_key(rows)).len() ==> exists|i: int|
                {
                    &&& 0 <= i < rows.len()
                    &&& rows[i].0 == (#[trigger] consolidated(rows_by_primary_key(rows))[j]).0
                    &&& forall|later: int|
                        i < later < rows.len() ==> rows[later].0.key() != consolidated(
                            rows_by_primary_key(rows),
                        )[j].0.key()
                },
{
    let kr = rows_by_primary_key(rows);
    let groups = consolidated(kr);
    let fk = first_keys(kr);
    assert forall|j: int| 0 <= j < groups.len() implies exists|i: int|
        {
            &&& 0 <= i < rows.len()
            &&& rows[i].0 == (#[trigger] groups[j]).0
            &&& forall|later: int|
                i < later < rows.len() ==> rows[later].0.key() != groups[j].0.key()
        } by {
        lemma_group_left_is_from_its_key(kr, j);
        let i0 = choose|i: int| 0 <= i < kr.len() && kr[i].0 == fk[j] && kr[i].1 == groups[j].0;
        assert(kr[i0] == (rows[i0].0.key(), rows[i0].0, rows[i0].1));
        assert(groups[j].0.key() == fk[j]);
        lemma_every_group_has_a_row(kr, j);
        lemma_last_left_is_the_last_row(kr, fk[j]);
        let i = choose|i: int|
            {
                &&& 0 <= i < kr.len()
                &&& kr[i].0 == fk[j]
                &&& kr[i].1 == last_left_with_key(kr, fk[j])
                &&& forall|later: int| i < later < kr.len() ==> kr[later].0 != fk[j]
            };
        assert(kr[i] == (rows[i].0.key(), rows[i].0, rows[i].1));
        assert forall|later: int| i < later < rows.len() implies rows[later].0.key()
            != groups[j].0.key() by {
            assert(kr[later] == (rows[later].0.key(), rows[later].0, rows[later].1));
        }
    }
}

/// Consolidating a one-to-many select by primary key lists the groups in the order in which
/// their keys first occur: before any row with the key of group `k` there is a row with the
/// key of each earlier group `j`.
pub proof fn lemma_consolidation_order_by_primary_key<L: ModelTrait, R>(
    rows: Seq<(L, Option<R>)>,
    j: int,
    k: int,
    i2: int,
)
    requires
        0 <= j < k < consolidated(rows_by_primary_key(rows)).len(),
        0 <= i2 < rows.len(),
        rows[i2].0.key() == consolidated(rows_by_primary_key(rows))[k].0.key(),
    ensures
        exists|i1: int|
            0 <= i1 < i2 && rows[i1].0.key() == consolidated(rows_by_primary_key(rows))[j].0.key(),
{
    let kr = rows_by_primary_key(rows);
    let groups = consolidated(kr);
    let fk = first_keys(kr);
    assert forall|g: int| 0 <= g < groups.len() implies (#[trigger] groups[g]).0.key() == fk[g] by {
        lemma_group_left_is_from_its_key(kr, g);
        let i = choose|i: int| 0 <= i < kr.len() && kr[i].0 == fk[g] && kr[i].1 == groups[g].0;
        assert(kr[i] == (rows[i].0.key(), rows[i].0, rows[i].1));
    }
    assert(groups[j].0.key() == fk[j]);
    assert(groups[k].0.key() == fk[k]);
    assert(kr[i2] == (rows[i2].0.key(), rows[i2].0, rows[i2].1));
    lemma_groups_in_first_occurrence_order(kr, j, k, i2);
    let i1 = choose|i1: int| 0 <= i1 < i2 && kr[i1].0 == fk[j];
    assert(kr[i1] == (rows[i1].0.key(), rows[i1].0, rows[i1].1));
}

proof fn lemma_groups_of_primary_keys<L: ModelTrait, R>(
    rows: Seq<(L, Option<R>)>,
    groups: Seq<(L, Vec<R>)>,
)
    requires
        groups_view(groups) == consolidated(rows_by_primary_key(rows)),
    ensures
        forall|i: int|
            #![trigger rows[i]]
            0 <= i < rows.len() ==> exists|j: int|
                0 <= j < groups.len() && (#[trigger] groups[j]).0.key() == rows[i].0.key(),
        forall|j: int|
            0 <= j < groups.len() ==> exists|i: int|
                0 <= i < rows.len() && rows[i].0 == (#[trigger] groups[j]).0,
        forall|j: int, k: int| 0 <= j < k < groups.len() ==> groups[j].0.key() != groups[k].0.key(),
        forall|j: int|
            0 <= j < groups.len() ==> (#[trigger] groups[j]).1@ == rows.filter(
                linked_with_key(groups[j].0.key()),
            ).map_values(child()),
        all_children(groups_view(groups)).len() == rows.filter(linked()).len(),
{
    let g = consolidated(rows_by_primary_key(rows));
    assert(groups.len() == g.len()) by {
        assert(groups_view(groups).len() == groups.len());
    }
    assert forall|j: int| 0 <= j < groups.len() implies (#[trigger] groups[j]).0 == g[j].0
        && groups[j].1@ == g[j].1 by {
        assert(groups_view(groups)[j] == g[j]);
    }
    assert forall|i: int| #![trigger rows[i]] 0 <= i < rows.len() implies exists|j: int|
        0 <= j < groups.len() && (#[trigger] groups[j]).0.key() == rows[i].0.key() by {
        lemma_consolidation_by_primary_key(rows);
        let j = choose|j: int| 0 <= j < g.len() && (#[trigger] g[j]).0.key() == rows[i].0.key();
        assert(groups[j].0 == g[j].0);
    }
    assert forall|j: int| 0 <= j < groups.len() implies exists|i: int|
        0 <= i < rows.len() && rows[i].0 == (#[trigger] groups[j]).0 by {
        lemma_consolidation_by_primary_key(rows);
        assert(groups[j].0 == g[j].0);
        let i = choose|i: int| 0 <= i < rows.len() && rows[i].0 == (#[trigger] g[j]).0;
    }
    assert forall|j: int, k: int| 0 <= j < k < groups.len() implies groups[j].0.key()
        != groups[k].0.key() by {
        lemma_consolidation_by_primary_key(rows);
        assert(groups[j].0 == g[j].0);
        assert(groups[k].0 == g[k].0);
    }
    assert forall|j: int| 0 <= j < groups.len() implies (#[trigger] groups[j]).1@ == rows.filter(
        linked_with_key(groups[j].0.key()),
    ).map_values(child()) by {
        lemma_consolidation_by_primary_key(rows);
        assert(groups[j].0 == g[j].0);
        assert(g[j].1 == rows.filter(linked_with_key(g[j].0.key())).map_values(child()));
    }
    assert(all_children(groups_view(groups)).len() == rows.filter(linked()).len()) by {
        lemma_consolidation_by_primary_key(rows);
    }
}

/// Groups the rows of a one-to-many select by the first primary key of their left-hand model:
/// one entry per key, in the order in which the keys first occur, with the left-hand model of
/// the last row of that key and the right-hand models present in its rows, in row order. A
/// left-hand model that no row links to a right-hand model is kept, with no right-hand models.
pub fn consolidate_query_result<L, R>(rows: Vec<(L::Model, Option<R::Model>)>) -> (groups: Vec<
    (L::Model, Vec<R::Model>),
>) where L: EntityTrait, R: EntityTrait
    ensures
        groups_view(groups@) == consolidated(rows_by_primary_key(rows@)),
        forall|i: int|
            #![trigger rows@[i]]
            0 <= i < rows.len() ==> exists|j: int|
                0 <= j < groups.len() && (#[trigger] groups@[j]).0.key() == rows@[i].0.key(),
        forall|j: int|
            0 <= j < groups.len() ==> exists|i: int|
                0 <= i < rows.len() && rows@[i].0 == (#[trigger] groups@[j]).0,
        forall|j: int, k: int|
            0 <= j < k < groups.len() ==> groups@[j].0.key() != groups@[k].0.key(),
        forall|j: int|
            0 <= j < groups.len() ==> (#[trigger] groups@[j]).1@ == rows@.filter(
                linked_with_key(groups@[j].0.key()),
            ).map_values(child()),
        all_children(groups_view(groups@)).len() == rows@.filter(linked()).len(),
{
    let ghost all = rows@;
    let len = rows.len();
    let mut keyed: Vec<(KeyValue, L::Model, Option<R::Model>)> = Vec::new();
    for row in it: rows.into_iter()
        invariant
            it.seq() == all,
            all.len() == len,
            keyed.len() == it.index(),
            forall|i: int|
                0 <= i < keyed.len() ==> (#[trigger] keyed@[i]).0@ == all[i].0.key() && keyed@[i].1
                    == all[i].0 && keyed@[i].2 == all[i].1,
    {
        let key = row.0.primary_key_value();
        keyed.push((key, row.0, row.1));
    }
    assert(keyed_view(keyed@) =~= rows_by_primary_key(all));
    let groups = consolidate_keyed_rows(keyed);
    proof {
        lemma_groups_of_primary_keys(all, groups@);
    }
    groups
}

} // verus!
