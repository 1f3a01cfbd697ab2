//! Decoding a result row into a JSON object.

use vstd::prelude::*;
use vstd::string::StringExecFns;

use crate::outside::{
    is_utf8, json_object, json_object_of, json_of_value, sea_value_to_json, strip_prefix,
    value_bytes,
};
use crate::statement::{DbErr, QueryResult};
use crate::traits::FromQueryResult;

verus! {

/// The entries of the JSON object of a row's columns whose names start with `pre`: each such
/// column's name without `pre`, with the JSON form of its value, in column order.
pub open spec fn json_entries(row: Seq<(String, sea_query::Value)>, pre: Seq<char>) -> Seq<
    (Seq<char>, serde_json::Value),
>
    decreases row.len(),
{
    if row.len() == 0 {
        Seq::empty()
    } else {
        let earlier = json_entries(row.drop_last(), pre);
        let column = row.last().0@;
        if pre.is_prefix_of(column) {
            earlier.push((column.skip(pre.len() as int), json_of_value(row.last().1).unwrap()))
        } else {
            earlier
        }
    }
}

/// Whether a column's name starts with `pre`.
pub open spec fn prefixed(pre: Seq<char>) -> spec_fn((String, sea_query::Value)) -> bool {
    |c: (String, sea_query::Value)| pre.is_prefix_of(c.0@)
}

/// A column as a JSON entry: its name without `pre`, with the JSON form of its value.
pub open spec fn entry_of(pre: Seq<char>) -> spec_fn((String, sea_query::Value)) -> (
    Seq<char>,
    serde_json::Value,
) {
    |c: (String, sea_query::Value)| (c.0@.skip(pre.len() as int), json_of_value(c.1).unwrap())
}

/// The JSON entries of a row are its columns whose names start with `pre`, every one of them and
/// no other, in column order, each as its name without `pre` with the JSON form of its value.
pub proof fn lemma_json_entries_are_the_prefixed_columns(
    row: Seq<(String, sea_query::Value)>,
    pre: Seq<char>,
)
    ensures
        json_entries(row, pre) == row.filter(prefixed(pre)).map_values(entry_of(pre)),
        json_entries(row, pre).len() == row.filter(prefixed(pre)).len(),
        forall|i: int|
            0 <= i < row.len() && pre.is_prefix_of(#[trigger] row[i].0@) ==> json_entries(
                row,
                pre,
            ).contains(entry_of(pre)(row[i])),
    decreases row.len(),
{
    broadcast use Seq::lemma_filter_push;

    let f = row.filter(prefixed(pre));
    if row.len() > 0 {
        let p = row.drop_last();
        lemma_json_entries_are_the_prefixed_columns(p, pre);
        assert(p.push(row.last()) =~= row);
        assert(row.filter(prefixed(pre)) == if prefixed(pre)(row.last()) {
            p.filter(prefixed(pre)).push(row.last())
        } else {
            p.filter(prefixed(pre))
        });
        assert(json_entries(row, pre) =~= f.map_values(entry_of(pre)));
        assert forall|i: int|
            0 <= i < row.len() && pre.is_prefix_of(#[trigger] row[i].0@) implies json_entries(
            row,
            pre,
        ).contains(entry_of(pre)(row[i])) by {
            let e = json_entries(row, pre);
            if i == row.len() - 1 {
                assert(e[e.len() - 1] == entry_of(pre)(row[i]));
            } else {
                assert(p[i] == row[i]);
                let ep = json_entries(p, pre);
                assert(ep.contains(entry_of(pre)(p[i])));
                let k = choose|k: int| 0 <= k < ep.len() && ep[k] == entry_of(pre)(p[i]);
                assert(e[k] == ep[k]);
            }
        }
    } else {
        reveal(Seq::filter);
        assert(json_entries(row, pre) =~= f.map_values(entry_of(pre)));
    }
}

/// Every value of a column whose name starts with `pre` has a JSON form.
pub open spec fn json_convertible(row: Seq<(String, sea_query::Value)>, pre: Seq<char>) -> bool {
    forall|i: int|
        0 <= i < row.len() && pre.is_prefix_of(#[trigger] row[i].0@) ==> json_of_value(row[i].1) is Some
}

/// The message of the error for a column whose bytes are not valid UTF-8 text.
pub open spec fn not_utf8_message(column: Seq<char>) -> Seq<char> {
    "Bytes that are not valid UTF-8 in column "@ + column
}

impl FromQueryResult for serde_json::Value {
    /// A JSON object of the columns whose names start with `pre`, keyed by their names without
    /// `pre`. A column of bytes that are not valid UTF-8 text has no JSON form: decoding fails
    /// with a type error that names it.
    fn from_query_result(res: &QueryResult, pre: &str) -> (r: Result<serde_json::Value, DbErr>)
        ensures
            json_convertible(res.row@, pre@) ==> r == Ok::<serde_json::Value, DbErr>(
                json_object_of(json_entries(res.row@, pre@)),
            ),
            json_convertible(res.row@, pre@) ==> r == Ok::<serde_json::Value, DbErr>(
                json_object_of(res.row@.filter(prefixed(pre@)).map_values(entry_of(pre@))),
            ),
            !json_convertible(res.row@, pre@) ==> (r matches Err(DbErr::Type(m)) && exists|i: int|
                {
                    &&& 0 <= i < res.row@.len()
                    &&& pre@.is_prefix_of(res.row@[i].0@)
                    &&& json_of_value(res.row@[i].1) is None
                    &&& json_convertible(res.row@.take(i), pre@)
                    &&& m@ == not_utf8_message(res.row@[i].0@)
                }),
    {
        let ghost row = res.row@;
        let ghost p = pre@;
        let mut entries: Vec<(String, serde_json::Value)> = Vec::new();
        let mut i: usize = 0;
        while i < res.row.len()
            invariant
                row == res.row@,
                p == pre@,
                i <= row.len(),
                json_convertible(row.take(i as int), p),
                entries@.map_values(|e: (String, serde_json::Value)| (e.0@, e.1)) == json_entries(
                    row.take(i as int),
                    p,
                ),
            decreases row.len() - i,
        {
            let ghost before = row.take(i as int);
            let ghost after = row.take(i + 1);
            assert(after.drop_last() =~= before);
            assert(after.last() == row[i as int]);
            let column = &res.row[i].0;
            let value = &res.row[i].1;
            match strip_prefix(column.as_str(), pre) {
                Some(rest) => {
                    match value_bytes(value) {
                        Some(bytes) => {
                            if !is_utf8(bytes) {
                                assert(!json_convertible(row, p)) by {
                                    assert(p.is_prefix_of(row[i as int].0@));
                                }
                                assert(json_of_value(row[i as int].1) is None);
                                let message = String::from_str(
                                    "Bytes that are not valid UTF-8 in column ",
                                ).concat(column.as_str());
                                return Err(DbErr::Type(message));
                            }
                        },
                        None => {},
                    }
                    let json = sea_value_to_json(value);
                    let ghost old_entries = entries@;
                    entries.push((String::from_str(rest), json));
                    proof {
                        assert(entries@.map_values(|e: (String, serde_json::Value)| (e.0@, e.1))
                            =~= old_entries.map_values(
                            |e: (String, serde_json::Value)| (e.0@, e.1),
                        ).push((column@.skip(p.len() as int), json)));
                        assert forall|j: int|
                            0 <= j < after.len() && p.is_prefix_of(
                                #[trigger] after[j].0@,
                            ) implies json_of_value(after[j].1) is Some by {
                            if j < before.len() {
                                assert(after[j] == before[j]);
                            }
                        }
                    }
                },
                None => {
                    proof {
                        assert forall|j: int|
                            0 <= j < after.len() && p.is_prefix_of(
                                #[trigger] after[j].0@,
                            ) implies json_of_value(after[j].1) is Some by {
                            if j < before.len() {
                                assert(after[j] == before[j]);
                            }
                        }
                    }
                },
            }
            i = i + 1;
        }
        assert(row.take(i as int) =~= row);
        proof {
            lemma_json_entries_are_the_prefixed_columns(row, p);
        }
        Ok(json_object(entries))
    }
}

} // verus!
