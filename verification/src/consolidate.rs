use vstd::prelude::*;

use crate::key::{KeyValue, KeyView};

verus! {

/// The keys of `rows`, each once, in the order in which they first occur.
pub open spec fn first_keys<L, R>(rows: Seq<(KeyView, L, Option<R>)>) -> Seq<KeyView>
    decreases rows.len(),
{
    if rows.len() == 0 {
        Seq::empty()
    } else {
        let earlier = first_keys(rows.drop_last());
        let k = rows.last().0;
        if earlier.contains(k) {
            earlier
        } else {
            earlier.push(k)
        }
    }
}

/// The right-hand models present in the rows whose key is `k`, in row order.
pub open spec fn rights_with_key<L, R>(rows: Seq<(KeyView, L, Option<R>)>, k: KeyView) -> Seq<R>
    decreases rows.len(),
{
    if rows.len() == 0 {
        Seq::empty()
    } else {
        let earlier = rights_with_key(rows.drop_last(), k);
        if rows.last().0 == k && rows.last().2 is Some {
            earlier.push(rows.last().2.unwrap())
        } else {
            earlier
        }
    }
}

/// The left-hand model of the last row whose key is `k`.
pub open spec fn last_left_with_key<L, R>(rows: Seq<(KeyView, L, Option<R>)>, k: KeyView) -> L
    decreases rows.len(),
{
    if rows.len() == 0 {
        arbitrary()
    } else if rows.last().0 == k {
        rows.last().1
    } else {
        last_left_with_key(rows.drop_last(), k)
    }
}

/// The rows of a one-to-many join, consolidated: one entry per left-hand key, in the order in
/// which the keys first occur, holding the left-hand model of the last row with that key and
/// the right-hand models present in the rows with that key, in row order (none where the
/// left-hand model has no related model).
pub open spec fn consolidated<L, R>(rows: Seq<(KeyView, L, Option<R>)>) -> Seq<(L, Seq<R>)> {
    first_keys(rows).map_values(|k: KeyView| (last_left_with_key(rows, k), rights_with_key(rows, k)))
}

/// Rows with their keys taken by value.
pub open spec fn keyed_view<L, R>(rows: Seq<(KeyValue, L, Option<R>)>) -> Seq<(KeyView, L, Option<R>)> {
    rows.map_values(|row: (KeyValue, L, Option<R>)| (row.0@, row.1, row.2))
}

/// The view of consolidated groups: each group's right-hand models taken as a sequence.
pub open spec fn groups_view<L, R>(groups: Seq<(L, Vec<R>)>) -> Seq<(L, Seq<R>)> {
    groups.map_values(|g: (L, Vec<R>)| (g.0, g.1@))
}

/// The number of rows that hold a right-hand model.
pub open spec fn linked_rows<L, R>(rows: Seq<(KeyView, L, Option<R>)>) -> int
    decreases rows.len(),
{
    if rows.len() == 0 {
        0
    } else {
        linked_rows(rows.drop_last()) + if rows.last().2 is Some {
            1int
        } else {
            0int
        }
    }
}

/// The right-hand models of one row: its own, or none.
pub open spec fn row_rights<L, R>(row: (KeyView, L, Option<R>)) -> Seq<R> {
    match row.2 {
        Some(r) => seq![r],
        None => Seq::empty(),
    }
}

proof fn lemma_first_keys_grow<L, R>(rows: Seq<(KeyView, L, Option<R>)>)
    requires
        rows.len() > 0,
    ensures
        first_keys(rows).contains(rows.last().0),
        forall|k: KeyView| first_keys(rows.drop_last()).contains(k) ==> #[trigger] first_keys(rows).contains(k),
{
    let earlier = first_keys(rows.drop_last());
    let k = rows.last().0;
    if !earlier.contains(k) {
        assert(earlier.push(k)[earlier.len() as int] == k);
        assert forall|j: KeyView| earlier.contains(j) implies #[trigger] earlier.push(k).contains(j) by {
            let i = choose|i: int| 0 <= i < earlier.len() && earlier[i] == j;
            assert(earlier.push(k)[i] == j);
        }
    }
}

proof fn lemma_absent_key_has_no_rights<L, R>(rows: Seq<(KeyView, L, Option<R>)>, k: KeyView)
    requires
        !first_keys(rows).contains(k),
    ensures
        rights_with_key(rows, k) == Seq::<R>::empty(),
    decreases rows.len(),
{
    if rows.len() > 0 {
        lemma_first_keys_grow(rows);
        lemma_absent_key_has_no_rights(rows.drop_last(), k);
    }
}

/// The number of right-hand models over all groups.
pub open spec fn total_rights<L, R>(groups: Seq<(L, Seq<R>)>) -> int
    decreases groups.len(),
{
    if groups.len() == 0 {
        0
    } else {
        total_rights(groups.drop_last()) + groups.last().1.len()
    }
}

spec fn count_rights<L, R>(rows: Seq<(KeyView, L, Option<R>)>, ks: Seq<KeyView>) -> int
    decreases ks.len(),
{
    if ks.len() == 0 {
        0
    } else {
        count_rights(rows, ks.drop_last()) + rights_with_key(rows, ks.last()).len()
    }
}

proof fn lemma_count_rights_push_row<L, R>(rows: Seq<(KeyView, L, Option<R>)>, ks: Seq<KeyView>)
    requires
        rows.len() > 0,
        ks.no_duplicates(),
    ensures
        count_rights(rows, ks) == count_rights(rows.drop_last(), ks) + if ks.contains(rows.last().0)
            && rows.last().2 is Some {
            1int
        } else {
            0int
        },
    decreases ks.len(),
{
    if ks.len() > 0 {
        let init = ks.drop_last();
        assert(init.no_duplicates());
        lemma_count_rights_push_row(rows, init);
        let k = rows.last().0;
        if ks.last() == k {
            assert(!init.contains(k));
        } else {
            assert(ks.contains(k) == init.contains(k)) by {
                if ks.contains(k) {
                    let i = choose|i: int| 0 <= i < ks.len() && ks[i] == k;
                    assert(init[i] == k);
                }
                if init.contains(k) {
                    let i = choose|i: int| 0 <= i < init.len() && init[i] == k;
                    assert(ks[i] == k);
                }
            }
        }
    }
}

proof fn lemma_total_rights_of_map<L, R>(rows: Seq<(KeyView, L, Option<R>)>, ks: Seq<KeyView>)
    ensures
        total_rights(
            ks.map_values(|k: KeyView| (last_left_with_key(rows, k), rights_with_key(rows, k))),
        ) == count_rights(rows, ks),
    decreases ks.len(),
{
    if ks.len() > 0 {
        let f = |k: KeyView| (last_left_with_key(rows, k), rights_with_key(rows, k));
        assert(ks.drop_last().map_values(f) =~= ks.map_values(f).drop_last());
        lemma_total_rights_of_map(rows, ks.drop_last());
    }
}

/// Consolidation lists each key once: the keys of the groups are pairwise distinct.
pub proof fn lemma_first_keys_distinct<L, R>(rows: Seq<(KeyView, L, Option<R>)>)
    ensures
        first_keys(rows).no_duplicates(),
    decreases rows.len(),
{
    if rows.len() > 0 {
        lemma_first_keys_distinct(rows.drop_last());
        let earlier = first_keys(rows.drop_last());
        let k = rows.last().0;
        if !earlier.contains(k) {
            let pushed = earlier.push(k);
            assert forall|i: int, j: int| 0 <= i < j < pushed.len() implies pushed[i] != pushed[j] by {
                if j == earlier.len() {
                    assert(earlier[i] != k);
                }
            }
        }
    }
}

/// Consolidation leaves no left-hand model out: the key of every row is the key of a group,
/// whether or not the row holds a right-hand model.
pub proof fn lemma_every_row_has_a_group<L, R>(rows: Seq<(KeyView, L, Option<R>)>, i: int)
    requires
        0 <= i < rows.len(),
    ensures
        first_keys(rows).contains(rows[i].0),
    decreases rows.len(),
{
    lemma_first_keys_grow(rows);
    if i < rows.len() - 1 {
        lemma_every_row_has_a_group(rows.drop_last(), i);
    }
}

/// Every group's key is the key of some row: consolidation invents no key.
pub proof fn lemma_every_group_has_a_row<L, R>(rows: Seq<(KeyView, L, Option<R>)>, j: int)
    requires
        0 <= j < first_keys(rows).len(),
    ensures
        exists|i: int| 0 <= i < rows.len() && rows[i].0 == first_keys(rows)[j],
    decreases rows.len(),
{
    let p = rows.drop_last();
    if j < first_keys(p).len() && first_keys(p)[j] == first_keys(rows)[j] {
        lemma_every_group_has_a_row(p, j);
        let i = choose|i: int| 0 <= i < p.len() && p[i].0 == first_keys(p)[j];
        assert(rows[i] == p[i]);
    } else {
        assert(first_keys(rows)[j] == rows.last().0);
        assert(rows[rows.len() - 1] == rows.last());
    }
}

/// Consolidation neither loses nor repeats a right-hand model: over all groups there are as many
/// right-hand models as there are rows that hold one.
pub proof fn lemma_consolidation_keeps_every_right<L, R>(rows: Seq<(KeyView, L, Option<R>)>)
    ensures
        total_rights(consolidated(rows)) == linked_rows(rows),
{
    lemma_total_rights_of_map(rows, first_keys(rows));
    lemma_count_keys_rows(rows);
}

proof fn lemma_count_keys_rows<L, R>(rows: Seq<(KeyView, L, Option<R>)>)
    ensures
        count_rights(rows, first_keys(rows)) == linked_rows(rows),
    decreases rows.len(),
{
    if rows.len() > 0 {
        let p = rows.drop_last();
        let k = rows.last().0;
        lemma_count_keys_rows(p);
        lemma_first_keys_distinct(p);
        lemma_first_keys_distinct(rows);
        lemma_first_keys_grow(rows);
        lemma_count_rights_push_row(rows, first_keys(p));
        if !first_keys(p).contains(k) {
            lemma_absent_key_has_no_rights(p, k);
            assert(first_keys(rows).drop_last() =~= first_keys(p));
            assert(first_keys(rows).last() == k);
        }
    }
}

/// Consolidation puts the right-hand model of every row that holds one into the group of the
/// row's key.
pub proof fn lemma_row_right_in_its_group<L, R>(rows: Seq<(KeyView, L, Option<R>)>, i: int)
    requires
        0 <= i < rows.len(),
        rows[i].2 is Some,
    ensures
        rights_with_key(rows, rows[i].0).contains(rows[i].2.unwrap()),
    decreases rows.len(),
{
    let k = rows[i].0;
    if i == rows.len() - 1 {
        let rs = rights_with_key(rows, k);
        assert(rs[rs.len() - 1] == rows[i].2.unwrap());
    } else {
        lemma_row_right_in_its_group(rows.drop_last(), i);
        let earlier = rights_with_key(rows.drop_last(), k);
        let j = choose|j: int| 0 <= j < earlier.len() && earlier[j] == rows[i].2.unwrap();
        if rows.last().0 == k && rows.last().2 is Some {
            assert(earlier.push(rows.last().2.unwrap())[j] == rows[i].2.unwrap());
        }
    }
}

/// Rows whose keys are pairwise distinct consolidate into one group per row, in row order, each
/// holding the row's own models.
pub proof fn lemma_distinct_keys_give_singleton_groups<L, R>(rows: Seq<(KeyView, L, Option<R>)>)
    requires
        forall|i: int, j: int| 0 <= i < j < rows.len() ==> rows[i].0 != rows[j].0,
    ensures
        consolidated(rows) == rows.map_values(
            |row: (KeyView, L, Option<R>)| (row.1, row_rights(row)),
        ),
    decreases rows.len(),
{
    let f = |row: (KeyView, L, Option<R>)| (row.1, row_rights(row));
    if rows.len() > 0 {
        let p = rows.drop_last();
        let k = rows.last().0;
        lemma_distinct_keys_give_singleton_groups(p);
        assert(first_keys(p) =~= p.map_values(|row: (KeyView, L, Option<R>)| row.0)) by {
            lemma_first_keys_of_distinct(p);
        }
        assert(!first_keys(p).contains(k)) by {
            if first_keys(p).contains(k) {
                let h = choose|h: int| 0 <= h < first_keys(p).len() && first_keys(p)[h] == k;
                assert(p[h].0 == k);
                assert(rows[h].0 == rows[rows.len() - 1].0);
            }
        }
        lemma_absent_key_has_no_rights(p, k);
        assert(rights_with_key(rows, k) =~= row_rights(rows.last()));
        let g = |kk: KeyView| (last_left_with_key(rows, kk), rights_with_key(rows, kk));
        let gp = |kk: KeyView| (last_left_with_key(p, kk), rights_with_key(p, kk));
        assert forall|h: int| 0 <= h < first_keys(p).len() implies g(first_keys(p)[h]) == gp(first_keys(p)[h]) by {
            assert(first_keys(p)[h] == p[h].0);
            assert(rows[h].0 != rows[rows.len() - 1].0);
        }
        assert(consolidated(rows) =~= rows.map_values(f)) by {
            assert(first_keys(rows) == first_keys(p).push(k));
            assert(consolidated(p) == p.map_values(f));
            assert forall|h: int| 0 <= h < rows.len() implies consolidated(rows)[h] == rows.map_values(f)[h] by {
                if h < p.len() {
                    assert(consolidated(p)[h] == p.map_values(f)[h]);
                    assert(first_keys(p)[h] == p[h].0);
                }
            }
        }
    }
}

proof fn lemma_first_keys_of_distinct<L, R>(rows: Seq<(KeyView, L, Option<R>)>)
    requires
        forall|i: int, j: int| 0 <= i < j < rows.len() ==> rows[i].0 != rows[j].0,
    ensures
        first_keys(rows) =~= rows.map_values(|row: (KeyView, L, Option<R>)| row.0),
    decreases rows.len(),
{
    if rows.len() > 0 {
        let p = rows.drop_last();
        let k = rows.last().0;
        lemma_first_keys_of_distinct(p);
        assert(!first_keys(p).contains(k)) by {
            if first_keys(p).contains(k) {
                let h = choose|h: int| 0 <= h < first_keys(p).len() && first_keys(p)[h] == k;
                assert(p[h].0 == k);
                assert(rows[h].0 == rows[rows.len() - 1].0);
            }
        }
    }
}

/// What one more row does to a consolidation: a row with a new key adds a group at the end,
/// holding its own models; a row with a known key replaces that group's left-hand model with its
/// own and adds its right-hand model, if any, at the end of the group; every other group stays.
pub proof fn lemma_consolidated_push<L, R>(rows: Seq<(KeyView, L, Option<R>)>, x: (KeyView, L, Option<R>))
    ensures
        !first_keys(rows).contains(x.0) ==> consolidated(rows.push(x)) == consolidated(rows).push(
            (x.1, row_rights(x)),
        ),
        forall|j: int|
            0 <= j < first_keys(rows).len() && first_keys(rows)[j] == x.0 ==> consolidated(
                rows.push(x),
            ) == consolidated(rows).update(j, (x.1, consolidated(rows)[j].1 + row_rights(x))),
{
    let all = rows.push(x);
    assert(all.drop_last() =~= rows);
    assert(all.last() == x);
    let ks = first_keys(rows);
    assert forall|k: KeyView| k != x.0 implies last_left_with_key(all, k) == last_left_with_key(rows, k)
        && rights_with_key(all, k) == rights_with_key(rows, k) by {}
    assert(rights_with_key(all, x.0) =~= rights_with_key(rows, x.0) + row_rights(x));
    if !ks.contains(x.0) {
        lemma_absent_key_has_no_rights(rows, x.0);
        assert(first_keys(all) == ks.push(x.0));
        assert forall|h: int| 0 <= h < ks.len() implies ks[h] != x.0 by {}
        assert(consolidated(all) =~= consolidated(rows).push((x.1, row_rights(x))));
    }
    assert forall|j: int| 0 <= j < ks.len() && ks[j] == x.0 implies consolidated(all) == consolidated(
        rows,
    ).update(j, (x.1, consolidated(rows)[j].1 + row_rights(x))) by {
        assert(ks.contains(x.0));
        assert(first_keys(all) == ks);
        lemma_first_keys_distinct(rows);
        assert forall|h: int| 0 <= h < ks.len() && h != j implies ks[h] != x.0 by {}
        assert(consolidated(all) =~= consolidated(rows).update(
            j,
            (x.1, consolidated(rows)[j].1 + row_rights(x)),
        ));
    }
}

/// The left-hand model of each group is the left-hand model of a row with the group's key.
pub proof fn lemma_group_left_is_from_its_key<L, R>(rows: Seq<(KeyView, L, Option<R>)>, j: int)
    requires
        0 <= j < first_keys(rows).len(),
    ensures
        exists|i: int|
            0 <= i < rows.len() && rows[i].0 == first_keys(rows)[j] && rows[i].1 == consolidated(
                rows,
            )[j].0,
{
    let k = first_keys(rows)[j];
    lemma_every_group_has_a_row(rows, j);
    lemma_last_left_is_a_row(rows, k);
}

proof fn lemma_last_left_is_a_row<L, R>(rows: Seq<(KeyView, L, Option<R>)>, k: KeyView)
    requires
        exists|i: int| 0 <= i < rows.len() && rows[i].0 == k,
    ensures
        exists|i: int|
            0 <= i < rows.len() && rows[i].0 == k && rows[i].1 == last_left_with_key(rows, k),
    decreases rows.len(),
{
    lemma_last_left_is_the_last_row(rows, k);
}

/// The left-hand model of a key's group is that of the last row with the key.
pub proof fn lemma_last_left_is_the_last_row<L, R>(rows: Seq<(KeyView, L, Option<R>)>, k: KeyView)
    requires
        exists|i: int| 0 <= i < rows.len() && rows[i].0 == k,
    ensures
        exists|i: int|
            {
                &&& 0 <= i < rows.len()
                &&& rows[i].0 == k
                &&& rows[i].1 == last_left_with_key(rows, k)
                &&& forall|later: int| i < later < rows.len() ==> rows[later].0 != k
            },
    decreases rows.len(),
{
    let n = rows.len() - 1;
    if rows.last().0 == k {
        assert(rows[n] == rows.last());
    } else {
        let p = rows.drop_last();
        let i0 = choose|i: int| 0 <= i < rows.len() && rows[i].0 == k;
        assert(i0 < n);
        assert(p[i0] == rows[i0]);
        lemma_last_left_is_the_last_row(p, k);
        let i = choose|i: int|
            {
                &&& 0 <= i < p.len()
                &&& p[i].0 == k
                &&& p[i].1 == last_left_with_key(p, k)
                &&& forall|later: int| i < later < p.len() ==> p[later].0 != k
            };
        assert(rows[i] == p[i]);
        assert forall|later: int| i < later < rows.len() implies rows[later].0 != k by {
            if later < n {
                assert(rows[later] == p[later]);
            } else {
                assert(rows[later] == rows.last());
            }
        }
    }
}

/// Groups come in the order in which their keys first occur: every row with the key of a later
/// group is preceded by a row with the key of each earlier group.
pub proof fn lemma_groups_in_first_occurrence_order<L, R>(
    rows: Seq<(KeyView, L, Option<R>)>,
    j: int,
    k: int,
    i2: int,
)
    requires
        0 <= j < k < first_keys(rows).len(),
        0 <= i2 < rows.len(),
        rows[i2].0 == first_keys(rows)[k],
    ensures
        exists|i1: int| 0 <= i1 < i2 && rows[i1].0 == first_keys(rows)[j],
    decreases rows.len(),
{
    let p = rows.drop_last();
    let x = rows.last();
    let fp = first_keys(p);
    let fr = first_keys(rows);
    let n = rows.len() - 1;
    assert(rows[n] == x);
    if fp.contains(x.0) {
        assert(fr == fp);
        if i2 < n {
            assert(p[i2] == rows[i2]);
            lemma_groups_in_first_occurrence_order(p, j, k, i2);
            let i1 = choose|i1: int| 0 <= i1 < i2 && p[i1].0 == fp[j];
            assert(rows[i1] == p[i1]);
        } else {
            lemma_every_group_has_a_row(p, k);
            let i3 = choose|i: int| 0 <= i < p.len() && p[i].0 == fp[k];
            lemma_groups_in_first_occurrence_order(p, j, k, i3);
            let i1 = choose|i1: int| 0 <= i1 < i3 && p[i1].0 == fp[j];
            assert(rows[i1] == p[i1]);
        }
    } else {
        assert(fr == fp.push(x.0));
        if k < fp.len() {
            if i2 < n {
                assert(p[i2] == rows[i2]);
                lemma_groups_in_first_occurrence_order(p, j, k, i2);
                let i1 = choose|i1: int| 0 <= i1 < i2 && p[i1].0 == fp[j];
                assert(rows[i1] == p[i1]);
            } else {
                assert(fp[k] == x.0);
                assert(fp.contains(x.0));
            }
        } else {
            lemma_every_group_has_a_row(p, j);
            let i1 = choose|i: int| 0 <= i < p.len() && p[i].0 == fp[j];
            assert(rows[i1] == p[i1]);
            if i2 < n {
                assert(p[i2] == rows[i2]);
                lemma_every_row_has_a_group(p, i2);
            }
        }
    }
}

/// The right-hand models of `groups`, group after group.
pub open spec fn all_children<L, R>(groups: Seq<(L, Seq<R>)>) -> Seq<R> {
    groups.map_values(|g: (L, Seq<R>)| g.1).flatten()
}

/// The right-hand models of `rows`, stably ordered by the first occurrence of their row's key:
/// those of the first key to occur, in row order, then those of the next, and so on.
pub open spec fn children_by_first_key<L, R>(rows: Seq<(KeyView, L, Option<R>)>) -> Seq<R> {
    first_keys(rows).map_values(|k: KeyView| rights_with_key(rows, k)).flatten()
}

/// Flattening the groups gives back the right-hand models of the rows, each once, stably
/// ordered by the first occurrence of their key; there are as many as rows that hold one.
pub proof fn lemma_flattened_groups<L, R>(rows: Seq<(KeyView, L, Option<R>)>)
    ensures
        all_children(consolidated(rows)) == children_by_first_key(rows),
        all_children(consolidated(rows)).len() == linked_rows(rows),
{
    let f = |k: KeyView| (last_left_with_key(rows, k), rights_with_key(rows, k));
    let g = |gr: (L, Seq<R>)| gr.1;
    assert(consolidated(rows).map_values(g) =~= first_keys(rows).map_values(
        |k: KeyView| rights_with_key(rows, k),
    ));
    lemma_consolidation_keeps_every_right(rows);
    lemma_flatten_len_is_total(consolidated(rows));
}

proof fn lemma_flatten_len_is_total<L, R>(groups: Seq<(L, Seq<R>)>)
    ensures
        all_children(groups).len() == total_rights(groups),
    decreases groups.len(),
{
    if groups.len() > 0 {
        let g = |gr: (L, Seq<R>)| gr.1;
        let p = groups.drop_last();
        lemma_flatten_len_is_total(p);
        assert(groups.map_values(g) =~= p.map_values(g).push(groups.last().1));
        p.map_values(g).lemma_flatten_push(groups.last().1);
    }
}

/// Rows in which the rows of each key stand next to one another.
pub open spec fn keys_contiguous<L, R>(rows: Seq<(KeyView, L, Option<R>)>) -> bool {
    forall|i: int, j: int, k: int|
        0 <= i < j < k < rows.len() && rows[i].0 == rows[k].0 ==> rows[j].0 == rows[i].0
}

/// Rows whose left-hand models are equal wherever their keys are.
pub open spec fn same_key_same_left<L, R>(rows: Seq<(KeyView, L, Option<R>)>) -> bool {
    forall|i: int, j: int|
        0 <= i < rows.len() && 0 <= j < rows.len() && rows[i].0 == rows[j].0 ==> rows[i].1
            == rows[j].1
}

/// The maximal runs of rows with equal keys, in order, each as the left-hand model of its first
/// row with the right-hand models of its rows.
pub open spec fn key_runs<L, R>(rows: Seq<(KeyView, L, Option<R>)>) -> Seq<(L, Seq<R>)>
    decreases rows.len(),
{
    if rows.len() == 0 {
        Seq::empty()
    } else {
        let p = rows.drop_last();
        let x = rows.last();
        let earlier = key_runs(p);
        if p.len() > 0 && p.last().0 == x.0 {
            earlier.update(earlier.len() - 1, (earlier.last().0, earlier.last().1 + row_rights(x)))
        } else {
            earlier.push((x.1, row_rights(x)))
        }
    }
}

proof fn lemma_contiguous_last_first_key<L, R>(rows: Seq<(KeyView, L, Option<R>)>)
    requires
        rows.len() > 0,
        keys_contiguous(rows),
    ensures
        first_keys(rows).len() > 0,
        first_keys(rows).last() == rows.last().0,
    decreases rows.len(),
{
    let q = rows.drop_last();
    let y = rows.last();
    lemma_first_keys_grow(rows);
    if first_keys(q).contains(y.0) {
        let j = choose|j: int| 0 <= j < first_keys(q).len() && first_keys(q)[j] == y.0;
        lemma_every_group_has_a_row(q, j);
        let i = choose|i: int| 0 <= i < q.len() && q[i].0 == first_keys(q)[j];
        assert(rows[i].0 == rows[rows.len() - 1].0);
        if i < q.len() - 1 {
            assert(rows[q.len() - 1].0 == rows[i].0);
        }
        assert(q.last().0 == y.0);
        assert(keys_contiguous(q)) by {
            assert forall|a: int, b: int, c: int|
                0 <= a < b < c < q.len() && q[a].0 == q[c].0 implies q[b].0 == q[a].0 by {
                assert(rows[a] == q[a] && rows[b] == q[b] && rows[c] == q[c]);
            }
        }
        lemma_contiguous_last_first_key(q);
    }
}

/// Rows whose keys stand in contiguous runs, with equal left-hand models for equal keys, give
/// one group per run, in order: the run's left-hand model with the right-hand models of its rows.
pub proof fn lemma_contiguous_keys_give_runs<L, R>(rows: Seq<(KeyView, L, Option<R>)>)
    requires
        keys_contiguous(rows),
        same_key_same_left(rows),
    ensures
        consolidated(rows) == key_runs(rows),
    decreases rows.len(),
{
    if rows.len() > 0 {
        let p = rows.drop_last();
        let x = rows.last();
        assert(rows =~= p.push(x));
        assert(keys_contiguous(p)) by {
            assert forall|a: int, b: int, c: int|
                0 <= a < b < c < p.len() && p[a].0 == p[c].0 implies p[b].0 == p[a].0 by {
                assert(rows[a] == p[a] && rows[b] == p[b] && rows[c] == p[c]);
            }
        }
        assert(same_key_same_left(p)) by {
            assert forall|a: int, b: int|
                0 <= a < p.len() && 0 <= b < p.len() && p[a].0 == p[b].0 implies p[a].1 == p[b].1 by {
                assert(rows[a] == p[a] && rows[b] == p[b]);
            }
        }
        lemma_contiguous_keys_give_runs(p);
        lemma_consolidated_push(p, x);
        if p.len() > 0 && p.last().0 == x.0 {
            lemma_contiguous_last_first_key(p);
            let j = first_keys(p).len() - 1;
            assert(first_keys(p)[j] == x.0);
            assert(consolidated(p)[j].0 == last_left_with_key(p, x.0));
            assert(last_left_with_key(p, x.0) == p.last().1);
            assert(rows[p.len() - 1] == p.last());
            assert(rows[rows.len() - 1] == x);
            assert(p.last().1 == x.1);
        } else {
            assert(!first_keys(p).contains(x.0)) by {
                if first_keys(p).contains(x.0) {
                    let j = choose|j: int| 0 <= j < first_keys(p).len() && first_keys(p)[j] == x.0;
                    lemma_every_group_has_a_row(p, j);
                    let i = choose|i: int| 0 <= i < p.len() && p[i].0 == first_keys(p)[j];
                    assert(rows[i].0 == rows[rows.len() - 1].0);
                    assert(rows[p.len() - 1].0 == rows[i].0);
                }
            }
        }
    }
}

/// Groups the rows of a one-to-many join by the key of their left-hand model.
///
/// Each row is `(key, left, right)`. The result holds one entry per distinct key, in the order in
/// which the keys first occur; its left-hand model is that of the last row with the key, and its
/// right-hand models are those present in the rows with the key, in row order. A key whose rows
/// hold no right-hand model gets an empty list.
pub fn consolidate_keyed_rows<L, R>(rows: Vec<(KeyValue, L, Option<R>)>) -> (groups: Vec<(L, Vec<R>)>)
    ensures
        groups_view(groups@) == consolidated(keyed_view(rows@)),
{
    let ghost all = rows@;
    let ghost vall = keyed_view(rows@);
    let mut keys: Vec<KeyValue> = Vec::new();
    let mut groups: Vec<(L, Vec<R>)> = Vec::new();
    let mut n: usize = 0;
    let len = rows.len();
    for row in it: rows.into_iter()
        invariant
            it.seq() == all,
            vall == keyed_view(all),
            n == it.index(),
            all.len() == len,
            keys.len() == groups.len(),
            keys@.map_values(|k: KeyValue| k@) == first_keys(vall.take(n as int)),
            forall|a: int, b: int| 0 <= a < b < keys.len() ==> keys@[a]@ != keys@[b]@,
            forall|g: int|
                0 <= g < groups.len() ==> (#[trigger] groups@[g]).0 == last_left_with_key(
                    vall.take(n as int),
                    keys@[g]@,
                ) && groups@[g].1@ == rights_with_key(vall.take(n as int), keys@[g]@),
    {
        assert(n < len);
        let ghost before = vall.take(n as int);
        let ghost after = vall.take(n + 1);
        assert(after.drop_last() =~= before);
        assert(after.last() == (row.0@, row.1, row.2));
        let (k, l, r) = row;
        let mut found = false;
        let mut g: usize = 0;
        while g < keys.len()
            invariant_except_break
                !found,
                g <= keys.len(),
                forall|h: int| 0 <= h < g ==> keys@[h]@ != k@,
            ensures
                g <= keys.len(),
                found ==> g < keys.len() && keys@[g as int]@ == k@,
                !found ==> forall|h: int| 0 <= h < keys.len() ==> keys@[h]@ != k@,
            decreases keys.len() - g,
        {
            if keys[g].same_key(&k) {
                found = true;
                break;
            }
            g = g + 1;
        }
        proof {
            assert(keys@.map_values(|k: KeyValue| k@).len() == keys.len());
            assert forall|h: int| 0 <= h < keys.len() implies keys@.map_values(
                |k: KeyValue| k@,
            )[h] == #[trigger] keys@[h]@ by {}
        }
        if found {
            let ghost old_groups = groups@;
            groups[g].0 = l;
            match r {
                Some(r) => {
                    groups[g].1.push(r);
                },
                None => {},
            }
            proof {
                assert(first_keys(before).contains(k@)) by {
                    assert(keys@.map_values(|k: KeyValue| k@)[g as int] == k@);
                }
                assert(first_keys(after) == first_keys(before));
                assert forall|h: int| 0 <= h < groups.len() implies (#[trigger] groups@[h]).0
                    == last_left_with_key(after, keys@[h]@) && groups@[h].1@ == rights_with_key(
                    after,
                    keys@[h]@,
                ) by {
                    if h != g {
                        assert(old_groups[h] == groups@[h]);
                        assert(keys@[h]@ != k@);
                    }
                }
            }
        } else {
            let ghost old_keys = keys@;
            proof {
                assert(!first_keys(before).contains(k@)) by {
                    if first_keys(before).contains(k@) {
                        let h = choose|h: int|
                            0 <= h < first_keys(before).len() && first_keys(before)[h] == k@;
                        assert(keys@.map_values(|k: KeyValue| k@)[h] == keys@[h]@);
                    }
                }
                lemma_absent_key_has_no_rights(before, k@);
            }
            let mut rights: Vec<R> = Vec::new();
            match r {
                Some(r) => {
                    rights.push(r);
                },
                None => {},
            }
            keys.push(k);
            groups.push((l, rights));
            proof {
                assert(keys@.map_values(|k: KeyValue| k@) =~= old_keys.map_values(
                    |k: KeyValue| k@,
                ).push(k@));
                assert(first_keys(after) == first_keys(before).push(k@));
            }
        }
        n = n + 1;
    }
    proof {
        assert(vall.take(n as int) =~= vall);
        assert(groups_view(groups@) =~= consolidated(vall)) by {
            assert(keys@.map_values(|k: KeyValue| k@).len() == keys.len());
            assert forall|h: int| 0 <= h < groups.len() implies groups_view(groups@)[h] == consolidated(vall)[h] by {
                assert(keys@.map_values(|k: KeyValue| k@)[h] == keys@[h]@);
            }
        }
    }
    groups
}

} // verus!
