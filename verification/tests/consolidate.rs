use sea_orm_select::consolidate::consolidate_keyed_rows;
use sea_orm_select::key::{KeyValue, KeyView};
use sea_orm_select::select::consolidate_query_result;
use sea_orm_select::statement::{DbErr, QueryResult};
use sea_orm_select::traits::{EntityTrait, FromQueryResult, ModelTrait};

#[derive(Clone, Debug, PartialEq)]
struct Cake {
    id: i32,
    name: String,
}

#[derive(Clone, Debug, PartialEq)]
struct Filling {
    id: i32,
    cake_id: i32,
}

impl ModelTrait for Cake {
    fn key(&self) -> KeyView {
        KeyView::Int(Some(self.id))
    }

    fn primary_key_value(&self) -> KeyValue {
        KeyValue::Int(Some(self.id))
    }
}

impl ModelTrait for Filling {
    fn key(&self) -> KeyView {
        KeyView::Int(Some(self.id))
    }

    fn primary_key_value(&self) -> KeyValue {
        KeyValue::Int(Some(self.id))
    }
}

impl FromQueryResult for Cake {
    fn from_query_result(_res: &QueryResult, _pre: &str) -> Result<Self, DbErr> {
        Err(DbErr::Custom("not decoded in these tests".to_owned()))
    }
}

impl FromQueryResult for Filling {
    fn from_query_result(_res: &QueryResult, _pre: &str) -> Result<Self, DbErr> {
        Err(DbErr::Custom("not decoded in these tests".to_owned()))
    }
}

struct CakeEntity;
struct FillingEntity;

impl EntityTrait for CakeEntity {
    type Model = Cake;
}

impl EntityTrait for FillingEntity {
    type Model = Filling;
}

fn cake(id: i32, name: &str) -> Cake {
    Cake { id, name: name.to_owned() }
}

fn filling(id: i32, cake_id: i32) -> Filling {
    Filling { id, cake_id }
}

#[test]
fn consolidate_groups_rows_by_parent_in_first_seen_order() {
    let rows = vec![
        (cake(2, "b"), Some(filling(10, 2))),
        (cake(1, "a"), Some(filling(11, 1))),
        (cake(2, "b"), Some(filling(12, 2))),
        (cake(3, "c"), Some(filling(13, 3))),
        (cake(1, "a"), Some(filling(14, 1))),
    ];
    let groups = consolidate_query_result::<CakeEntity, FillingEntity>(rows);
    assert_eq!(
        groups,
        vec![
            (cake(2, "b"), vec![filling(10, 2), filling(12, 2)]),
            (cake(1, "a"), vec![filling(11, 1), filling(14, 1)]),
            (cake(3, "c"), vec![filling(13, 3)]),
        ]
    );
}

#[test]
fn consolidate_of_no_rows_is_empty() {
    let rows: Vec<(Cake, Option<Filling>)> = Vec::new();
    let groups = consolidate_query_result::<CakeEntity, FillingEntity>(rows);
    assert!(groups.is_empty());
}

#[test]
fn consolidate_keeps_the_last_left_model_of_a_key() {
    let rows = vec![
        (cake(1, "first"), Some(filling(10, 1))),
        (cake(1, "second"), Some(filling(11, 1))),
    ];
    let groups = consolidate_query_result::<CakeEntity, FillingEntity>(rows);
    assert_eq!(groups, vec![(cake(1, "second"), vec![filling(10, 1), filling(11, 1)])]);
}

#[test]
fn consolidate_with_distinct_keys_gives_one_group_per_row() {
    let rows = vec![
        (cake(5, "e"), Some(filling(1, 5))),
        (cake(4, "d"), Some(filling(2, 4))),
        (cake(6, "f"), Some(filling(3, 6))),
    ];
    let groups = consolidate_query_result::<CakeEntity, FillingEntity>(rows);
    assert_eq!(
        groups,
        vec![
            (cake(5, "e"), vec![filling(1, 5)]),
            (cake(4, "d"), vec![filling(2, 4)]),
            (cake(6, "f"), vec![filling(3, 6)]),
        ]
    );
}

#[test]
fn consolidate_keeps_every_right_model() {
    let rows = vec![
        (cake(1, "a"), Some(filling(1, 1))),
        (cake(2, "b"), Some(filling(2, 2))),
        (cake(1, "a"), Some(filling(3, 1))),
        (cake(2, "b"), Some(filling(4, 2))),
        (cake(1, "a"), Some(filling(5, 1))),
    ];
    let groups = consolidate_query_result::<CakeEntity, FillingEntity>(rows);
    let total: usize = groups.iter().map(|g| g.1.len()).sum();
    assert_eq!(total, 5);
    assert_eq!(groups.len(), 2);
}

#[test]
fn consolidate_keyed_rows_tells_keys_of_different_kinds_apart() {
    let rows = vec![
        (KeyValue::Int(Some(1)), "int", Some('a')),
        (KeyValue::BigInt(Some(1)), "bigint", Some('b')),
        (KeyValue::Int(Some(1)), "int again", Some('c')),
        (KeyValue::Int(None), "null", Some('d')),
    ];
    let groups = consolidate_keyed_rows(rows);
    assert_eq!(
        groups,
        vec![("int again", vec!['a', 'c']), ("bigint", vec!['b']), ("null", vec!['d'])]
    );
}

#[test]
fn consolidate_keyed_rows_compares_text_and_bytes_by_contents() {
    let rows = vec![
        (KeyValue::Text(Some("x".to_owned())), 1, Some(10)),
        (KeyValue::Bytes(Some(vec![1, 2])), 2, Some(20)),
        (KeyValue::Text(Some("x".to_owned())), 3, Some(30)),
        (KeyValue::Bytes(Some(vec![1, 2])), 4, Some(40)),
        (KeyValue::Bytes(Some(vec![1, 3])), 5, Some(50)),
        (KeyValue::Text(Some("y".to_owned())), 6, Some(60)),
    ];
    let groups = consolidate_keyed_rows(rows);
    assert_eq!(
        groups,
        vec![(3, vec![10, 30]), (4, vec![20, 40]), (5, vec![50]), (6, vec![60])]
    );
}

#[test]
fn same_key_compares_variant_and_value() {
    assert!(KeyValue::Int(Some(3)).same_key(&KeyValue::Int(Some(3))));
    assert!(!KeyValue::Int(Some(3)).same_key(&KeyValue::Int(Some(4))));
    assert!(!KeyValue::Int(Some(3)).same_key(&KeyValue::BigInt(Some(3))));
    assert!(KeyValue::Char(None).same_key(&KeyValue::Char(None)));
    assert!(!KeyValue::Char(Some('a')).same_key(&KeyValue::Char(None)));
    assert!(KeyValue::Bytes(Some(vec![])).same_key(&KeyValue::Bytes(Some(vec![]))));
    assert!(!KeyValue::Bytes(Some(vec![1])).same_key(&KeyValue::Bytes(Some(vec![1, 1]))));
    assert!(KeyValue::Text(Some("ab".to_owned())).same_key(&KeyValue::Text(Some("ab".to_owned()))));
    assert!(!KeyValue::Bool(Some(true)).same_key(&KeyValue::Bool(Some(false))));
}

#[test]
fn consolidate_keeps_a_parent_without_children() {
    let rows = vec![
        (cake(1, "a"), Some(filling(10, 1))),
        (cake(2, "b"), None),
        (cake(1, "a"), Some(filling(11, 1))),
    ];
    let groups = consolidate_query_result::<CakeEntity, FillingEntity>(rows);
    assert_eq!(
        groups,
        vec![(cake(1, "a"), vec![filling(10, 1), filling(11, 1)]), (cake(2, "b"), vec![])]
    );
}

#[test]
fn consolidate_adds_no_child_for_an_unlinked_row_of_a_known_parent() {
    let rows = vec![(cake(1, "a"), Some(filling(10, 1))), (cake(1, "a2"), None)];
    let groups = consolidate_query_result::<CakeEntity, FillingEntity>(rows);
    assert_eq!(groups, vec![(cake(1, "a2"), vec![filling(10, 1)])]);
}

#[test]
fn consolidate_of_contiguous_rows_gives_their_runs() {
    let rows = vec![
        (cake(1, "a"), Some(filling(10, 1))),
        (cake(1, "a"), Some(filling(11, 1))),
        (cake(3, "c"), None),
        (cake(2, "b"), Some(filling(12, 2))),
        (cake(2, "b"), Some(filling(13, 2))),
    ];
    let groups = consolidate_query_result::<CakeEntity, FillingEntity>(rows);
    assert_eq!(
        groups,
        vec![
            (cake(1, "a"), vec![filling(10, 1), filling(11, 1)]),
            (cake(3, "c"), vec![]),
            (cake(2, "b"), vec![filling(12, 2), filling(13, 2)]),
        ]
    );
}

#[test]
fn flattened_groups_give_children_by_first_key() {
    let rows = vec![
        (cake(2, "b"), Some(filling(1, 2))),
        (cake(1, "a"), Some(filling(2, 1))),
        (cake(2, "b"), Some(filling(3, 2))),
        (cake(1, "a"), Some(filling(4, 1))),
    ];
    let groups = consolidate_query_result::<CakeEntity, FillingEntity>(rows);
    let flat: Vec<i32> = groups.iter().flat_map(|g| g.1.iter().map(|f| f.id)).collect();
    assert_eq!(flat, vec![1, 3, 2, 4]);
}
