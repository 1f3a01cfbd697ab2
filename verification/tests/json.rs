use sea_query::{Alias, Query, Value, Values};
use sea_orm_select::select::{Select, SelectTwo};
use sea_orm_select::key::{KeyValue, KeyView};
use sea_orm_select::selector::{SelectModel, SelectTwoModel, SelectorRaw, SelectorTrait};
use sea_orm_select::statement::{DbBackend, DbErr, QueryResult, Statement};
use sea_orm_select::traits::{EntityTrait, FromQueryResult, ModelTrait};

#[derive(Debug, PartialEq)]
struct CakeModel {
    id: i32,
}

impl ModelTrait for CakeModel {
    fn key(&self) -> KeyView {
        KeyView::Int(Some(self.id))
    }

    fn primary_key_value(&self) -> KeyValue {
        KeyValue::Int(Some(self.id))
    }
}

impl FromQueryResult for CakeModel {
    fn from_query_result(_res: &QueryResult, _pre: &str) -> Result<Self, DbErr> {
        Ok(CakeModel { id: 0 })
    }
}

struct Cake;

impl EntityTrait for Cake {
    type Model = CakeModel;
}

fn result_row(values: Vec<(&str, Value)>) -> QueryResult {
    QueryResult { row: values.into_iter().map(|(c, v)| (c.to_owned(), v)).collect() }
}

fn text(s: &str) -> Value {
    Value::String(Some(Box::new(s.to_owned())))
}

fn object(entries: Vec<(&str, serde_json::Value)>) -> serde_json::Value {
    let mut map = serde_json::Map::new();
    for (k, v) in entries {
        map.insert(k.to_owned(), v);
    }
    serde_json::Value::Object(map)
}

fn cake_query() -> sea_query::SelectStatement {
    Query::select().column(Alias::new("id")).column(Alias::new("name")).from(Alias::new("cake")).to_owned()
}

#[test]
fn raw_sql_into_json_decodes_each_row_into_an_object() {
    let sql = r#"SELECT "cake"."id", "cake"."name" FROM "cake""#;
    let stmt = Statement::from_sql_and_values(DbBackend::Postgres, sql.to_owned(), Values(vec![]));
    let selector = Select::<Cake>::new(cake_query()).from_raw_sql(stmt.clone()).into_json();
    assert_eq!(selector.into_statement(), stmt);
    let res = SelectorRaw::<SelectModel<serde_json::Value>>::all_from_rows(vec![
        result_row(vec![("name", text("Chocolate Forest")), ("num_of_cakes", Value::Int(Some(1)))]),
        result_row(vec![("name", text("New York Cheese")), ("num_of_cakes", Value::Int(Some(1)))]),
    ]);
    assert_eq!(
        res,
        Ok(vec![
            object(vec![
                ("name", serde_json::Value::from("Chocolate Forest")),
                ("num_of_cakes", serde_json::Value::from(1)),
            ]),
            object(vec![
                ("name", serde_json::Value::from("New York Cheese")),
                ("num_of_cakes", serde_json::Value::from(1)),
            ]),
        ])
    );
}

#[test]
fn json_selector_can_change_model_again() {
    let stmt = Statement::from_string(DbBackend::Sqlite, "SELECT 1".to_owned());
    let back = SelectorRaw::<SelectModel<CakeModel>>::from_statement::<CakeModel>(stmt.clone())
        .into_json()
        .into_model::<CakeModel>();
    assert_eq!(back.into_statement(), stmt);
}

#[test]
fn select_into_json_builds_and_decodes() {
    let stmt = Select::<Cake>::new(cake_query()).into_json().into_statement(DbBackend::Postgres);
    assert_eq!(stmt.sql, r#"SELECT "id", "name" FROM "cake""#);
}

#[test]
fn json_keeps_only_prefixed_columns_without_the_prefix() {
    let res = result_row(vec![
        ("A_id", Value::Int(Some(1))),
        ("A_name", text("Cake")),
        ("B_id", Value::Int(Some(7))),
        ("B_flag", Value::Bool(None)),
    ]);
    let r = SelectTwoModel::<serde_json::Value, serde_json::Value>::from_raw_query_result(res);
    assert_eq!(
        r,
        Ok((
            object(vec![("id", serde_json::Value::from(1)), ("name", serde_json::Value::from("Cake"))]),
            Some(object(vec![("id", serde_json::Value::from(7)), ("flag", serde_json::Value::Null)])),
        ))
    );
    let two = SelectTwo::<Cake, Cake>::new(cake_query()).into_json().into_statement(DbBackend::MySql);
    assert_eq!(two.sql, "SELECT `id`, `name` FROM `cake`");
}

#[test]
fn json_of_bytes_that_are_text() {
    let r = serde_json::Value::from_query_result(
        &result_row(vec![("data", Value::Bytes(Some(Box::new(b"abc".to_vec()))))]),
        "",
    );
    assert_eq!(r, Ok(object(vec![("data", serde_json::Value::from("abc"))])));
}

#[test]
fn json_of_bytes_that_are_not_text_is_a_type_error() {
    let r = serde_json::Value::from_query_result(
        &result_row(vec![
            ("ok", Value::Int(Some(1))),
            ("data", Value::Bytes(Some(Box::new(vec![0xff, 0xfe])))),
        ]),
        "",
    );
    assert_eq!(r, Err(DbErr::Type("Bytes that are not valid UTF-8 in column data".to_owned())));
}

#[test]
fn json_ignores_bad_bytes_outside_the_prefix() {
    let r = serde_json::Value::from_query_result(
        &result_row(vec![
            ("A_ok", Value::Int(Some(1))),
            ("B_data", Value::Bytes(Some(Box::new(vec![0xff])))),
        ]),
        "A_",
    );
    assert_eq!(r, Ok(object(vec![("ok", serde_json::Value::from(1))])));
}
