use sea_query::{Alias, Expr, Func, Query, SelectStatement, Value, Values};
use sea_orm_select::select::Select;
use sea_orm_select::key::{KeyValue, KeyView};
use sea_orm_select::selector::{
    enum_column_names, SelectGetableTuple, SelectGetableValue, SelectModel, SelectorRaw,
};
use sea_orm_select::statement::{DbBackend, DbErr, QueryResult, Statement, TryGetError};
use sea_orm_select::traits::{
    ColumnEnum, EntityTrait, FromQueryResult, ModelTrait, PartialModelTrait, TryGetableMany,
};

#[derive(Debug, PartialEq)]
struct CakeModel {
    id: i32,
    name: String,
}

impl ModelTrait for CakeModel {
    fn key(&self) -> KeyView {
        KeyView::Int(Some(self.id))
    }

    fn primary_key_value(&self) -> KeyValue {
        KeyValue::Int(Some(self.id))
    }
}

impl FromQueryResult for CakeModel {
    fn from_query_result(res: &QueryResult, pre: &str) -> Result<Self, DbErr> {
        Ok(CakeModel {
            id: read_int(res, &format!("{}id", pre))?,
            name: read_string(res, &format!("{}name", pre))?,
        })
    }
}

struct Cake;

impl EntityTrait for Cake {
    type Model = CakeModel;
}

fn lookup<'a>(res: &'a QueryResult, column: &str) -> Option<&'a Value> {
    res.row.iter().find(|(name, _)| name == column).map(|(_, v)| v)
}

fn read_int(res: &QueryResult, column: &str) -> Result<i32, DbErr> {
    match lookup(res, column) {
        Some(Value::Int(Some(v))) => Ok(*v),
        _ => Err(DbErr::Type(column.to_owned())),
    }
}

fn read_string(res: &QueryResult, column: &str) -> Result<String, DbErr> {
    match lookup(res, column) {
        Some(Value::String(Some(v))) => Ok(v.as_ref().clone()),
        _ => Err(DbErr::Type(column.to_owned())),
    }
}

fn text(s: &str) -> Value {
    Value::String(Some(Box::new(s.to_owned())))
}

fn result_row(values: Vec<(&str, Value)>) -> QueryResult {
    QueryResult { row: values.into_iter().map(|(c, v)| (c.to_owned(), v)).collect() }
}

fn cake_table() -> SelectStatement {
    Query::select()
        .column((Alias::new("cake"), Alias::new("id")))
        .column((Alias::new("cake"), Alias::new("name")))
        .from(Alias::new("cake"))
        .to_owned()
}

struct PartialCake {
    name: String,
    name_upper: String,
}

impl FromQueryResult for PartialCake {
    fn from_query_result(res: &QueryResult, pre: &str) -> Result<Self, DbErr> {
        Ok(PartialCake {
            name: read_string(res, &format!("{}name", pre))?,
            name_upper: read_string(res, &format!("{}name_upper", pre))?,
        })
    }
}

impl PartialModelTrait for PartialCake {
    fn select_cols(mut query: SelectStatement) -> SelectStatement {
        query.column((Alias::new("cake"), Alias::new("name")));
        query.expr_as(
            Func::upper(Expr::col((Alias::new("cake"), Alias::new("name")))),
            Alias::new("name_upper"),
        );
        query
    }
}

#[test]
fn partial_model_selects_its_own_columns() {
    let stmt = Select::<Cake>::new(cake_table())
        .into_partial_model::<PartialCake>()
        .into_statement(DbBackend::Sqlite);
    assert_eq!(stmt.sql, r#"SELECT "cake"."name", UPPER("cake"."name") AS "name_upper" FROM "cake""#);
    let decoded = SelectorRaw::<SelectModel<PartialCake>>::one_from_row(Some(result_row(vec![
        ("name", text("Cheese")),
        ("name_upper", text("CHEESE")),
    ])))
    .unwrap()
    .unwrap();
    assert_eq!(decoded.name, "Cheese");
    assert_eq!(decoded.name_upper, "CHEESE");
}

#[derive(Clone, Copy, Debug)]
enum QueryAs {
    CakeName,
}

impl strum::IntoEnumIterator for QueryAs {
    type Iterator = std::vec::IntoIter<QueryAs>;

    fn iter() -> Self::Iterator {
        vec![QueryAs::CakeName].into_iter()
    }
}

impl sea_query::Iden for QueryAs {
    fn unquoted(&self, s: &mut dyn std::fmt::Write) {
        s.write_str("cake_name").unwrap();
    }
}

impl ColumnEnum for QueryAs {
    fn column_names() -> Vec<String> {
        enum_column_names::<QueryAs>()
    }
}

#[derive(Debug, PartialEq)]
struct OneString(String);

impl TryGetableMany for OneString {
    fn try_get_many(res: &QueryResult, pre: &str, cols: &[String]) -> Result<Self, TryGetError> {
        let column = format!("{}{}", pre, cols[0]);
        match lookup(res, &column) {
            Some(Value::String(Some(v))) => Ok(OneString(v.as_ref().clone())),
            _ => Err(TryGetError::Null(column)),
        }
    }

    fn try_get_many_by_index(res: &QueryResult) -> Result<Self, TryGetError> {
        match res.row.get(0) {
            Some((_, Value::String(Some(v)))) => Ok(OneString(v.as_ref().clone())),
            Some((c, _)) => Err(TryGetError::Null(c.clone())),
            None => Err(TryGetError::DbErr(DbErr::Query("no columns".to_owned()))),
        }
    }
}

#[test]
fn into_values_reads_the_named_column_of_every_row() {
    let query = Query::select()
        .expr_as(Expr::col((Alias::new("cake"), Alias::new("name"))), Alias::new("cake_name"))
        .from(Alias::new("cake"))
        .to_owned();
    let stmt = Select::<Cake>::new(query)
        .into_values::<OneString, QueryAs>()
        .into_statement(DbBackend::Postgres);
    assert_eq!(stmt.sql, r#"SELECT "cake"."name" AS "cake_name" FROM "cake""#);
    let res = SelectorRaw::<SelectGetableValue<OneString, QueryAs>>::all_from_rows(vec![
        result_row(vec![("cake_name", text("Chocolate Forest"))]),
        result_row(vec![("cake_name", text("New York Cheese"))]),
    ]);
    assert_eq!(
        res,
        Ok(vec![OneString("Chocolate Forest".to_owned()), OneString("New York Cheese".to_owned())])
    );
}

#[test]
fn into_tuple_reads_the_first_column_of_every_row() {
    let query = Query::select()
        .column((Alias::new("cake"), Alias::new("name")))
        .from(Alias::new("cake"))
        .to_owned();
    let stmt = Select::<Cake>::new(query).into_tuple::<OneString>().into_statement(DbBackend::Postgres);
    assert_eq!(stmt.sql, r#"SELECT "cake"."name" FROM "cake""#);
    let res = SelectorRaw::<SelectGetableTuple<OneString>>::all_from_rows(vec![
        result_row(vec![("name", text("Chocolate Forest"))]),
        result_row(vec![("name", text("New York Cheese"))]),
    ]);
    assert_eq!(
        res,
        Ok(vec![OneString("Chocolate Forest".to_owned()), OneString("New York Cheese".to_owned())])
    );
}

#[derive(Debug, PartialEq)]
struct SelectResult {
    name: String,
    num_of_cakes: i32,
}

impl FromQueryResult for SelectResult {
    fn from_query_result(res: &QueryResult, pre: &str) -> Result<Self, DbErr> {
        Ok(SelectResult {
            name: read_string(res, &format!("{}name", pre))?,
            num_of_cakes: read_int(res, &format!("{}num_of_cakes", pre))?,
        })
    }
}

#[test]
fn raw_sql_into_custom_model() {
    let stmt = Statement::from_sql_and_values(
        DbBackend::Postgres,
        r#"SELECT "cake"."name", count("cake"."id") AS "num_of_cakes" FROM "cake""#.to_owned(),
        Values(vec![]),
    );
    let selector = Select::<Cake>::new(cake_table()).from_raw_sql(stmt.clone()).into_model::<SelectResult>();
    assert_eq!(selector.stmt, stmt);
    let res = SelectorRaw::<SelectModel<SelectResult>>::all_from_rows(vec![
        result_row(vec![("name", text("Chocolate Forest")), ("num_of_cakes", Value::Int(Some(1)))]),
        result_row(vec![("name", text("New York Cheese")), ("num_of_cakes", Value::Int(Some(1)))]),
    ]);
    assert_eq!(
        res,
        Ok(vec![
            SelectResult { name: "Chocolate Forest".to_owned(), num_of_cakes: 1 },
            SelectResult { name: "New York Cheese".to_owned(), num_of_cakes: 1 },
        ])
    );
}

#[test]
fn raw_sql_one_model() {
    let stmt = Statement::from_sql_and_values(
        DbBackend::Postgres,
        r#"SELECT "cake"."id", "cake"."name" FROM "cake" WHERE "id" = $1"#.to_owned(),
        Values(vec![Value::Int(Some(1))]),
    );
    let selector = Select::<Cake>::new(cake_table()).from_raw_sql(stmt.clone());
    assert_eq!(selector.into_statement(), stmt);
    let one = SelectorRaw::<SelectModel<CakeModel>>::one_from_row(Some(result_row(vec![
        ("id", Value::Int(Some(1))),
        ("name", text("Cake")),
    ])));
    assert_eq!(one, Ok(Some(CakeModel { id: 1, name: "Cake".to_owned() })));
}
