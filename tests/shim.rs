use gitdb::codec::encode_value;
use gitdb::error::ErrorKind;
use gitdb::models::{Change, CrdtValue};
use gitdb::shim::{
    apply_sets, create_table_change, csv_row_change, flush_after, insert_change, sql_statement, update_change,
    validate_value_type, Cell, SqlStatement, TypeCheck,
};

fn s(x: &str) -> String {
    x.to_string()
}

fn strings(v: &[&str]) -> Vec<String> {
    v.iter().map(|x| x.to_string()).collect()
}

#[test]
fn create_table_statement() {
    assert_eq!(sql_statement("CREATE TABLE t").unwrap(), SqlStatement::CreateTable { table: s("t") });
    assert_eq!(sql_statement("create table users").unwrap(), SqlStatement::CreateTable { table: s("users") });
    assert_eq!(sql_statement("CREATE TABLE").unwrap_err().error_kind(), ErrorKind::Input);
    let c = create_table_change("t");
    assert_eq!(c, Change::Insert { table: s("t"), id: s("!schema"), value: encode_value(&CrdtValue::Register(b"{}".to_vec())) });
}

#[test]
fn insert_statement_and_change() {
    let st = sql_statement("INSERT INTO t VALUES ('1','alice')").unwrap();
    assert_eq!(st, SqlStatement::Insert { table: s("t"), values: strings(&["1", "alice"]) });
    let c = insert_change("t", &strings(&["1", "alice"])).unwrap();
    let body = b"[\"1\",\"alice\"]".to_vec();
    assert_eq!(c, Change::Insert { table: s("t"), id: s("1"), value: encode_value(&CrdtValue::Register(body)) });
    assert!(insert_change("t", &vec![]).is_none());
}

#[test]
fn insert_statement_errors() {
    assert_eq!(sql_statement("INSERT INTO t values ('1')").unwrap_err().error_kind(), ErrorKind::Input);
    assert_eq!(sql_statement("INSERT INTO t VALUES ()").unwrap_err().error_kind(), ErrorKind::Input);
    assert_eq!(sql_statement("INSERT INTO").unwrap_err().error_kind(), ErrorKind::Input);
}

#[test]
fn update_statement_parts() {
    let st = sql_statement("UPDATE t SET name = 'bob', age = 7 WHERE id = '1'").unwrap();
    assert_eq!(st, SqlStatement::Update { table: s("t"), id: s("1"), set_clause: s("name = 'bob', age = 7") });
    assert_eq!(sql_statement("UPDATE t SET a = 1").unwrap_err().error_kind(), ErrorKind::Input);
    assert_eq!(sql_statement("UPDATE t SET a = 1 WHERE id 1").unwrap_err().error_kind(), ErrorKind::Input);
    assert_eq!(sql_statement("UPDATE t WHERE id = 1 SET a = 2").unwrap_err().error_kind(), ErrorKind::Input);
}

#[test]
fn alter_statements() {
    assert_eq!(
        sql_statement("ALTER TABLE t ADD COLUMN age INT").unwrap(),
        SqlStatement::AlterAdd { table: s("t"), column: s("age"), column_type: s("INT") }
    );
    assert_eq!(sql_statement("ALTER TABLE t DROP COLUMN age").unwrap(), SqlStatement::AlterDrop { table: s("t"), column: s("age") });
    assert_eq!(sql_statement("ALTER TABLE t ADD COLUMN age").unwrap_err().error_kind(), ErrorKind::Input);
    assert_eq!(sql_statement("ALTER TABLE t RENAME x").unwrap_err().error_kind(), ErrorKind::Input);
    assert_eq!(sql_statement("SELECT * FROM t").unwrap_err().error_kind(), ErrorKind::Input);
}

#[test]
fn update_document_change() {
    let c = update_change("t", "!schema", b"{\"columns\":{}}");
    assert_eq!(
        c,
        Change::Update { table: s("t"), id: s("!schema"), value: encode_value(&CrdtValue::Register(b"{\"columns\":{}}".to_vec())) }
    );
}

#[test]
fn sets_apply_by_column_position() {
    let cols = strings(&["id", "name", "age"]);
    let cells = vec![Cell::Kept { number: false }, Cell::Kept { number: false }, Cell::Kept { number: true }];
    let out = apply_sets(&cols, "name = 'bob', age = 7", &cells).unwrap();
    assert_eq!(out, vec![Cell::Kept { number: false }, Cell::SetText(s("bob")), Cell::SetNumber(s("7"))]);
    assert_eq!(apply_sets(&cols, "nope = 1", &cells).unwrap_err().error_kind(), ErrorKind::Input);
    assert_eq!(apply_sets(&cols, "name", &cells).unwrap_err().error_kind(), ErrorKind::Input);
    let short = vec![Cell::Kept { number: false }];
    assert_eq!(apply_sets(&cols, "age = 3", &short).unwrap_err().error_kind(), ErrorKind::Input);
}

#[test]
fn csv_record_becomes_insert() {
    let headers = strings(&["id", "name"]);
    let c = csv_row_change("people", &headers, &strings(&["1", "alice"])).unwrap();
    let body = b"{\"id\":\"1\",\"name\":\"alice\"}".to_vec();
    assert_eq!(c, Change::Insert { table: s("people"), id: s("1"), value: encode_value(&CrdtValue::Register(body)) });
    let c = csv_row_change("people", &headers, &strings(&["2", "bob", "x"])).unwrap();
    let body = b"{\"id\":\"2\",\"name\":\"bob\",\"2\":\"x\"}".to_vec();
    assert_eq!(c, Change::Insert { table: s("people"), id: s("2"), value: encode_value(&CrdtValue::Register(body)) });
    assert_eq!(csv_row_change("people", &headers, &vec![]).unwrap_err().error_kind(), ErrorKind::Input);
}

#[test]
fn import_batches_every_hundred_records() {
    assert!(!flush_after(0));
    assert!(!flush_after(99));
    assert!(flush_after(100));
    assert!(!flush_after(150));
    assert!(flush_after(200));
}

#[test]
fn value_types_checked() {
    assert_eq!(validate_value_type("42", "integer").unwrap(), TypeCheck::Accepted);
    assert_eq!(validate_value_type("-9223372036854775808", "INT").unwrap(), TypeCheck::Accepted);
    assert_eq!(validate_value_type("+7", "INT").unwrap(), TypeCheck::Accepted);
    assert_eq!(validate_value_type("9223372036854775808", "INT").unwrap_err().error_kind(), ErrorKind::Mismatch);
    assert_eq!(validate_value_type("4x", "INT").unwrap_err().error_kind(), ErrorKind::Mismatch);
    assert_eq!(validate_value_type("-", "INT").unwrap_err().error_kind(), ErrorKind::Mismatch);
    assert_eq!(validate_value_type("TrUe", "bool").unwrap(), TypeCheck::Accepted);
    assert_eq!(validate_value_type("yes", "BOOLEAN").unwrap_err().error_kind(), ErrorKind::Mismatch);
    assert_eq!(validate_value_type("1.5", "REAL").unwrap(), TypeCheck::NeedsFloat);
    assert_eq!(validate_value_type("anything", "TEXT").unwrap(), TypeCheck::Accepted);
}
