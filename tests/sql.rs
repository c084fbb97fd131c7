use gitdb::codec::encode_value;
use gitdb::database::CommitStorage;
use gitdb::kv::KvStore;
use gitdb::models::{Change, CrdtValue};
use gitdb::sql::parse_sql_values;

#[test]
fn values_are_split_and_trimmed() {
    assert_eq!(parse_sql_values("('1','alice')").unwrap(), vec!["1".to_string(), "alice".to_string()]);
    assert_eq!(parse_sql_values("(' 1 ',  ' bob ')").unwrap(), vec!["1".to_string(), "bob".to_string()]);
}

#[test]
fn commas_inside_quotes_are_kept() {
    assert_eq!(parse_sql_values("('a,b', 'c')").unwrap(), vec!["a,b".to_string(), "c".to_string()]);
}

#[test]
fn closing_paren_ends_the_list() {
    assert_eq!(parse_sql_values("('x') ('y')").unwrap(), vec!["x".to_string()]);
}

#[test]
fn unquoted_text_joins_the_next_value() {
    assert_eq!(parse_sql_values("(1, 'a')").unwrap(), vec!["1a".to_string()]);
    assert!(parse_sql_values("(1, 2)").unwrap().is_empty());
    assert!(parse_sql_values("").unwrap().is_empty());
}

#[test]
fn insert_then_show_table_rows() {
    let mut st = CommitStorage::new(KvStore::new());
    st.create_commit(
        "SQL: CREATE TABLE t",
        vec![Change::Insert { table: "t".into(), id: "!schema".into(), value: encode_value(&CrdtValue::Register(b"{}".to_vec())) }],
        1,
    )
    .unwrap();
    let values = parse_sql_values("('1','alice')").unwrap();
    let body = format!("[\"{}\",\"{}\"]", values[0], values[1]);
    let h = st
        .create_commit(
            "SQL: INSERT INTO t VALUES ('1','alice')",
            vec![Change::Insert { table: "t".into(), id: values[0].clone(), value: encode_value(&CrdtValue::Register(body.into_bytes())) }],
            2,
        )
        .unwrap();
    let mut rows = st.get_table_at_commit("t", &h).unwrap().into_data();
    rows.sort_by(|a, b| a.id.cmp(&b.id));
    assert_eq!(rows.len(), 2);
    assert_eq!(rows[0].id, "!schema");
    assert_eq!(rows[1].id, "1");
    match &rows[1].value {
        CrdtValue::Register(b) => assert!(String::from_utf8_lossy(b).contains("alice")),
        CrdtValue::Counter(_) => panic!("expected a register"),
    }
}

#[test]
fn schema_lookup_now_and_at_commits() {
    let mut st = CommitStorage::new(KvStore::new());
    assert_eq!(st.get_table_schema("t", None).unwrap(), None);
    st.update_table_schema("t", b"{\"columns\":{}}");
    assert_eq!(st.get_table_schema("t", None).unwrap(), Some(b"{\"columns\":{}}".to_vec()));
    let c1 = st
        .create_commit(
            "create",
            vec![Change::Insert { table: "t".into(), id: "!schema".into(), value: encode_value(&CrdtValue::Register(b"{}".to_vec())) }],
            1,
        )
        .unwrap();
    let c2 = st
        .create_commit(
            "alter",
            vec![Change::Update { table: "t".into(), id: "!schema".into(), value: encode_value(&CrdtValue::Register(b"{\"columns\":{\"a\":\"INT\"}}".to_vec())) }],
            2,
        )
        .unwrap();
    let c3 = st.create_commit("other", vec![], 3).unwrap();
    assert_eq!(st.get_table_schema("t", Some(&c1)).unwrap(), Some(b"{}".to_vec()));
    assert_eq!(st.get_table_schema("t", Some(&c2)).unwrap(), Some(b"{\"columns\":{\"a\":\"INT\"}}".to_vec()));
    assert_eq!(st.get_table_schema("t", Some(&c3)).unwrap(), Some(b"{\"columns\":{\"a\":\"INT\"}}".to_vec()));
    assert_eq!(st.get_table_schema("u", Some(&c3)).unwrap(), None);
}
