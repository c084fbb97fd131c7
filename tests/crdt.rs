use gitdb::codec::encode_value;
use gitdb::crdt::{diff_states, CrdtEngine, Row};
use gitdb::error::ErrorKind;
use gitdb::merge::merge_states;
use gitdb::models::{Change, CrdtValue};

fn s(x: &str) -> String {
    x.to_string()
}

fn ins(t: &str, id: &str, v: CrdtValue) -> Change {
    Change::Insert { table: s(t), id: s(id), value: encode_value(&v) }
}

fn upd(t: &str, id: &str, v: CrdtValue) -> Change {
    Change::Update { table: s(t), id: s(id), value: encode_value(&v) }
}

fn del(t: &str, id: &str) -> Change {
    Change::Delete { table: s(t), id: s(id) }
}

fn sorted_rows(e: CrdtEngine) -> Vec<Row> {
    let mut rows = e.into_data();
    rows.sort_by(|a, b| (a.table.clone(), a.id.clone()).cmp(&(b.table.clone(), b.id.clone())));
    rows
}

fn get(e: &CrdtEngine, t: &str, id: &str) -> Option<CrdtValue> {
    e.get(&s(t), &s(id)).cloned()
}

#[test]
fn apply_insert_update_delete() {
    let mut e = CrdtEngine::new();
    e.apply_change(&ins("t", "1", CrdtValue::Counter(1))).unwrap();
    e.apply_change(&upd("t", "1", CrdtValue::Counter(5))).unwrap();
    assert_eq!(get(&e, "t", "1"), Some(CrdtValue::Counter(5)));
    e.apply_change(&del("t", "1")).unwrap();
    assert_eq!(get(&e, "t", "1"), None);
    e.apply_change(&del("t", "absent")).unwrap();
    assert_eq!(e.into_data().len(), 0);
}

#[test]
fn bad_payload_is_refused_and_state_kept() {
    let mut e = CrdtEngine::new();
    e.apply_change(&ins("t", "1", CrdtValue::Counter(1))).unwrap();
    let bad = Change::Insert { table: s("t"), id: s("2"), value: vec![9, 9] };
    let err = e.apply_change(&bad).unwrap_err();
    assert_eq!(err.error_kind(), ErrorKind::Serialization);
    assert_eq!(get(&e, "t", "2"), None);
    assert_eq!(get(&e, "t", "1"), Some(CrdtValue::Counter(1)));
}

#[test]
fn merge_counters_take_max() {
    let mut a = CrdtEngine::new();
    a.apply_change(&ins("t", "c", CrdtValue::Counter(3))).unwrap();
    let mut b = CrdtEngine::new();
    b.apply_change(&ins("t", "c", CrdtValue::Counter(8))).unwrap();
    b.apply_change(&ins("u", "x", CrdtValue::Counter(1))).unwrap();
    a.merge(&b).unwrap();
    assert_eq!(get(&a, "t", "c"), Some(CrdtValue::Counter(8)));
    assert_eq!(get(&a, "u", "x"), Some(CrdtValue::Counter(1)));
}

#[test]
fn merge_registers_keep_greater_payload() {
    let mut a = CrdtEngine::new();
    a.apply_change(&ins("t", "k", CrdtValue::Register(vec![0x01]))).unwrap();
    let mut b = CrdtEngine::new();
    b.apply_change(&ins("t", "k", CrdtValue::Register(vec![0x02]))).unwrap();
    let mut ab = a.clone();
    ab.merge(&b).unwrap();
    let mut ba = b.clone();
    ba.merge(&a).unwrap();
    assert_eq!(get(&ab, "t", "k"), Some(CrdtValue::Register(vec![0x02])));
    assert_eq!(get(&ba, "t", "k"), Some(CrdtValue::Register(vec![0x02])));
}

#[test]
fn merge_type_mismatch_is_refused() {
    let mut a = CrdtEngine::new();
    a.apply_change(&ins("t", "k", CrdtValue::Counter(1))).unwrap();
    let mut b = CrdtEngine::new();
    b.apply_change(&ins("t", "k", CrdtValue::Register(vec![1]))).unwrap();
    let err = a.merge(&b).unwrap_err();
    assert_eq!(err.error_kind(), ErrorKind::Mismatch);
    assert_eq!(get(&a, "t", "k"), Some(CrdtValue::Counter(1)));
}

#[test]
fn merge_commutes_on_sample() {
    let mut a = CrdtEngine::new();
    a.apply_change(&ins("t", "1", CrdtValue::Counter(4))).unwrap();
    a.apply_change(&ins("t", "2", CrdtValue::Register(b"abc".to_vec()))).unwrap();
    let mut b = CrdtEngine::new();
    b.apply_change(&ins("t", "1", CrdtValue::Counter(2))).unwrap();
    b.apply_change(&ins("t", "2", CrdtValue::Register(b"abd".to_vec()))).unwrap();
    b.apply_change(&ins("t", "3", CrdtValue::Counter(9))).unwrap();
    let mut ab = a.clone();
    ab.merge(&b).unwrap();
    let mut ba = b.clone();
    ba.merge(&a).unwrap();
    assert_eq!(sorted_rows(ab), sorted_rows(ba));
}

#[test]
fn replaying_twice_equals_once() {
    let cs = vec![
        ins("t", "1", CrdtValue::Counter(1)),
        del("t", "1"),
        ins("t", "2", CrdtValue::Register(vec![7])),
        upd("t", "1", CrdtValue::Counter(3)),
        del("t", "2"),
        ins("u", "9", CrdtValue::Counter(0)),
    ];
    let mut once = CrdtEngine::new();
    once.apply_changes(&cs).unwrap();
    let mut twice = CrdtEngine::new();
    twice.apply_changes(&cs).unwrap();
    twice.apply_changes(&cs).unwrap();
    assert_eq!(sorted_rows(once), sorted_rows(twice));
}

#[test]
fn diff_then_apply_reaches_target() {
    let mut from = CrdtEngine::new();
    from.apply_change(&ins("t", "keep", CrdtValue::Counter(1))).unwrap();
    from.apply_change(&ins("t", "gone", CrdtValue::Counter(2))).unwrap();
    from.apply_change(&ins("t", "changed", CrdtValue::Counter(3))).unwrap();
    let mut to = CrdtEngine::new();
    to.apply_change(&ins("t", "keep", CrdtValue::Counter(1))).unwrap();
    to.apply_change(&ins("t", "changed", CrdtValue::Counter(4))).unwrap();
    to.apply_change(&ins("t", "new", CrdtValue::Register(vec![1]))).unwrap();
    let d = diff_states(&from, &to);
    assert_eq!(d.len(), 3);
    assert!(d.contains(&upd("t", "changed", CrdtValue::Counter(4))));
    assert!(d.contains(&ins("t", "new", CrdtValue::Register(vec![1]))));
    assert!(d.contains(&del("t", "gone")));
    let mut applied = from.clone();
    applied.apply_changes(&d).unwrap();
    assert_eq!(sorted_rows(applied), sorted_rows(to));
}

#[test]
fn merge_states_lists_inserts_and_updates() {
    let mut left = CrdtEngine::new();
    left.apply_change(&ins("t", "a", CrdtValue::Counter(5))).unwrap();
    left.apply_change(&ins("t", "same", CrdtValue::Counter(1))).unwrap();
    let mut right = CrdtEngine::new();
    right.apply_change(&ins("t", "a", CrdtValue::Counter(9))).unwrap();
    right.apply_change(&ins("t", "b", CrdtValue::Counter(2))).unwrap();
    right.apply_change(&ins("t", "same", CrdtValue::Counter(1))).unwrap();
    let cs = merge_states(&mut left, &right).unwrap();
    assert_eq!(cs.len(), 2);
    assert!(cs.contains(&upd("t", "a", CrdtValue::Counter(9))));
    assert!(cs.contains(&ins("t", "b", CrdtValue::Counter(2))));
    assert_eq!(get(&left, "t", "a"), Some(CrdtValue::Counter(9)));
}
