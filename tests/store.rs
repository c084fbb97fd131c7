use gitdb::branch::{blank, branch_key_bytes, BranchManager};
use gitdb::codec::encode_value;
use gitdb::database::{row_key_bytes, CheckoutTarget, CommitStorage, MergeOutcome};
use gitdb::digest::{hash_to_hex, parse_hash};
use gitdb::error::ErrorKind;
use gitdb::kv::KvStore;
use gitdb::models::{Change, CrdtValue};
use gitdb::query::QueryProcessor;

fn s(x: &str) -> String {
    x.to_string()
}

fn ins(t: &str, id: &str, v: CrdtValue) -> Change {
    Change::Insert { table: s(t), id: s(id), value: encode_value(&v) }
}

fn fresh() -> CommitStorage {
    CommitStorage::new(KvStore::new())
}

fn rows_of(st: &CommitStorage, table: &str, h: &[u8; 32]) -> Vec<(String, CrdtValue)> {
    let e = st.get_table_at_commit(table, h).unwrap();
    let mut rows: Vec<(String, CrdtValue)> = e.into_data().into_iter().map(|r| (r.id, r.value)).collect();
    rows.sort_by(|a, b| a.0.cmp(&b.0));
    rows
}

fn head(st: &CommitStorage) -> [u8; 32] {
    st.get_head().unwrap().unwrap()
}

#[test]
fn kv_put_get_delete_and_scan() {
    let mut kv = KvStore::new();
    kv.put(b"t:2", b"b");
    kv.put(b"t:1", b"a");
    kv.put(b"u:1", b"c");
    kv.put(b"t:1", b"z");
    assert_eq!(kv.get(b"t:1"), Some(b"z".to_vec()));
    assert_eq!(kv.len(), 3);
    let rows = kv.prefix_scan(b"t:");
    assert_eq!(rows, vec![(b"t:1".to_vec(), b"z".to_vec()), (b"t:2".to_vec(), b"b".to_vec())]);
    kv.delete(b"t:1");
    kv.delete(b"missing");
    assert_eq!(kv.get(b"t:1"), None);
    let all = kv.full_scan();
    assert_eq!(all.len(), 2);
    assert!(all[0].0 < all[1].0);
}

#[test]
fn root_commit_has_no_parents() {
    let mut st = fresh();
    let h = st.create_commit("init", vec![], 10).unwrap();
    assert_eq!(head(&st), h);
    let c = st.get_commit_by_hash(&h).unwrap();
    assert!(c.parents.is_empty());
    assert_eq!(c.message, "init");
    assert_eq!(st.get_commit_history().unwrap().len(), 1);
}

#[test]
fn second_commit_points_at_first() {
    let mut st = fresh();
    let c1 = st.create_commit("one", vec![ins("t", "1", CrdtValue::Counter(1))], 10).unwrap();
    let c2 = st.create_commit("two", vec![ins("t", "2", CrdtValue::Counter(2))], 11).unwrap();
    let c = st.get_commit_by_hash(&c2).unwrap();
    assert_eq!(c.parents, vec![c1]);
    assert_eq!(c.tree.len(), 1);
    assert_eq!(c.tree[0].0, "t");
    let history = st.get_commit_history().unwrap();
    assert_eq!(history.len(), 2);
    assert_eq!(history[0].message, "two");
    assert_eq!(history[1].message, "one");
    assert!(st.get_commit_by_hash(&c1).is_ok());
}

#[test]
fn same_commit_same_hash() {
    let mut a = fresh();
    let mut b = fresh();
    let ha = a.create_commit("m", vec![ins("t", "1", CrdtValue::Counter(1))], 42).unwrap();
    let hb = b.create_commit("m", vec![ins("t", "1", CrdtValue::Counter(1))], 42).unwrap();
    assert_eq!(ha, hb);
    let hc = fresh().create_commit("m", vec![ins("t", "1", CrdtValue::Counter(1))], 43).unwrap();
    assert_ne!(ha, hc);
}

#[test]
fn missing_commit_is_not_found() {
    let st = fresh();
    let e = st.get_commit_by_hash(&[1u8; 32]).unwrap_err();
    assert_eq!(e.error_kind(), ErrorKind::Missing);
}

#[test]
fn tampered_commit_is_corrupt() {
    let mut st = fresh();
    let h = st.create_commit("init", vec![], 1).unwrap();
    let mut raw = st.db.get(&h).unwrap();
    raw[0] ^= 1;
    st.db.put(&h, &raw);
    assert_eq!(st.get_commit_by_hash(&h).unwrap_err().error_kind(), ErrorKind::Corrupt);
}

#[test]
fn corrupt_head_blocks_commit() {
    let mut st = fresh();
    st.db.put(b"HEAD", b"short");
    let e = st.create_commit("x", vec![], 1).unwrap_err();
    assert_eq!(e.error_kind(), ErrorKind::Corrupt);
    assert_eq!(st.db.get(b"HEAD"), Some(b"short".to_vec()));
}

#[test]
fn materialize_replays_oldest_first() {
    let mut st = fresh();
    st.create_commit("a", vec![ins("t", "1", CrdtValue::Counter(1)), ins("u", "1", CrdtValue::Counter(7))], 1).unwrap();
    st.create_commit("b", vec![ins("t", "1", CrdtValue::Counter(2))], 2).unwrap();
    let h = st.create_commit("c", vec![Change::Delete { table: s("t"), id: s("9") }, ins("t", "2", CrdtValue::Counter(5))], 3).unwrap();
    assert_eq!(rows_of(&st, "t", &h), vec![(s("1"), CrdtValue::Counter(2)), (s("2"), CrdtValue::Counter(5))]);
    assert_eq!(rows_of(&st, "u", &h), vec![(s("1"), CrdtValue::Counter(7))]);
}

#[test]
fn table_diff_between_linear_commits() {
    let mut st = fresh();
    let c1 = st.create_commit("one", vec![ins("t", "1", CrdtValue::Register(b"alice".to_vec()))], 1).unwrap();
    let c2 = st.create_commit("two", vec![ins("t", "2", CrdtValue::Register(b"bob".to_vec()))], 2).unwrap();
    let d = st.get_table_diffs("t", &c1, &c2).unwrap();
    assert_eq!(d, vec![ins("t", "2", CrdtValue::Register(b"bob".to_vec()))]);
}

#[test]
fn commit_diff_between_linear_commits() {
    let mut st = fresh();
    st.create_commit("create", vec![ins("t", "!schema", CrdtValue::Register(b"{}".to_vec()))], 1).unwrap();
    let c1 = st.create_commit("one", vec![ins("t", "1", CrdtValue::Register(b"a".to_vec()))], 2).unwrap();
    let c2 = st.create_commit("two", vec![ins("t", "2", CrdtValue::Register(b"b".to_vec()))], 3).unwrap();
    let d = st.get_commit_diffs(&c1, &c2).unwrap();
    assert_eq!(d, vec![ins("t", "2", CrdtValue::Register(b"b".to_vec()))]);
}

#[test]
fn tree_hash_follows_table_state() {
    let mut st = fresh();
    let c1 = st.create_commit("one", vec![ins("t", "1", CrdtValue::Counter(1))], 1).unwrap();
    let c2 = st.create_commit("same", vec![ins("t", "1", CrdtValue::Counter(1))], 2).unwrap();
    let c3 = st.create_commit("other", vec![ins("t", "1", CrdtValue::Counter(2))], 3).unwrap();
    let t1 = st.get_commit_by_hash(&c1).unwrap().tree;
    let t2 = st.get_commit_by_hash(&c2).unwrap().tree;
    let t3 = st.get_commit_by_hash(&c3).unwrap().tree;
    assert_eq!(t1, t2);
    assert_ne!(t2, t3);
    assert!(st.get_commit_diffs(&c1, &c2).unwrap().is_empty());
    assert_eq!(st.get_commit_diffs(&c2, &c3).unwrap(), vec![Change::Update { table: s("t"), id: s("1"), value: encode_value(&CrdtValue::Counter(2)) }]);
}

#[test]
fn blank_message_is_refused() {
    let mut st = fresh();
    assert_eq!(st.create_commit("  ", vec![], 1).unwrap_err().error_kind(), ErrorKind::Input);
    assert_eq!(st.db.len(), 0);
}

#[test]
fn undecodable_change_blocks_commit() {
    let mut st = fresh();
    let bad = Change::Insert { table: s("t"), id: s("1"), value: vec![1] };
    assert_eq!(st.create_commit("bad", vec![bad], 1).unwrap_err().error_kind(), ErrorKind::Serialization);
    assert_eq!(st.db.len(), 0);
}

#[test]
fn commit_diff_lists_new_tables_with_placeholder() {
    let mut st = fresh();
    let c1 = st.create_commit("one", vec![ins("t", "1", CrdtValue::Counter(1))], 1).unwrap();
    let c2 = st.create_commit("two", vec![ins("u", "1", CrdtValue::Counter(1))], 2).unwrap();
    let d = st.get_commit_diffs(&c1, &c2).unwrap();
    assert_eq!(d, vec![Change::Insert { table: s("u"), id: s("!schema"), value: vec![] }]);
}

#[test]
fn branch_create_list_current_delete() {
    let mut bm = BranchManager::new(KvStore::new());
    assert_eq!(bm.create_branch("b").unwrap_err().error_kind(), ErrorKind::Missing);
    let mut st = CommitStorage::new(bm.db);
    let h = st.create_commit("init", vec![], 1).unwrap();
    let mut bm = BranchManager::new(st.db);
    assert_eq!(bm.create_branch("  ").unwrap_err().error_kind(), ErrorKind::Input);
    bm.create_branch("dev").unwrap();
    bm.create_branch("alpha").unwrap();
    assert_eq!(bm.create_branch("dev").unwrap_err().error_kind(), ErrorKind::Input);
    assert_eq!(bm.list_branches(), vec![s("alpha"), s("dev")]);
    assert_eq!(bm.get_current_branch(), Some(s("alpha")));
    assert_eq!(bm.get_branch_head("dev"), Some(h.to_vec()));
    bm.delete_branch("alpha").unwrap();
    assert_eq!(bm.delete_branch("alpha").unwrap_err().error_kind(), ErrorKind::Input);
    assert_eq!(bm.get_current_branch(), Some(s("dev")));
    assert_eq!(bm.get_branch_head("nope"), None);
}

#[test]
fn branch_stays_when_head_moves() {
    let mut st = fresh();
    let h0 = st.create_commit("init", vec![], 1).unwrap();
    let mut bm = BranchManager::new(st.db);
    bm.create_branch("n").unwrap();
    let mut st = CommitStorage::new(bm.db);
    let h1 = st.create_commit("next", vec![ins("t", "1", CrdtValue::Counter(1))], 2).unwrap();
    assert_ne!(h0, h1);
    assert_eq!(st.db.get(&branch_key_bytes("n")), Some(h0.to_vec()));
    assert_eq!(head(&st), h1);
}

#[test]
fn parents_of_new_commit_resolve() {
    let mut st = fresh();
    st.create_commit("a", vec![], 1).unwrap();
    let h = st.create_commit("b", vec![], 2).unwrap();
    let c = st.get_commit_by_hash(&h).unwrap();
    for p in c.parents {
        assert!(st.get_commit_by_hash(&p).is_ok());
    }
}

#[test]
fn checkout_branch_and_hash() {
    let mut st = fresh();
    let h0 = st.create_commit("init", vec![], 1).unwrap();
    let mut bm = BranchManager::new(st.db);
    bm.create_branch("b").unwrap();
    let mut st = CommitStorage::new(bm.db);
    let h1 = st.create_commit("next", vec![], 2).unwrap();
    assert!(matches!(st.checkout("b").unwrap(), CheckoutTarget::Branch));
    assert_eq!(head(&st), h0);
    assert!(matches!(st.checkout(&hash_to_hex(&h1)).unwrap(), CheckoutTarget::Commit));
    assert_eq!(head(&st), h1);
    assert_eq!(st.checkout("nothing").unwrap_err().error_kind(), ErrorKind::Input);
    assert_eq!(st.checkout(&"ab".repeat(32)).unwrap_err().error_kind(), ErrorKind::Input);
}

#[test]
fn branches_merge_and_converge() {
    let mut st = fresh();
    let c = st.create_commit("schema", vec![ins("t", "!schema", CrdtValue::Register(b"{}".to_vec()))], 1).unwrap();
    let main_tip = st.create_commit("a", vec![ins("t", "a", CrdtValue::Register(b"X".to_vec()))], 2).unwrap();
    st.checkout(&hash_to_hex(&c)).unwrap();
    let b_tip = st.create_commit("b", vec![ins("t", "b", CrdtValue::Register(b"Y".to_vec()))], 3).unwrap();
    let mut bm = BranchManager::new(st.db);
    bm.create_branch("b").unwrap();
    let mut st = CommitStorage::new(bm.db);
    st.checkout(&hash_to_hex(&main_tip)).unwrap();
    let out = st.merge_branch("b", 4).unwrap();
    let h = match out {
        MergeOutcome::Merged(h) => h,
        MergeOutcome::UpToDate => panic!("expected a merge commit"),
    };
    let mc = st.get_commit_by_hash(&h).unwrap();
    assert_eq!(mc.parents, vec![main_tip, b_tip]);
    assert_eq!(mc.message, "Merge branch 'b'");
    let ids: Vec<String> = rows_of(&st, "t", &h).into_iter().map(|r| r.0).collect();
    assert_eq!(ids, vec![s("!schema"), s("a"), s("b")]);
    assert!(matches!(st.merge_branch("b", 5).unwrap(), MergeOutcome::UpToDate));
}

#[test]
fn merge_registers_last_writer_by_bytes() {
    for (mine, theirs) in [(vec![0x01u8], vec![0x02u8]), (vec![0x02u8], vec![0x01u8])] {
        let mut st = fresh();
        let root = st.create_commit("root", vec![], 1).unwrap();
        let left = st.create_commit("l", vec![ins("t", "k", CrdtValue::Register(mine.clone()))], 2).unwrap();
        st.checkout(&hash_to_hex(&root)).unwrap();
        st.create_commit("r", vec![ins("t", "k", CrdtValue::Register(theirs.clone()))], 3).unwrap();
        let mut bm = BranchManager::new(st.db);
        bm.create_branch("other").unwrap();
        let mut st = CommitStorage::new(bm.db);
        st.checkout(&hash_to_hex(&left)).unwrap();
        let out = st.merge_branch("other", 4).unwrap();
        let h = match out {
            MergeOutcome::Merged(h) => h,
            MergeOutcome::UpToDate => left,
        };
        assert_eq!(rows_of(&st, "t", &h), vec![(s("k"), CrdtValue::Register(vec![0x02]))]);
    }
}

#[test]
fn merge_unknown_branch_is_refused() {
    let mut st = fresh();
    st.create_commit("root", vec![], 1).unwrap();
    let e = st.merge_branch("ghost", 2).unwrap_err();
    assert_eq!(e.error_kind(), ErrorKind::Input);
    assert!(e.to_string().contains("ghost"));
}

#[test]
fn merge_type_mismatch_is_reported() {
    let mut st = fresh();
    let root = st.create_commit("root", vec![], 1).unwrap();
    let left = st.create_commit("l", vec![ins("t", "k", CrdtValue::Counter(1))], 2).unwrap();
    st.checkout(&hash_to_hex(&root)).unwrap();
    st.create_commit("r", vec![ins("t", "k", CrdtValue::Register(vec![1]))], 3).unwrap();
    let mut bm = BranchManager::new(st.db);
    bm.create_branch("other").unwrap();
    let mut st = CommitStorage::new(bm.db);
    st.checkout(&hash_to_hex(&left)).unwrap();
    assert_eq!(st.merge_branch("other", 4).unwrap_err().error_kind(), ErrorKind::Mismatch);
}

#[test]
fn revert_moves_forward_and_restores_rows() {
    let mut st = fresh();
    let c1 = st.create_commit("c1", vec![ins("t", "1", CrdtValue::Counter(1))], 1).unwrap();
    st.create_commit("c2", vec![ins("t", "2", CrdtValue::Counter(2))], 2).unwrap();
    let c3 = st.create_commit("c3", vec![ins("t", "3", CrdtValue::Counter(3))], 3).unwrap();
    st.db.put(&row_key_bytes("t", "stale"), b"x");
    st.revert_to_commit(&c1, 4).unwrap();
    let new_head = head(&st);
    let rc = st.get_commit_by_hash(&new_head).unwrap();
    assert_eq!(rc.parents, vec![c3]);
    assert_eq!(rc.tree.len(), 1);
    assert_eq!(rc.message, format!("Revert to {}", hash_to_hex(&c1)));
    assert_eq!(rc.changes, vec![Change::Delete { table: s("t"), id: s("1") }]);
    let rows = st.db.prefix_scan(b"t:");
    assert_eq!(rows, vec![(b"t:1".to_vec(), encode_value(&CrdtValue::Counter(1)))]);
}

#[test]
fn revert_to_missing_commit_changes_nothing() {
    let mut st = fresh();
    st.create_commit("c1", vec![], 1).unwrap();
    let before = st.db.full_scan();
    assert_eq!(st.revert_to_commit(&[3u8; 32], 2).unwrap_err().error_kind(), ErrorKind::Missing);
    assert_eq!(st.db.full_scan(), before);
}

#[test]
fn parse_hash_accepts_64_hex_digits_only() {
    let h = [0xabu8; 32];
    assert_eq!(parse_hash(&hash_to_hex(&h)).unwrap(), h);
    assert_eq!(parse_hash(&"AB".repeat(32)).unwrap(), h);
    assert!(parse_hash("abc").is_err());
    assert!(parse_hash(&"zz".repeat(32)).is_err());
    assert_eq!(hash_to_hex(&[0x0fu8; 32]), "0f".repeat(32));
}

#[test]
fn query_reads_one_commit_and_head() {
    let mut st = fresh();
    st.create_commit("a", vec![ins("t", "1", CrdtValue::Counter(1))], 1).unwrap();
    let h = st.create_commit("b", vec![ins("t", "2", CrdtValue::Counter(2)), ins("u", "1", CrdtValue::Counter(3))], 2).unwrap();
    let q = QueryProcessor::new(&st);
    let e = q.execute_at("t", &hash_to_hex(&h)).unwrap();
    let mut rows = e.into_data();
    rows.sort_by(|a, b| a.id.cmp(&b.id));
    assert_eq!(rows.len(), 2);
    assert_eq!(rows[0].id, "1");
    assert_eq!(rows[1].id, "2");
    assert_eq!(q.get_head_hash().unwrap(), h.to_vec());
    assert_eq!(q.get_table_at_commit("t", &h).unwrap().into_data().len(), 2);
    assert_eq!(q.get_table_at_commit("t", &[1, 2]).unwrap_err().error_kind(), ErrorKind::Input);
    assert_eq!(q.execute_at("t", "xyz").unwrap_err().error_kind(), ErrorKind::Input);
}

#[test]
fn blank_names() {
    assert!(blank(""));
    assert!(blank(" \t\n\u{3000}"));
    assert!(!blank(" a "));
}
