//! The CRDT state engine: `(table, id) -> CrdtValue`, filled by replaying
//! changes and combined with other engines under typed merge rules.
use vstd::prelude::*;
use crate::codec::{dec_exact, dec_value, decode_value};
use crate::error::BranchDBError;
use crate::models::{Change, ChangeV, ValueV};
use crate::order::{bytes_lt, lex_lt};
pub use crate::models::CrdtValue;

verus! {

/// A row's address: table name and row id.
pub type RowKey = (Seq<char>, Seq<char>);

/// The engine's state: what each addressed row holds.
pub type EngineState = Map<RowKey, ValueV>;

/// What the encoded payload of an insert or update denotes, if it is a
/// well-formed value.
pub open spec fn payload(b: Seq<u8>) -> Option<ValueV> {
    dec_exact(b, dec_value(b))
}

/// A change can be replayed: deletes always, writes when their payload
/// decodes.
pub open spec fn replayable(c: ChangeV) -> bool {
    match c {
        ChangeV::Insert { value, .. } => payload(value) is Some,
        ChangeV::Update { value, .. } => payload(value) is Some,
        ChangeV::Delete { .. } => true,
    }
}

/// The state after one replayable change: a write replaces the row, a
/// delete removes it.
pub open spec fn apply_spec(s: EngineState, c: ChangeV) -> EngineState {
    match c {
        ChangeV::Insert { table, id, value } => s.insert((table, id), payload(value)->0),
        ChangeV::Update { table, id, value } => s.insert((table, id), payload(value)->0),
        ChangeV::Delete { table, id } => s.remove((table, id)),
    }
}

/// The state after replaying `cs` in order on `s`.
pub open spec fn apply_all(s: EngineState, cs: Seq<ChangeV>) -> EngineState
    decreases cs.len(),
{
    if cs.len() == 0 {
        s
    } else {
        apply_spec(apply_all(s, cs.drop_last()), cs.last())
    }
}

/// Every change of `cs` can be replayed.
pub open spec fn all_replayable(cs: Seq<ChangeV>) -> bool {
    forall|i: int| 0 <= i < cs.len() ==> replayable(#[trigger] cs[i])
}

/// Two values of different kinds cannot be merged.
pub open spec fn same_kind(a: ValueV, b: ValueV) -> bool {
    (a is Counter && b is Counter) || (a is Register && b is Register)
}

/// Counters merge to the larger count, registers to the byte-lexicographically
/// greater payload.
pub open spec fn merge_value(a: ValueV, b: ValueV) -> ValueV {
    match (a, b) {
        (ValueV::Counter(x), ValueV::Counter(y)) => ValueV::Counter(if x >= y { x } else { y }),
        (ValueV::Register(x), ValueV::Register(y)) => ValueV::Register(if lex_lt(x, y) { y } else { x }),
        _ => a,
    }
}

/// Some row is held by both states with values of different kinds.
pub open spec fn conflicts(a: EngineState, b: EngineState) -> bool {
    exists|k: RowKey| a.contains_key(k) && b.contains_key(k) && !same_kind(#[trigger] a[k], b[k])
}

/// Every row of either state; rows held by both are merged.
pub open spec fn merge_spec(a: EngineState, b: EngineState) -> EngineState {
    Map::new(
        |k: RowKey| a.contains_key(k) || b.contains_key(k),
        |k: RowKey| if a.contains_key(k) && b.contains_key(k) {
            merge_value(a[k], b[k])
        } else if a.contains_key(k) {
            a[k]
        } else {
            b[k]
        },
    )
}

/// The rows of one table, by id.
pub open spec fn table_view(s: EngineState, t: Seq<char>) -> Map<Seq<char>, ValueV> {
    Map::new(|id: Seq<char>| s.contains_key((t, id)), |id: Seq<char>| s[(t, id)])
}

/// One row of the engine.
#[derive(Debug, Clone, PartialEq, Eq)]
pub struct Row {
    pub table: String,
    pub id: String,
    pub value: CrdtValue,
}

pub open spec fn rkey(r: Row) -> RowKey {
    (r.table@, r.id@)
}

pub open spec fn keys_unique(rs: Seq<Row>) -> bool {
    forall|i: int, j: int| 0 <= i < j < rs.len() ==> rkey(#[trigger] rs[i]) != rkey(#[trigger] rs[j])
}

pub open spec fn has_row(rs: Seq<Row>, k: RowKey) -> bool {
    exists|i: int| 0 <= i < rs.len() && rkey(#[trigger] rs[i]) == k
}

pub open spec fn row_index(rs: Seq<Row>, k: RowKey) -> int {
    choose|i: int| 0 <= i < rs.len() && rkey(#[trigger] rs[i]) == k
}

pub open spec fn rows_state(rs: Seq<Row>) -> EngineState {
    Map::new(|k: RowKey| has_row(rs, k), |k: RowKey| rs[row_index(rs, k)].value@)
}

pub proof fn lemma_state_at(rs: Seq<Row>, n: int)
    requires
        keys_unique(rs),
        0 <= n < rs.len(),
    ensures
        rows_state(rs).contains_key(rkey(rs[n])),
        rows_state(rs)[rkey(rs[n])] == rs[n].value@,
{
    let k = rkey(rs[n]);
    assert(has_row(rs, k));
    let j = row_index(rs, k);
    if j != n {
        if j < n {
            assert(rkey(rs[j]) != rkey(rs[n]));
        } else {
            assert(rkey(rs[n]) != rkey(rs[j]));
        }
    }
}

/// Replays changes into a `(table, id) -> CrdtValue` state.
#[derive(Debug, Clone)]
pub struct CrdtEngine {
    rows: Vec<Row>,
}

impl View for CrdtEngine {
    type V = EngineState;

    closed spec fn view(&self) -> EngineState {
        rows_state(self.rows@)
    }
}

impl CrdtEngine {
    pub closed spec fn wf(&self) -> bool {
        keys_unique(self.rows@)
    }

    /// An engine with no rows.
    pub fn new() -> (r: CrdtEngine)
        ensures
            r.wf(),
            r@ == Map::<RowKey, ValueV>::empty(),
    {
        let r = CrdtEngine { rows: Vec::new() };
        assert(r@ =~= Map::<RowKey, ValueV>::empty());
        r
    }

    fn find(&self, table: &String, id: &String) -> (r: Option<usize>)
        requires
            self.wf(),
        ensures
            r matches Some(i) ==> i < self.rows@.len() && rkey(self.rows@[i as int]) == (table@, id@),
            r is None ==> !has_row(self.rows@, (table@, id@)),
    {
        let mut i: usize = 0;
        while i < self.rows.len()
            invariant
                i <= self.rows@.len(),
                forall|j: int| 0 <= j < i ==> rkey(#[trigger] self.rows@[j]) != (table@, id@),
            decreases self.rows@.len() - i,
        {
            if self.rows[i].table == *table && self.rows[i].id == *id {
                return Some(i);
            }
            i = i + 1;
        }
        None
    }

    /// The value of a row.
    pub fn get(&self, table: &String, id: &String) -> (r: Option<&CrdtValue>)
        requires
            self.wf(),
        ensures
            match r {
                Some(v) => self@.contains_key((table@, id@)) && self@[(table@, id@)] == v@,
                None => !self@.contains_key((table@, id@)),
            },
    {
        match self.find(table, id) {
            Some(i) => {
                proof { lemma_state_at(self.rows@, i as int); }
                Some(&self.rows[i].value)
            },
            None => None,
        }
    }

    /// Writes a row, replacing what it held.
    pub fn set(&mut self, table: &String, id: &String, value: CrdtValue)
        requires
            old(self).wf(),
        ensures
            final(self).wf(),
            final(self)@ == old(self)@.insert((table@, id@), value@),
    {
        let ghost rs = self.rows@;
        let ghost k = (table@, id@);
        let ghost vv = value@;
        let row = Row { table: table.clone(), id: id.clone(), value };
        match self.find(table, id) {
            Some(i) => {
                self.rows.set(i, row);
                let ghost ns = self.rows@;
                assert(ns =~= rs.update(i as int, ns[i as int]));
                assert(keys_unique(ns)) by {
                    assert forall|a: int, b: int| 0 <= a < b < ns.len() implies rkey(#[trigger] ns[a]) != rkey(#[trigger] ns[b]) by {
                        assert(rkey(ns[a]) == rkey(rs[a]));
                        assert(rkey(ns[b]) == rkey(rs[b]));
                    }
                }
                assert(rows_state(ns) =~= rows_state(rs).insert(k, vv)) by {
                    assert forall|q: RowKey| #[trigger] rows_state(ns).contains_key(q) == rows_state(rs).insert(k, vv).contains_key(q) by {
                        if has_row(rs, q) {
                            let j = row_index(rs, q);
                            assert(rkey(ns[j]) == rkey(rs[j]));
                        }
                        if has_row(ns, q) {
                            let j = row_index(ns, q);
                            assert(rkey(ns[j]) == rkey(rs[j]));
                        }
                    }
                    assert forall|q: RowKey| #[trigger] rows_state(ns).contains_key(q) implies rows_state(ns)[q] == rows_state(rs).insert(k, vv)[q] by {
                        if q == k {
                            lemma_state_at(ns, i as int);
                        } else {
                            let j = row_index(ns, q);
                            assert(j != i);
                            assert(ns[j] == rs[j]);
                            lemma_state_at(ns, j);
                            lemma_state_at(rs, j);
                        }
                    }
                }
            },
            None => {
                self.rows.push(row);
                let ghost ns = self.rows@;
                assert(ns =~= rs.push(ns[rs.len() as int]));
                assert(keys_unique(ns)) by {
                    assert forall|a: int, b: int| 0 <= a < b < ns.len() implies rkey(#[trigger] ns[a]) != rkey(#[trigger] ns[b]) by {
                        if b == rs.len() {
                            assert(ns[a] == rs[a]);
                        } else {
                            assert(ns[a] == rs[a]);
                            assert(ns[b] == rs[b]);
                        }
                    }
                }
                assert(rows_state(ns) =~= rows_state(rs).insert(k, vv)) by {
                    assert forall|q: RowKey| #[trigger] rows_state(ns).contains_key(q) == rows_state(rs).insert(k, vv).contains_key(q) by {
                        if has_row(rs, q) {
                            let j = row_index(rs, q);
                            assert(ns[j] == rs[j]);
                        }
                        if has_row(ns, q) {
                            let j = row_index(ns, q);
                            if j < rs.len() {
                                assert(ns[j] == rs[j]);
                            }
                        }
                        assert(rkey(ns[rs.len() as int]) == k);
                    }
                    assert forall|q: RowKey| #[trigger] rows_state(ns).contains_key(q) implies rows_state(ns)[q] == rows_state(rs).insert(k, vv)[q] by {
                        if q == k {
                            lemma_state_at(ns, rs.len() as int);
                        } else {
                            let j = row_index(ns, q);
                            assert(j != rs.len());
                            assert(ns[j] == rs[j]);
                            lemma_state_at(ns, j);
                            lemma_state_at(rs, j);
                        }
                    }
                }
            },
        }
    }

    /// Removes a row; an absent row is left absent.
    pub fn remove(&mut self, table: &String, id: &String)
        requires
            old(self).wf(),
        ensures
            final(self).wf(),
            final(self)@ == old(self)@.remove((table@, id@)),
    {
        let ghost rs = self.rows@;
        let ghost k = (table@, id@);
        match self.find(table, id) {
            Some(i) => {
                self.rows.remove(i);
                let ghost ns = self.rows@;
                assert(ns =~= rs.remove(i as int));
                assert(keys_unique(ns)) by {
                    assert forall|a: int, b: int| 0 <= a < b < ns.len() implies rkey(#[trigger] ns[a]) != rkey(#[trigger] ns[b]) by {
                        let aa = if a < i { a } else { a + 1 };
                        let bb = if b < i { b } else { b + 1 };
                        assert(ns[a] == rs[aa]);
                        assert(ns[b] == rs[bb]);
                    }
                }
                assert(rows_state(ns) =~= rows_state(rs).remove(k)) by {
                    assert forall|q: RowKey| #[trigger] rows_state(ns).contains_key(q) == rows_state(rs).remove(k).contains_key(q) by {
                        if has_row(rs, q) && q != k {
                            let j = row_index(rs, q);
                            let jj = if j < i { j } else { j - 1 };
                            assert(ns[jj] == rs[j]);
                        }
                        if has_row(ns, q) {
                            let j = row_index(ns, q);
                            let jj = if j < i { j } else { j + 1 };
                            assert(ns[j] == rs[jj]);
                            assert(jj != i);
                        }
                    }
                    assert forall|q: RowKey| #[trigger] rows_state(ns).contains_key(q) implies rows_state(ns)[q] == rows_state(rs).remove(k)[q] by {
                        let j = row_index(ns, q);
                        let jj = if j < i { j } else { j + 1 };
                        assert(ns[j] == rs[jj]);
                        lemma_state_at(ns, j);
                        lemma_state_at(rs, jj);
                    }
                }
            },
            None => {
                assert(rows_state(rs).remove(k) =~= rows_state(rs));
            },
        }
    }

    /// An independent copy with the same state.
    pub fn duplicate(&self) -> (r: CrdtEngine)
        requires
            self.wf(),
        ensures
            r.wf(),
            r@ == self@,
    {
        let mut rows: Vec<Row> = Vec::new();
        let mut i: usize = 0;
        while i < self.rows.len()
            invariant
                i <= self.rows@.len(),
                rows@.len() == i,
                forall|j: int| 0 <= j < i ==> rkey(#[trigger] rows@[j]) == rkey(self.rows@[j])
                    && rows@[j].value@ == self.rows@[j].value@,
            decreases self.rows@.len() - i,
        {
            let r = &self.rows[i];
            rows.push(Row { table: r.table.clone(), id: r.id.clone(), value: r.value.duplicate() });
            i = i + 1;
        }
        let out = CrdtEngine { rows };
        let ghost a = self.rows@;
        let ghost b = out.rows@;
        assert(keys_unique(b)) by {
            assert forall|x: int, y: int| 0 <= x < y < b.len() implies rkey(#[trigger] b[x]) != rkey(#[trigger] b[y]) by {
                assert(rkey(b[x]) == rkey(a[x]));
                assert(rkey(b[y]) == rkey(a[y]));
            }
        }
        assert(rows_state(b) =~= rows_state(a)) by {
            assert forall|q: RowKey| #[trigger] rows_state(b).contains_key(q) == rows_state(a).contains_key(q) by {
                if has_row(a, q) {
                    let j = row_index(a, q);
                    assert(rkey(b[j]) == rkey(a[j]));
                }
                if has_row(b, q) {
                    let j = row_index(b, q);
                    assert(rkey(b[j]) == rkey(a[j]));
                }
            }
            assert forall|q: RowKey| #[trigger] rows_state(b).contains_key(q) implies rows_state(b)[q] == rows_state(a)[q] by {
                let j = row_index(b, q);
                lemma_state_at(b, j);
                lemma_state_at(a, j);
            }
        }
        out
    }

    /// Every row, each address once.
    pub fn into_data(self) -> (r: Vec<Row>)
        requires
            self.wf(),
        ensures
            keys_unique(r@),
            rows_state(r@) == self@,
    {
        self.rows
    }

    /// Whether some row of `other` is held here with a value of another kind.
    fn conflicts_with(&self, other: &CrdtEngine) -> (r: bool)
        requires
            self.wf(),
            other.wf(),
        ensures
            r == conflicts(self@, other@),
    {
        let mut i: usize = 0;
        while i < other.rows.len()
            invariant
                self.wf(),
                other.wf(),
                i <= other.rows@.len(),
                forall|j: int| 0 <= j < i ==> !(self@.contains_key(#[trigger] rkey(other.rows@[j]))
                    && !same_kind(self@[rkey(other.rows@[j])], other.rows@[j].value@)),
            decreases other.rows@.len() - i,
        {
            let row = &other.rows[i];
            match self.get(&row.table, &row.id) {
                Some(cur) => {
                    if merge_values(cur, &row.value).is_none() {
                        proof {
                            lemma_state_at(other.rows@, i as int);
                            let k = rkey(other.rows@[i as int]);
                            assert(self@.contains_key(k) && other@.contains_key(k) && !same_kind(self@[k], other@[k]));
                        }
                        return true;
                    }
                },
                None => {},
            }
            i = i + 1;
        }
        proof {
            if conflicts(self@, other@) {
                let k = choose|k: RowKey| self@.contains_key(k) && other@.contains_key(k) && !same_kind(#[trigger] self@[k], other@[k]);
                let j = row_index(other.rows@, k);
                lemma_state_at(other.rows@, j);
                assert(self@.contains_key(rkey(other.rows@[j])));
            }
        }
        false
    }

    /// Merges `other` into this engine: rows only in `other` are copied in,
    /// rows held by both are merged by kind. If some row is held by both
    /// with values of different kinds, nothing changes and a type mismatch
    /// is reported.
    pub fn merge(&mut self, other: &CrdtEngine) -> (r: Result<(), BranchDBError>)
        requires
            old(self).wf(),
            other.wf(),
        ensures
            final(self).wf(),
            r is Ok <==> !conflicts(old(self)@, other@),
            r is Ok ==> final(self)@ == merge_spec(old(self)@, other@),
            r matches Err(e) ==> final(self)@ == old(self)@ && e is TypeMismatch,
    {
        if self.conflicts_with(other) {
            return Err(BranchDBError::TypeMismatch("Type mismatch on merge".to_owned()));
        }
        let ghost a = self@;
        let ghost orows = other.rows@;
        let mut i: usize = 0;
        assert(merge_spec(a, rows_state(orows.take(0))) =~= a);
        while i < other.rows.len()
            invariant
                self.wf(),
                other.wf(),
                orows == other.rows@,
                !conflicts(a, other@),
                i <= orows.len(),
                self@ == merge_spec(a, rows_state(orows.take(i as int))),
            decreases orows.len() - i,
        {
            let row = &other.rows[i];
            let ghost k = rkey(orows[i as int]);
            let ghost p = rows_state(orows.take(i as int));
            proof {
                lemma_state_at(orows, i as int);
                lemma_state_push(orows.take(i as int), orows[i as int], orows);
                assert(orows.take(i + 1) =~= orows.take(i as int).push(orows[i as int]));
            }
            let merged = match self.get(&row.table, &row.id) {
                Some(cur) => {
                    proof {
                        assert(a.contains_key(k));
                    }
                    match merge_values(cur, &row.value) {
                        Some(m) => m,
                        None => {
                            proof { assert(conflicts(a, other@)); }
                            row.value.duplicate()
                        },
                    }
                },
                None => row.value.duplicate(),
            };
            self.set(&row.table, &row.id, merged);
            assert(self@ =~= merge_spec(a, p.insert(k, orows[i as int].value@)));
            i = i + 1;
        }
        assert(orows.take(i as int) =~= orows);
        Ok(())
    }

    /// Replays one change: a write decodes its payload and replaces the
    /// row, a delete removes it. A payload that does not decode is refused
    /// and the state is left as it was.
    pub fn apply_change(&mut self, change: &Change) -> (r: Result<(), BranchDBError>)
        requires
            old(self).wf(),
        ensures
            final(self).wf(),
            r is Ok <==> replayable(change@),
            r is Ok ==> final(self)@ == apply_spec(old(self)@, change@),
            r matches Err(e) ==> final(self)@ == old(self)@ && e is SerializationError,
    {
        match change {
            Change::Insert { table, id, value } | Change::Update { table, id, value } => {
                let v = decode_value(value.as_slice())?;
                self.set(table, id, v);
                Ok(())
            },
            Change::Delete { table, id } => {
                self.remove(table, id);
                Ok(())
            },
        }
    }

    /// Replays changes in order, stopping at the first that is refused.
    pub fn apply_changes(&mut self, changes: &Vec<Change>) -> (r: Result<(), BranchDBError>)
        requires
            old(self).wf(),
        ensures
            final(self).wf(),
            r is Ok <==> all_replayable(changes@.map_values(|c: Change| c@)),
            r is Ok ==> final(self)@ == apply_all(old(self)@, changes@.map_values(|c: Change| c@)),
            r matches Err(e) ==> e is SerializationError,
    {
        let ghost cs = changes@.map_values(|c: Change| c@);
        let ghost s0 = self@;
        let mut i: usize = 0;
        while i < changes.len()
            invariant
                self.wf(),
                cs == changes@.map_values(|c: Change| c@),
                i <= changes@.len(),
                all_replayable(cs.take(i as int)),
                self@ == apply_all(s0, cs.take(i as int)),
            decreases changes@.len() - i,
        {
            let r = self.apply_change(&changes[i]);
            if r.is_err() {
                assert(!replayable(cs[i as int]));
                return r;
            }
            assert(cs.take(i + 1).drop_last() =~= cs.take(i as int));
            assert(all_replayable(cs.take(i + 1))) by {
                assert forall|j: int| 0 <= j < i + 1 implies replayable(#[trigger] cs.take(i + 1)[j]) by {
                    if j < i {
                        assert(cs.take(i + 1)[j] == cs.take(i as int)[j]);
                    }
                }
            }
            i = i + 1;
        }
        assert(cs.take(i as int) =~= cs);
        Ok(())
    }
}

/// Appending a row with a new address adds that row to the state.
proof fn lemma_state_push(rs: Seq<Row>, r: Row, whole: Seq<Row>)
    requires
        keys_unique(whole),
        exists|n: int| 0 <= n < whole.len() && whole.take(n) == rs && whole[n] == r,
    ensures
        keys_unique(rs.push(r)),
        rows_state(rs.push(r)) == rows_state(rs).insert(rkey(r), r.value@),
        !rows_state(rs).contains_key(rkey(r)),
{
    let n = choose|n: int| 0 <= n < whole.len() && whole.take(n) == rs && whole[n] == r;
    let ns = rs.push(r);
    assert(ns =~= whole.take(n + 1));
    assert(keys_unique(ns)) by {
        assert forall|x: int, y: int| 0 <= x < y < ns.len() implies rkey(#[trigger] ns[x]) != rkey(#[trigger] ns[y]) by {
            assert(ns[x] == whole[x]);
            assert(ns[y] == whole[y]);
        }
    }
    assert(keys_unique(rs)) by {
        assert forall|x: int, y: int| 0 <= x < y < rs.len() implies rkey(#[trigger] rs[x]) != rkey(#[trigger] rs[y]) by {
            assert(rs[x] == ns[x]);
            assert(rs[y] == ns[y]);
        }
    }
    if has_row(rs, rkey(r)) {
        let j = row_index(rs, rkey(r));
        assert(ns[j] == rs[j]);
        assert(rkey(ns[j]) != rkey(ns[rs.len() as int]));
    }
    assert(rows_state(ns) =~= rows_state(rs).insert(rkey(r), r.value@)) by {
        assert forall|q: RowKey| #[trigger] rows_state(ns).contains_key(q) == rows_state(rs).insert(rkey(r), r.value@).contains_key(q) by {
            if has_row(rs, q) {
                let j = row_index(rs, q);
                assert(ns[j] == rs[j]);
            }
            if has_row(ns, q) {
                let j = row_index(ns, q);
                if j < rs.len() {
                    assert(ns[j] == rs[j]);
                }
            }
            assert(rkey(ns[rs.len() as int]) == rkey(r));
        }
        assert forall|q: RowKey| #[trigger] rows_state(ns).contains_key(q) implies rows_state(ns)[q] == rows_state(rs).insert(rkey(r), r.value@)[q] by {
            if q == rkey(r) {
                lemma_state_at(ns, rs.len() as int);
            } else {
                let j = row_index(ns, q);
                assert(j != rs.len());
                assert(ns[j] == rs[j]);
                lemma_state_at(ns, j);
                lemma_state_at(rs, j);
            }
        }
    }
}

/// The address a change writes to.
pub open spec fn change_key(c: ChangeV) -> RowKey {
    (c.table(), c.id())
}

/// Some change of `cs` writes to `k`.
pub open spec fn touches(cs: Seq<ChangeV>, k: RowKey) -> bool {
    exists|i: int| 0 <= i < cs.len() && change_key(#[trigger] cs[i]) == k
}

/// Two states hold the same thing at `k`.
pub open spec fn agree_at(s: EngineState, t: EngineState, k: RowKey) -> bool {
    s.contains_key(k) == t.contains_key(k) && (s.contains_key(k) ==> s[k] == t[k])
}

proof fn lemma_untouched_kept(s: EngineState, cs: Seq<ChangeV>, k: RowKey)
    requires
        !touches(cs, k),
    ensures
        agree_at(apply_all(s, cs), s, k),
    decreases cs.len(),
{
    if cs.len() > 0 {
        assert(!touches(cs.drop_last(), k)) by {
            if touches(cs.drop_last(), k) {
                let i = choose|i: int| 0 <= i < cs.drop_last().len() && change_key(#[trigger] cs.drop_last()[i]) == k;
                assert(cs[i] == cs.drop_last()[i]);
            }
        }
        assert(change_key(cs[cs.len() - 1]) != k);
        lemma_untouched_kept(s, cs.drop_last(), k);
    }
}

proof fn lemma_replay_agrees(s: EngineState, t: EngineState, cs: Seq<ChangeV>, k: RowKey)
    requires
        agree_at(s, t, k) || touches(cs, k),
    ensures
        agree_at(apply_all(s, cs), apply_all(t, cs), k),
    decreases cs.len(),
{
    if cs.len() > 0 {
        let c = cs[cs.len() - 1];
        if change_key(c) != k {
            if touches(cs, k) && !agree_at(s, t, k) {
                let i = choose|i: int| 0 <= i < cs.len() && change_key(#[trigger] cs[i]) == k;
                assert(cs.drop_last()[i] == cs[i]);
            }
            lemma_replay_agrees(s, t, cs.drop_last(), k);
        }
    }
}

/// Replaying a sequence of changes a second time changes nothing: the
/// state after replaying `cs` twice equals the state after replaying it once.
pub proof fn lemma_replay_idempotent(s: EngineState, cs: Seq<ChangeV>)
    ensures
        apply_all(apply_all(s, cs), cs) == apply_all(s, cs),
{
    let once = apply_all(s, cs);
    assert forall|k: RowKey| #[trigger] agree_at(apply_all(once, cs), once, k) by {
        if !touches(cs, k) {
            lemma_untouched_kept(s, cs, k);
        }
        lemma_replay_agrees(once, s, cs, k);
    }
    assert(apply_all(once, cs) =~= once) by {
        assert forall|k: RowKey| #[trigger] apply_all(once, cs).contains_key(k) == once.contains_key(k) by {
            assert(agree_at(apply_all(once, cs), once, k));
        }
        assert forall|k: RowKey| #[trigger] apply_all(once, cs).contains_key(k) implies apply_all(once, cs)[k] == once[k] by {
            assert(agree_at(apply_all(once, cs), once, k));
        }
    }
}

/// Merging values of the same kind does not depend on their order.
pub proof fn lemma_merge_value_commutes(a: ValueV, b: ValueV)
    requires
        same_kind(a, b),
    ensures
        merge_value(a, b) == merge_value(b, a),
{
    match (a, b) {
        (ValueV::Register(x), ValueV::Register(y)) => {
            crate::order::lemma_lex_total(x, y);
        },
        _ => {},
    }
}

/// Merging two engines without type mismatches gives the same state in
/// either order.
pub proof fn lemma_merge_commutes(a: EngineState, b: EngineState)
    requires
        !conflicts(a, b),
    ensures
        merge_spec(a, b) == merge_spec(b, a),
{
    assert forall|k: RowKey| a.contains_key(k) && b.contains_key(k) implies #[trigger] merge_value(a[k], b[k]) == merge_value(b[k], a[k]) by {
        assert(same_kind(a[k], b[k]));
        lemma_merge_value_commutes(a[k], b[k]);
    }
    assert(merge_spec(a, b) =~= merge_spec(b, a));
}

/// Change `c` takes its row from what `from` holds to what `to` holds:
/// an insert where only `to` holds the row, an update where both hold it
/// with different values, a delete where only `from` holds it.
pub open spec fn realizes(from: EngineState, to: EngineState, c: ChangeV) -> bool {
    let k = change_key(c);
    match c {
        ChangeV::Insert { value, .. } => !from.contains_key(k) && to.contains_key(k) && payload(value) == Some(to[k]),
        ChangeV::Update { value, .. } => from.contains_key(k) && to.contains_key(k) && from[k] != to[k]
            && payload(value) == Some(to[k]),
        ChangeV::Delete { .. } => from.contains_key(k) && !to.contains_key(k),
    }
}

/// No two changes of `cs` write to the same row.
pub open spec fn keys_distinct(cs: Seq<ChangeV>) -> bool {
    forall|i: int, j: int| 0 <= i < j < cs.len() ==> change_key(#[trigger] cs[i]) != change_key(#[trigger] cs[j])
}

/// `cs` is a difference from `from` to `to`: one change for each row on
/// which the two states disagree, and no other.
pub open spec fn is_diff(from: EngineState, to: EngineState, cs: Seq<ChangeV>) -> bool {
    &&& forall|i: int| 0 <= i < cs.len() ==> realizes(from, to, #[trigger] cs[i])
    &&& keys_distinct(cs)
    &&& forall|k: RowKey| !agree_at(from, to, k) ==> #[trigger] touches(cs, k)
}

/// The state at `k` after replaying `cs`, where `cs[i]` is the only change
/// that writes to `k`.
proof fn lemma_sole_writer(s: EngineState, cs: Seq<ChangeV>, i: int)
    requires
        0 <= i < cs.len(),
        forall|j: int| 0 <= j < cs.len() && j != i ==> change_key(#[trigger] cs[j]) != change_key(cs[i]),
    ensures
        agree_at(apply_all(s, cs), apply_spec(Map::empty(), cs[i]), change_key(cs[i])),
    decreases cs.len(),
{
    let k = change_key(cs[i]);
    if i < cs.len() - 1 {
        let init = cs.drop_last();
        assert forall|j: int| 0 <= j < init.len() && j != i implies change_key(#[trigger] init[j]) != change_key(init[i]) by {
            assert(init[j] == cs[j]);
        }
        assert(init[i] == cs[i]);
        lemma_sole_writer(s, init, i);
        assert(change_key(cs[cs.len() - 1]) != k);
    }
}

/// Applying a difference from `from` to `to` on top of `from` yields `to`.
pub proof fn lemma_diff_complete(from: EngineState, to: EngineState, cs: Seq<ChangeV>)
    requires
        is_diff(from, to, cs),
    ensures
        apply_all(from, cs) == to,
{
    assert forall|k: RowKey| #[trigger] agree_at(apply_all(from, cs), to, k) by {
        if touches(cs, k) {
            let i = choose|i: int| 0 <= i < cs.len() && change_key(#[trigger] cs[i]) == k;
            assert forall|j: int| 0 <= j < cs.len() && j != i implies change_key(#[trigger] cs[j]) != change_key(cs[i]) by {
                if j < i {
                    assert(change_key(cs[j]) != change_key(cs[i]));
                } else {
                    assert(change_key(cs[i]) != change_key(cs[j]));
                }
            }
            lemma_sole_writer(from, cs, i);
            assert(realizes(from, to, cs[i]));
        } else {
            lemma_untouched_kept(from, cs, k);
        }
    }
    assert(apply_all(from, cs) =~= to) by {
        assert forall|k: RowKey| #[trigger] apply_all(from, cs).contains_key(k) == to.contains_key(k) by {
            assert(agree_at(apply_all(from, cs), to, k));
        }
        assert forall|k: RowKey| #[trigger] apply_all(from, cs).contains_key(k) implies apply_all(from, cs)[k] == to[k] by {
            assert(agree_at(apply_all(from, cs), to, k));
        }
    }
}

/// The payload of a write that stores `v`.
pub fn encode_payload(v: &CrdtValue) -> (r: Vec<u8>)
    ensures
        r@ == crate::codec::enc_value(v@),
        payload(r@) == Some(v@),
{
    if let CrdtValue::Register(b) = v {
        // Reading the length shows that it fits the u64 prefix.
        let _n: usize = b.len();
    }
    let r = crate::codec::encode_value(v);
    proof {
        let e: Seq<u8> = Seq::empty();
        crate::codec::lemma_value_round_trip(v@, e);
        assert(r@ + e =~= r@);
    }
    r
}

/// The changes that take `from` to `to`: inserts and updates in the row
/// order of `to`, then deletes in the row order of `from`.
pub fn diff_states(from: &CrdtEngine, to: &CrdtEngine) -> (r: Vec<Change>)
    requires
        from.wf(),
        to.wf(),
    ensures
        is_diff(from@, to@, r@.map_values(|c: Change| c@)),
{
    let mut out: Vec<Change> = Vec::new();
    let ghost trs = to.rows@;
    let ghost frs = from.rows@;
    let mut i: usize = 0;
    while i < to.rows.len()
        invariant
            from.wf(),
            to.wf(),
            trs == to.rows@,
            i <= trs.len(),
            forall|m: int| 0 <= m < out@.len() ==> realizes(from@, to@, #[trigger] out@[m]@),
            forall|m: int| 0 <= m < out@.len() ==> exists|j: int| 0 <= j < i && change_key(#[trigger] out@[m]@) == rkey(trs[j]),
            keys_distinct(out@.map_values(|c: Change| c@)),
            forall|j: int| 0 <= j < i ==> agree_at(from@, to@, #[trigger] rkey(trs[j]))
                || touches(out@.map_values(|c: Change| c@), rkey(trs[j])),
        decreases trs.len() - i,
    {
        let row = &to.rows[i];
        let ghost k = rkey(trs[i as int]);
        proof { lemma_state_at(trs, i as int); }
        let ghost before = out@;
        let emitted: Option<Change> = match from.get(&row.table, &row.id) {
            None => Some(Change::Insert { table: row.table.clone(), id: row.id.clone(), value: encode_payload(&row.value) }),
            Some(fv) => if fv.same_as(&row.value) {
                None
            } else {
                Some(Change::Update { table: row.table.clone(), id: row.id.clone(), value: encode_payload(&row.value) })
            },
        };
        match emitted {
            Some(c) => {
                let ghost cv = c@;
                out.push(c);
                proof {
                    assert(out@[before.len() as int]@ == cv);
                    assert forall|m: int| 0 <= m < before.len() implies change_key(#[trigger] out@[m]@) != k by {
                        assert(out@[m] == before[m]);
                        let j = choose|j: int| 0 <= j < i && change_key(#[trigger] before[m]@) == rkey(trs[j]);
                        assert(rkey(trs[j]) != rkey(trs[i as int]));
                    }
                    let ov = out@.map_values(|c: Change| c@);
                    assert(keys_distinct(ov)) by {
                        assert forall|x: int, y: int| 0 <= x < y < ov.len() implies change_key(#[trigger] ov[x]) != change_key(#[trigger] ov[y]) by {
                            assert(ov[x] == out@[x]@);
                            assert(ov[y] == out@[y]@);
                            if y < before.len() {
                                assert(before.map_values(|c: Change| c@)[x] == ov[x]);
                                assert(before.map_values(|c: Change| c@)[y] == ov[y]);
                            }
                        }
                    }
                    assert forall|m: int| 0 <= m < out@.len() implies exists|j: int| 0 <= j < i + 1 && change_key(#[trigger] out@[m]@) == rkey(trs[j]) by {
                        if m < before.len() {
                            assert(out@[m] == before[m]);
                        } else {
                            assert(change_key(out@[m]@) == rkey(trs[i as int]));
                        }
                    }
                    assert forall|j: int| 0 <= j < i + 1 implies agree_at(from@, to@, #[trigger] rkey(trs[j]))
                        || touches(ov, rkey(trs[j])) by {
                        if j < i {
                            let bv = before.map_values(|c: Change| c@);
                            if touches(bv, rkey(trs[j])) {
                                let m = choose|m: int| 0 <= m < bv.len() && change_key(#[trigger] bv[m]) == rkey(trs[j]);
                                assert(ov[m] == bv[m]);
                            }
                        } else {
                            assert(ov[before.len() as int] == cv);
                        }
                    }
                }
            },
            None => {
                proof {
                    assert(agree_at(from@, to@, k));
                }
            },
        }
        i = i + 1;
    }
    let ghost mid = out@;
    let mut i: usize = 0;
    while i < from.rows.len()
        invariant
            from.wf(),
            to.wf(),
            trs == to.rows@,
            frs == from.rows@,
            i <= frs.len(),
            forall|m: int| 0 <= m < out@.len() ==> realizes(from@, to@, #[trigger] out@[m]@),
            forall|m: int| 0 <= m < out@.len() ==> to@.contains_key(change_key(#[trigger] out@[m]@))
                || exists|j: int| 0 <= j < i && change_key(out@[m]@) == rkey(frs[j]),
            keys_distinct(out@.map_values(|c: Change| c@)),
            forall|j: int| 0 <= j < trs.len() ==> agree_at(from@, to@, #[trigger] rkey(trs[j]))
                || touches(out@.map_values(|c: Change| c@), rkey(trs[j])),
            forall|j: int| 0 <= j < i ==> agree_at(from@, to@, #[trigger] rkey(frs[j]))
                || touches(out@.map_values(|c: Change| c@), rkey(frs[j])),
        decreases frs.len() - i,
    {
        let row = &from.rows[i];
        let ghost k = rkey(frs[i as int]);
        proof { lemma_state_at(frs, i as int); }
        let ghost before = out@;
        if to.get(&row.table, &row.id).is_none() {
            let c = Change::Delete { table: row.table.clone(), id: row.id.clone() };
            let ghost cv = c@;
            out.push(c);
            proof {
                let bv = before.map_values(|c: Change| c@);
                let ov = out@.map_values(|c: Change| c@);
                assert(ov[before.len() as int] == cv);
                assert forall|m: int| 0 <= m < before.len() implies ov[m] == bv[m] by {
                    assert(out@[m] == before[m]);
                }
                assert forall|m: int| 0 <= m < before.len() implies change_key(#[trigger] before[m]@) != k by {
                    if to@.contains_key(change_key(before[m]@)) {
                    } else {
                        let j = choose|j: int| 0 <= j < i && change_key(before[m]@) == rkey(frs[j]);
                        assert(rkey(frs[j]) != rkey(frs[i as int]));
                    }
                }
                assert(keys_distinct(ov)) by {
                    assert forall|x: int, y: int| 0 <= x < y < ov.len() implies change_key(#[trigger] ov[x]) != change_key(#[trigger] ov[y]) by {
                        if y == before.len() {
                            assert(bv[x] == before[x]@);
                        } else {
                            assert(bv[x] == ov[x]);
                            assert(bv[y] == ov[y]);
                        }
                    }
                }
                assert forall|m: int| 0 <= m < out@.len() implies realizes(from@, to@, #[trigger] out@[m]@) by {
                    if m < before.len() {
                        assert(out@[m] == before[m]);
                    }
                }
                assert forall|m: int| 0 <= m < out@.len() implies to@.contains_key(change_key(#[trigger] out@[m]@))
                    || exists|j: int| 0 <= j < i + 1 && change_key(out@[m]@) == rkey(frs[j]) by {
                    if m < before.len() {
                        assert(out@[m] == before[m]);
                    } else {
                        assert(change_key(out@[m]@) == rkey(frs[i as int]));
                    }
                }
                assert forall|q: RowKey| touches(bv, q) implies #[trigger] touches(ov, q) by {
                    let m = choose|m: int| 0 <= m < bv.len() && change_key(#[trigger] bv[m]) == q;
                    assert(ov[m] == bv[m]);
                }
                assert(touches(ov, k)) by {
                    assert(change_key(ov[before.len() as int]) == k);
                }
                assert forall|j: int| 0 <= j < trs.len() implies agree_at(from@, to@, #[trigger] rkey(trs[j]))
                    || touches(ov, rkey(trs[j])) by {
                    if touches(bv, rkey(trs[j])) {
                        assert(touches(ov, rkey(trs[j])));
                    }
                }
                assert forall|j: int| 0 <= j < i + 1 implies agree_at(from@, to@, #[trigger] rkey(frs[j]))
                    || touches(ov, rkey(frs[j])) by {
                    if j < i && touches(bv, rkey(frs[j])) {
                        assert(touches(ov, rkey(frs[j])));
                    }
                }
            }
        } else {
            proof {
                assert(to@.contains_key(k));
                assert(agree_at(from@, to@, k) || touches(out@.map_values(|c: Change| c@), k)) by {
                    let j = row_index(trs, k);
                    assert(has_row(trs, k));
                    assert(rkey(trs[j]) == k);
                }
            }
        }
        i = i + 1;
    }
    proof {
        let ov = out@.map_values(|c: Change| c@);
        assert forall|m: int| 0 <= m < ov.len() implies realizes(from@, to@, #[trigger] ov[m]) by {
            assert(ov[m] == out@[m]@);
        }
        assert forall|k: RowKey| !agree_at(from@, to@, k) implies #[trigger] touches(ov, k) by {
            if to@.contains_key(k) {
                let j = row_index(trs, k);
                assert(rkey(trs[j]) == k);
            } else {
                let j = row_index(frs, k);
                assert(rkey(frs[j]) == k);
            }
        }
    }
    out
}

/// Copies `v`, or merges it into `cur`: counters to the larger count,
/// registers to the greater payload. Values of different kinds give `None`.
fn merge_values(cur: &CrdtValue, v: &CrdtValue) -> (r: Option<CrdtValue>)
    ensures
        r is Some <==> same_kind(cur@, v@),
        r matches Some(m) ==> m@ == merge_value(cur@, v@),
{
    match (cur, v) {
        (CrdtValue::Counter(a), CrdtValue::Counter(b)) => Some(CrdtValue::Counter(if *a >= *b { *a } else { *b })),
        (CrdtValue::Register(a), CrdtValue::Register(b)) => {
            if bytes_lt(a.as_slice(), b.as_slice()) {
                Some(CrdtValue::Register(vstd::slice::slice_to_vec(b.as_slice())))
            } else {
                Some(CrdtValue::Register(vstd::slice::slice_to_vec(a.as_slice())))
            }
        },
        _ => None,
    }
}

} // verus!
