//! The commit store: content-addressed commits, HEAD, per-table content
//! hashes, ancestry, materialized views, diff and revert.
use vstd::prelude::*;
use vstd::utf8::*;
use vstd::slice::{slice_subrange, slice_to_vec};
use crate::codec::{dec_list, decode_value, enc_value, commit_wf, lemma_commit_round_trip, dec_commit, dec_exact, decode_commit, enc_commit, encode_commit, tree_sorted};
use crate::crdt::{encode_payload, keys_unique, lemma_state_at, rkey, rows_state, all_replayable, apply_all, conflicts, diff_states, is_diff, merge_spec, CrdtEngine, EngineState};
use crate::merge::merge_states;
use crate::branch::{blank, branch_key, branch_key_bytes, is_blank};
use crate::digest::{hex_lower, hash_to_hex, is_hex_text, hex_bytes, parse_hash};
use vstd::string::StringExecFns;
use crate::digest::{blake3_of, digest, Digest};
use crate::error::{BranchDBError, ErrorKind};
use crate::kv::{kv_get, rows_with_prefix, KvStore};
use crate::models::{Change, ChangeV, Commit, CommitV};
use crate::order::{has_prefix, bytes_eq, bytes_lt, extend_bytes, lex_lt, lemma_lex_total};

verus! {

broadcast use vstd::utf8::encode_utf8_decode_utf8;

/// The key of the current-commit ref.
pub open spec fn head_key() -> Seq<u8> {
    seq![72u8, 69u8, 65u8, 68u8]
}

/// The key prefix of a table's rows: its name and a colon.
pub open spec fn table_prefix(t: Seq<char>) -> Seq<u8> {
    encode_utf8(t) + seq![58u8]
}

/// The key of a table row.
pub open spec fn row_key(t: Seq<char>, id: Seq<char>) -> Seq<u8> {
    table_prefix(t) + encode_utf8(id)
}

/// Keys and values of `rows`, one after another.
pub open spec fn concat_rows(rows: Seq<(Seq<u8>, Seq<u8>)>) -> Seq<u8>
    decreases rows.len(),
{
    if rows.len() == 0 {
        Seq::empty()
    } else {
        concat_rows(rows.drop_last()) + rows.last().0 + rows.last().1
    }
}

/// What a commit's tree is computed from: the store, the commit's parents
/// and its changes.
pub type TreeCtx = (Seq<(Seq<u8>, Seq<u8>)>, Seq<Seq<u8>>, Seq<ChangeV>);

/// The state of table `t` at a commit with these parents and changes: the
/// table materialized at the first parent (empty without one), with the
/// commit's changes to `t` replayed on top.
pub open spec fn next_state(ctx: TreeCtx, t: Seq<char>) -> Result<EngineState, ErrorKind> {
    let (kv, parents, cs) = ctx;
    let base = if parents.len() == 0 { Ok(Map::empty()) } else { materialized(kv, t, parents[0]) };
    match base {
        Err(e) => Err(e),
        Ok(s) => {
            let f = changes_for_table(cs, t);
            if all_replayable(f) { Ok(apply_all(s, f)) } else { Err(ErrorKind::Serialization) }
        },
    }
}

/// `e` is the rows of `st` as stored entries: sorted by key, each row under
/// its `<table>:<id>` key with its encoded value, and no other key.
pub open spec fn image_of(st: EngineState, e: Seq<(Seq<u8>, Seq<u8>)>) -> bool {
    &&& crate::kv::sorted_keys(e)
    &&& forall|k: Seq<u8>| #[trigger] kv_get(e, k) == if row_image(st, k) {
        kv_get(e, k)
    } else {
        None
    } && (row_image(st, k) ==> exists|rk: (Seq<char>, Seq<char>)| st.contains_key(rk) && #[trigger] row_key(rk.0, rk.1) == k
        && kv_get(e, k) == Some(enc_value(st[rk])))
}

/// `h` is the content hash of table `t` at the commit: the digest of the
/// keys and values of its rows, in key order.
pub open spec fn content_hash_ok(ctx: TreeCtx, t: Seq<char>, h: Seq<u8>) -> bool {
    exists|st: EngineState, e: Seq<(Seq<u8>, Seq<u8>)>| next_state(ctx, t) == Ok::<EngineState, ErrorKind>(st)
        && #[trigger] image_of(st, e) && h == blake3_of(concat_rows(e))
}

/// Every table that `cs` writes to has a state at the commit.
pub open spec fn tree_ready(ctx: TreeCtx) -> bool {
    forall|j: int| 0 <= j < ctx.2.len() ==> next_state(ctx, (#[trigger] ctx.2[j]).table()) is Ok
}

/// The tables that `cs` writes to.
pub open spec fn tables_of(cs: Seq<ChangeV>) -> Set<Seq<char>> {
    Set::new(|t: Seq<char>| exists|j: int| 0 <= j < cs.len() && (#[trigger] cs[j]).table() == t)
}

/// The table names of a tree.
pub open spec fn tree_names(tree: Seq<(Seq<char>, Seq<u8>)>) -> Set<Seq<char>> {
    Set::new(|t: Seq<char>| exists|i: int| 0 <= i < tree.len() && (#[trigger] tree[i]).0 == t)
}

/// Each entry of `tree` holds its table's content hash at the commit.
pub open spec fn tree_hashes_current(ctx: TreeCtx, tree: Seq<(Seq<char>, Seq<u8>)>) -> bool {
    forall|i: int| 0 <= i < tree.len() ==> content_hash_ok(ctx, (#[trigger] tree[i]).0, tree[i].1)
}

/// `tree` names exactly the tables that `cs` writes to, sorted, each with
/// its content hash at the commit.
#[verifier::opaque]
pub open spec fn tree_matches(ctx: TreeCtx, cs: Seq<ChangeV>, tree: Seq<(Seq<char>, Seq<u8>)>) -> bool {
    &&& tree_sorted(tree)
    &&& tree_hashes_current(ctx, tree)
    &&& tree_names(tree) == tables_of(cs)
}

/// What HEAD holds: nothing, or a 32-byte hash; anything else is corrupt.
pub open spec fn read_head(kv: Seq<(Seq<u8>, Seq<u8>)>) -> Result<Option<Seq<u8>>, ErrorKind> {
    match kv_get(kv, head_key()) {
        None => Ok(None),
        Some(v) => if v.len() == 32 { Ok(Some(v)) } else { Err(ErrorKind::Corrupt) },
    }
}

/// The parents of a commit recorded on top of HEAD: HEAD's hash, or none.
pub open spec fn head_parents(kv: Seq<(Seq<u8>, Seq<u8>)>) -> Seq<Seq<u8>> {
    match read_head(kv) {
        Ok(Some(p)) => seq![p],
        _ => Seq::empty(),
    }
}

/// The commit stored under `h`: its encoding followed by the digest of that
/// encoding.
pub open spec fn load_commit(kv: Seq<(Seq<u8>, Seq<u8>)>, h: Seq<u8>) -> Result<CommitV, ErrorKind> {
    match kv_get(kv, h) {
        None => Err(ErrorKind::Missing),
        Some(raw) => if raw.len() < 32 {
            Err(ErrorKind::Corrupt)
        } else {
            let body = raw.take(raw.len() - 32);
            if blake3_of(body) != raw.skip(raw.len() - 32) {
                Err(ErrorKind::Corrupt)
            } else {
                match dec_exact(body, dec_commit(body)) {
                    Some(c) => Ok(c),
                    None => Err(ErrorKind::Serialization),
                }
            }
        },
    }
}

/// `new` is `old` with commit `c` stored under hash `h` and HEAD moved to it.
pub open spec fn commit_recorded(old: Seq<(Seq<u8>, Seq<u8>)>, new: Seq<(Seq<u8>, Seq<u8>)>, c: CommitV, h: Seq<u8>) -> bool {
    &&& h == blake3_of(enc_commit(c))
    &&& h.len() == 32
    &&& kv_get(new, h) == Some(enc_commit(c) + h)
    &&& kv_get(new, head_key()) == Some(h)
    &&& forall|k: Seq<u8>| k != h && k != head_key() ==> #[trigger] kv_get(new, k) == kv_get(old, k)
}

/// `new` is `old` with a commit of these fields recorded under `h` and HEAD
/// moved to it; its tree names the tables that `cs` writes to, each with its
/// content hash at the commit as materialized from `base`.
pub open spec fn commit_made(
    base: Seq<(Seq<u8>, Seq<u8>)>,
    old: Seq<(Seq<u8>, Seq<u8>)>,
    new: Seq<(Seq<u8>, Seq<u8>)>,
    parents: Seq<Seq<u8>>,
    message: Seq<char>,
    timestamp: u64,
    cs: Seq<ChangeV>,
    h: Seq<u8>,
) -> bool {
    exists|c: CommitV| {
        &&& c.parents == parents
        &&& c.message == message
        &&& c.timestamp == timestamp
        &&& c.changes == cs
        &&& tree_matches((base, parents, cs), cs, c.tree)
        &&& commit_wf(c)
        &&& #[trigger] commit_recorded(old, new, c, h)
    }
}

/// `stored` is the record of a commit of these fields, hashed to `h`, whose
/// tree is computed from `base`.
#[verifier::opaque]
pub open spec fn commit_prepared(
    base: Seq<(Seq<u8>, Seq<u8>)>,
    parents: Seq<Seq<u8>>,
    message: Seq<char>,
    timestamp: u64,
    cs: Seq<ChangeV>,
    h: Seq<u8>,
    stored: Seq<u8>,
) -> bool {
    exists|c: CommitV| {
        &&& c.parents == parents
        &&& c.message == message
        &&& c.timestamp == timestamp
        &&& c.changes == cs
        &&& tree_matches((base, parents, cs), cs, c.tree)
        &&& commit_wf(c)
        &&& h == blake3_of(enc_commit(c))
        &&& h.len() == 32
        &&& #[trigger] enc_commit(c) + h == stored
    }
}

proof fn lemma_prepared_recorded(
    base: Seq<(Seq<u8>, Seq<u8>)>,
    old: Seq<(Seq<u8>, Seq<u8>)>,
    new: Seq<(Seq<u8>, Seq<u8>)>,
    parents: Seq<Seq<u8>>,
    message: Seq<char>,
    timestamp: u64,
    cs: Seq<ChangeV>,
    h: Seq<u8>,
    stored: Seq<u8>,
)
    requires
        commit_prepared(base, parents, message, timestamp, cs, h, stored),
        forall|k: Seq<u8>| #[trigger] kv_get(new, k) == if k == head_key() {
            Some(h)
        } else if k == h {
            Some(stored)
        } else {
            kv_get(old, k)
        },
    ensures
        commit_made(base, old, new, parents, message, timestamp, cs, h),
{
    reveal(commit_prepared);
    let c = choose|c: CommitV| {
        &&& c.parents == parents
        &&& c.message == message
        &&& c.timestamp == timestamp
        &&& c.changes == cs
        &&& tree_matches((base, parents, cs), cs, c.tree)
        &&& commit_wf(c)
        &&& h == blake3_of(enc_commit(c))
        &&& h.len() == 32
        &&& #[trigger] enc_commit(c) + h == stored
    };
    assert(h != head_key());
    assert(commit_recorded(old, new, c, h));
}

/// The commits from `h` back along first parents, newest first; a chain
/// longer than `fuel` steps is reported as corrupt.
pub open spec fn chain(kv: Seq<(Seq<u8>, Seq<u8>)>, h: Seq<u8>, fuel: nat) -> Result<Seq<CommitV>, ErrorKind>
    decreases fuel,
{
    match load_commit(kv, h) {
        Err(e) => Err(e),
        Ok(c) => if c.parents.len() == 0 {
            Ok(seq![c])
        } else if fuel == 0 {
            Err(ErrorKind::Corrupt)
        } else {
            match chain(kv, c.parents[0], (fuel - 1) as nat) {
                Ok(rest) => Ok(seq![c] + rest),
                Err(e) => Err(e),
            }
        },
    }
}

/// The first-parent ancestry of `h`, newest first. A chain cannot visit more
/// commits than the store holds entries without repeating one.
pub open spec fn ancestry(kv: Seq<(Seq<u8>, Seq<u8>)>, h: Seq<u8>) -> Result<Seq<CommitV>, ErrorKind> {
    chain(kv, h, kv.len())
}

pub open spec fn prepend(xs: Seq<CommitV>, r: Result<Seq<CommitV>, ErrorKind>) -> Result<Seq<CommitV>, ErrorKind> {
    match r {
        Ok(rest) => Ok(xs + rest),
        Err(e) => Err(e),
    }
}

/// The changes of a newest-first chain in replay order: oldest commit
/// first, each commit's changes in stored order.
pub open spec fn history_changes(cs: Seq<CommitV>) -> Seq<ChangeV>
    decreases cs.len(),
{
    if cs.len() == 0 {
        Seq::empty()
    } else {
        history_changes(cs.drop_first()) + cs[0].changes
    }
}

/// The changes of `cs` that write to table `t`, in order.
pub open spec fn changes_for_table(cs: Seq<ChangeV>, t: Seq<char>) -> Seq<ChangeV>
    decreases cs.len(),
{
    if cs.len() == 0 {
        Seq::empty()
    } else {
        let r = changes_for_table(cs.drop_last(), t);
        if cs.last().table() == t { r.push(cs.last()) } else { r }
    }
}

/// The state of table `t` at commit `h`: its changes along the ancestry,
/// replayed oldest first into an empty engine.
pub open spec fn materialized(kv: Seq<(Seq<u8>, Seq<u8>)>, t: Seq<char>, h: Seq<u8>) -> Result<EngineState, ErrorKind> {
    match ancestry(kv, h) {
        Err(e) => Err(e),
        Ok(chain) => {
            let cs = changes_for_table(history_changes(chain), t);
            if all_replayable(cs) {
                Ok(apply_all(Map::empty(), cs))
            } else {
                Err(ErrorKind::Serialization)
            }
        },
    }
}

pub open spec fn commits_view(v: Seq<Commit>) -> Seq<CommitV> {
    v.map_values(|c: Commit| c@)
}

proof fn lemma_changes_for_table_concat(a: Seq<ChangeV>, b: Seq<ChangeV>, t: Seq<char>)
    ensures
        changes_for_table(a + b, t) == changes_for_table(a, t) + changes_for_table(b, t),
    decreases b.len(),
{
    if b.len() == 0 {
        assert(a + b =~= a);
    } else {
        assert((a + b).drop_last() =~= a + b.drop_last());
        lemma_changes_for_table_concat(a, b.drop_last(), t);
    }
}

/// A commit written on top of a stored commit `p` has its parent stored:
/// the parent resolves after the write as it did before.
pub proof fn lemma_parent_resolves(
    base: Seq<(Seq<u8>, Seq<u8>)>,
    old: Seq<(Seq<u8>, Seq<u8>)>,
    new: Seq<(Seq<u8>, Seq<u8>)>,
    parents: Seq<Seq<u8>>,
    message: Seq<char>,
    timestamp: u64,
    cs: Seq<ChangeV>,
    h: Seq<u8>,
    p: Seq<u8>,
)
    requires
        commit_made(base, old, new, parents, message, timestamp, cs, h),
        parents.contains(p),
        load_commit(old, p) is Ok,
    ensures
        load_commit(new, p) is Ok,
{
    let c = choose|c: CommitV| {
        &&& c.parents == parents
        &&& c.message == message
        &&& c.timestamp == timestamp
        &&& c.changes == cs
        &&& tree_matches((base, parents, cs), cs, c.tree)
        &&& commit_wf(c)
        &&& #[trigger] commit_recorded(old, new, c, h)
    };
    let i = choose|i: int| 0 <= i < parents.len() && parents[i] == p;
    assert(c.parents[i].len() == 32);
    assert(p != head_key());
    if p == h {
        let raw = enc_commit(c) + h;
        assert(raw.take(raw.len() - 32) =~= enc_commit(c));
        assert(raw.skip(raw.len() - 32) =~= h);
        let e: Seq<u8> = Seq::empty();
        lemma_commit_round_trip(c, e);
        assert(enc_commit(c) + e =~= enc_commit(c));
    } else {
        assert(kv_get(new, p) == kv_get(old, p));
    }
}

/// `load_commit`, kept folded in proofs about whole stores.
#[verifier::opaque]
pub open spec fn loaded(kv: Seq<(Seq<u8>, Seq<u8>)>, h: Seq<u8>) -> Result<CommitV, ErrorKind> {
    load_commit(kv, h)
}

/// Every commit stored in `kv` has all its parents stored under 32-byte
/// hashes.
pub open spec fn parents_stored(kv: Seq<(Seq<u8>, Seq<u8>)>) -> bool {
    forall|h: Seq<u8>, i: int| loaded(kv, h) is Ok && 0 <= i < loaded(kv, h)->Ok_0.parents.len()
        ==> loaded(kv, #[trigger] loaded(kv, h)->Ok_0.parents[i]) is Ok
            && loaded(kv, h)->Ok_0.parents[i].len() == 32
}

/// The commit just recorded loads from the new store.
proof fn lemma_new_commit_loads(
    old: Seq<(Seq<u8>, Seq<u8>)>,
    new: Seq<(Seq<u8>, Seq<u8>)>,
    c: CommitV,
    h: Seq<u8>,
)
    requires
        commit_wf(c),
        commit_recorded(old, new, c, h),
    ensures
        load_commit(new, h) == Ok::<CommitV, ErrorKind>(c),
{
    let raw = enc_commit(c) + h;
    assert(raw.take(raw.len() - 32) =~= enc_commit(c));
    assert(raw.skip(raw.len() - 32) =~= h);
    let e: Seq<u8> = Seq::empty();
    lemma_commit_round_trip(c, e);
    assert(enc_commit(c) + e =~= enc_commit(c));
}

proof fn lemma_load_same(a: Seq<(Seq<u8>, Seq<u8>)>, b: Seq<(Seq<u8>, Seq<u8>)>, h: Seq<u8>)
    requires
        kv_get(a, h) == kv_get(b, h),
    ensures
        loaded(a, h) == loaded(b, h),
{
    reveal(loaded);
}

proof fn lemma_short_record_is_no_commit(kv: Seq<(Seq<u8>, Seq<u8>)>, h: Seq<u8>)
    requires
        kv_get(kv, h) matches Some(raw) && raw.len() == 32,
    ensures
        loaded(kv, h) is Err,
{
    reveal(loaded);
    let raw = kv_get(kv, h)->0;
    assert(raw.take(raw.len() - 32) =~= Seq::<u8>::empty());
}

proof fn lemma_new_commit_parents(
    base: Seq<(Seq<u8>, Seq<u8>)>,
    old: Seq<(Seq<u8>, Seq<u8>)>,
    new: Seq<(Seq<u8>, Seq<u8>)>,
    parents: Seq<Seq<u8>>,
    message: Seq<char>,
    timestamp: u64,
    cs: Seq<ChangeV>,
    h: Seq<u8>,
    c: CommitV,
)
    requires
        c.parents == parents,
        c.message == message,
        c.timestamp == timestamp,
        c.changes == cs,
        tree_matches((base, parents, cs), cs, c.tree),
        commit_wf(c),
        commit_recorded(old, new, c, h),
        forall|i: int| 0 <= i < parents.len() ==> load_commit(old, #[trigger] parents[i]) is Ok,
    ensures
        loaded(new, h) == Ok::<CommitV, ErrorKind>(c),
        forall|i: int| 0 <= i < parents.len() ==> loaded(new, #[trigger] parents[i]) is Ok && parents[i].len() == 32,
{
    reveal(loaded);
    lemma_new_commit_loads(old, new, c, h);
    assert forall|i: int| 0 <= i < parents.len() implies loaded(new, #[trigger] parents[i]) is Ok && parents[i].len() == 32 by {
        assert(parents.contains(parents[i]));
        lemma_parent_resolves(base, old, new, parents, message, timestamp, cs, h, parents[i]);
    }
}

/// Recording a commit whose parents are all stored keeps every stored
/// commit's parents stored.
pub proof fn lemma_parents_stay_stored(
    base: Seq<(Seq<u8>, Seq<u8>)>,
    old: Seq<(Seq<u8>, Seq<u8>)>,
    new: Seq<(Seq<u8>, Seq<u8>)>,
    parents: Seq<Seq<u8>>,
    message: Seq<char>,
    timestamp: u64,
    cs: Seq<ChangeV>,
    h: Seq<u8>,
)
    requires
        parents_stored(old),
        commit_made(base, old, new, parents, message, timestamp, cs, h),
        forall|i: int| 0 <= i < parents.len() ==> load_commit(old, #[trigger] parents[i]) is Ok,
    ensures
        parents_stored(new),
{
    let c = choose|c: CommitV| {
        &&& c.parents == parents
        &&& c.message == message
        &&& c.timestamp == timestamp
        &&& c.changes == cs
        &&& tree_matches((base, parents, cs), cs, c.tree)
        &&& commit_wf(c)
        &&& #[trigger] commit_recorded(old, new, c, h)
    };
    lemma_new_commit_parents(base, old, new, parents, message, timestamp, cs, h, c);
    lemma_short_record_is_no_commit(new, head_key());
    assert forall|h2: Seq<u8>, i: int| loaded(new, h2) is Ok && 0 <= i < loaded(new, h2)->Ok_0.parents.len()
        implies loaded(new, #[trigger] loaded(new, h2)->Ok_0.parents[i]) is Ok
            && loaded(new, h2)->Ok_0.parents[i].len() == 32 by {
        if h2 != h {
            lemma_load_same(new, old, h2);
            let p = loaded(old, h2)->Ok_0.parents[i];
            assert(loaded(old, p) is Ok && p.len() == 32);
            if p != h {
                assert(p != head_key());
                lemma_load_same(new, old, p);
            }
        }
    }
}

/// Every ref names a stored commit: HEAD, when present, holds a 32-byte
/// hash of one, each branch holds the hash of one, and every stored commit
/// has its parents stored.
pub open spec fn refs_resolve(kv: Seq<(Seq<u8>, Seq<u8>)>) -> bool {
    &&& parents_stored(kv)
    &&& kv_get(kv, head_key()) is Some ==> kv_get(kv, head_key())->0.len() == 32
        && loaded(kv, kv_get(kv, head_key())->0) is Ok
    &&& forall|n: Seq<char>| #[trigger] kv_get(kv, crate::branch::branch_key(n)) is Some
        ==> loaded(kv, kv_get(kv, crate::branch::branch_key(n))->0) is Ok
}

/// Recording a commit on stored parents keeps every ref resolving, as long
/// as the new commit's hash is no branch key.
#[verifier::rlimit(40)]
pub proof fn lemma_commit_keeps_refs(
    base: Seq<(Seq<u8>, Seq<u8>)>,
    old: Seq<(Seq<u8>, Seq<u8>)>,
    new: Seq<(Seq<u8>, Seq<u8>)>,
    parents: Seq<Seq<u8>>,
    message: Seq<char>,
    timestamp: u64,
    cs: Seq<ChangeV>,
    h: Seq<u8>,
)
    requires
        refs_resolve(old),
        commit_made(base, old, new, parents, message, timestamp, cs, h),
        forall|i: int| 0 <= i < parents.len() ==> load_commit(old, #[trigger] parents[i]) is Ok,
        forall|n: Seq<char>| crate::branch::branch_key(n) != h,
    ensures
        refs_resolve(new),
{
    lemma_parents_stay_stored(base, old, new, parents, message, timestamp, cs, h);
    let c = choose|c: CommitV| {
        &&& c.parents == parents
        &&& c.message == message
        &&& c.timestamp == timestamp
        &&& c.changes == cs
        &&& tree_matches((base, parents, cs), cs, c.tree)
        &&& commit_wf(c)
        &&& #[trigger] commit_recorded(old, new, c, h)
    };
    lemma_new_commit_parents(base, old, new, parents, message, timestamp, cs, h, c);
    if kv_get(old, head_key()) is Some {
        lemma_short_record_is_no_commit(old, head_key());
    } else {
        assert(loaded(old, head_key()) is Err) by { reveal(loaded); }
    }
    assert forall|n: Seq<char>| #[trigger] kv_get(new, crate::branch::branch_key(n)) is Some
        implies loaded(new, kv_get(new, crate::branch::branch_key(n))->0) is Ok by {
        let bk = crate::branch::branch_key(n);
        assert(bk[0] == 98u8);
        assert(bk != head_key());
        assert(kv_get(new, bk) == kv_get(old, bk));
        let v = kv_get(old, bk)->0;
        assert(loaded(old, v) is Ok);
        if v != h {
            assert(v != head_key());
            lemma_load_same(new, old, v);
        }
    }
}

/// Creating a branch at HEAD keeps every ref resolving.
pub proof fn lemma_branch_keeps_refs(old: Seq<(Seq<u8>, Seq<u8>)>, new: Seq<(Seq<u8>, Seq<u8>)>, n: Seq<char>)
    requires
        refs_resolve(old),
        kv_get(old, crate::branch::branch_key(n)) is None,
        kv_get(old, head_key()) is Some,
        forall|k: Seq<u8>| #[trigger] kv_get(new, k) == if k == crate::branch::branch_key(n) {
            kv_get(old, head_key())
        } else {
            kv_get(old, k)
        },
    ensures
        refs_resolve(new),
{
    let bk = crate::branch::branch_key(n);
    let hv = kv_get(old, head_key())->0;
    assert(bk[0] == 98u8);
    assert(bk != head_key());
    assert(loaded(old, bk) is Err) by { reveal(loaded); }
    assert(hv != bk);
    lemma_load_same(new, old, hv);
    assert forall|h2: Seq<u8>, i: int| loaded(new, h2) is Ok && 0 <= i < loaded(new, h2)->Ok_0.parents.len()
        implies loaded(new, #[trigger] loaded(new, h2)->Ok_0.parents[i]) is Ok
            && loaded(new, h2)->Ok_0.parents[i].len() == 32 by {
        if h2 == bk {
            lemma_short_record_is_no_commit(new, bk);
        } else {
            lemma_load_same(new, old, h2);
            let p = loaded(old, h2)->Ok_0.parents[i];
            assert(loaded(old, p) is Ok);
            assert(p != bk);
            lemma_load_same(new, old, p);
        }
    }
    assert forall|m: Seq<char>| #[trigger] kv_get(new, crate::branch::branch_key(m)) is Some
        implies loaded(new, kv_get(new, crate::branch::branch_key(m))->0) is Ok by {
        let bm = crate::branch::branch_key(m);
        if bm != bk {
            let v = kv_get(old, bm)->0;
            assert(loaded(old, v) is Ok);
            assert(v != bk);
            lemma_load_same(new, old, v);
        }
    }
}

/// Every row of `s` belongs to table `t`.
pub open spec fn table_only(s: EngineState, t: Seq<char>) -> bool {
    forall|rk: (Seq<char>, Seq<char>)| #[trigger] s.contains_key(rk) ==> rk.0 == t
}

proof fn lemma_filtered_tables(cs: Seq<ChangeV>, t: Seq<char>)
    ensures
        forall|i: int| 0 <= i < changes_for_table(cs, t).len() ==> (#[trigger] changes_for_table(cs, t)[i]).table() == t,
    decreases cs.len(),
{
    if cs.len() > 0 {
        lemma_filtered_tables(cs.drop_last(), t);
        let r = changes_for_table(cs.drop_last(), t);
        if cs.last().table() == t {
            assert forall|i: int| 0 <= i < r.push(cs.last()).len() implies (#[trigger] r.push(cs.last())[i]).table() == t by {
                if i < r.len() {
                    assert(r.push(cs.last())[i] == r[i]);
                }
            }
        }
    }
}

proof fn lemma_apply_keeps_table(s: EngineState, f: Seq<ChangeV>, t: Seq<char>)
    requires
        table_only(s, t),
        forall|i: int| 0 <= i < f.len() ==> (#[trigger] f[i]).table() == t,
    ensures
        table_only(apply_all(s, f), t),
    decreases f.len(),
{
    if f.len() > 0 {
        assert forall|i: int| 0 <= i < f.drop_last().len() implies (#[trigger] f.drop_last()[i]).table() == t by {
            assert(f.drop_last()[i] == f[i]);
        }
        lemma_apply_keeps_table(s, f.drop_last(), t);
        assert(f.last() == f[f.len() - 1]);
    }
}

/// A table's state at a commit holds rows of that table only.
proof fn lemma_next_state_table_only(ctx: TreeCtx, t: Seq<char>)
    requires
        next_state(ctx, t) is Ok,
    ensures
        table_only(next_state(ctx, t)->Ok_0, t),
{
    let (kv, parents, cs) = ctx;
    assert(table_only(Map::empty(), t));
    lemma_filtered_tables(cs, t);
    if parents.len() > 0 {
        let chain = ancestry(kv, parents[0])->Ok_0;
        lemma_filtered_tables(history_changes(chain), t);
        lemma_apply_keeps_table(Map::empty(), changes_for_table(history_changes(chain), t), t);
        lemma_apply_keeps_table(materialized(kv, t, parents[0])->Ok_0, changes_for_table(cs, t), t);
    } else {
        lemma_apply_keeps_table(Map::empty(), changes_for_table(cs, t), t);
    }
}

proof fn lemma_row_key_injective(t: Seq<char>, a: Seq<char>, b: Seq<char>)
    requires
        row_key(t, a) == row_key(t, b),
    ensures
        a == b,
{
    let p = table_prefix(t);
    assert(row_key(t, a).skip(p.len() as int) =~= encode_utf8(a));
    assert(row_key(t, b).skip(p.len() as int) =~= encode_utf8(b));
    assert(decode_utf8(encode_utf8(a)) == decode_utf8(encode_utf8(b)));
}

/// The stored image of a one-table state is unique.
proof fn lemma_image_unique(st: EngineState, t: Seq<char>, e1: Seq<(Seq<u8>, Seq<u8>)>, e2: Seq<(Seq<u8>, Seq<u8>)>)
    requires
        table_only(st, t),
        image_of(st, e1),
        image_of(st, e2),
    ensures
        e1 == e2,
{
    assert forall|k: Seq<u8>| #[trigger] kv_get(e1, k) == kv_get(e2, k) by {
        if row_image(st, k) {
            let r1 = choose|rk: (Seq<char>, Seq<char>)| st.contains_key(rk) && #[trigger] row_key(rk.0, rk.1) == k
                && kv_get(e1, k) == Some(enc_value(st[rk]));
            let r2 = choose|rk: (Seq<char>, Seq<char>)| st.contains_key(rk) && #[trigger] row_key(rk.0, rk.1) == k
                && kv_get(e2, k) == Some(enc_value(st[rk]));
            assert(r1.0 == t && r2.0 == t);
            lemma_row_key_injective(t, r1.1, r2.1);
            assert(r1 == r2);
        }
    }
    crate::kv::lemma_sorted_unique(e1, e2);
}

/// A table's content hash at a commit is determined by the commit's
/// parents and changes and the store it is computed from.
pub proof fn lemma_content_hash_unique(ctx: TreeCtx, ctx2: TreeCtx, t: Seq<char>, h1: Seq<u8>, h2: Seq<u8>)
    requires
        next_state(ctx, t) == next_state(ctx2, t),
        content_hash_ok(ctx, t, h1),
        content_hash_ok(ctx2, t, h2),
    ensures
        h1 == h2,
{
    let (s1, e1) = choose|st: EngineState, e: Seq<(Seq<u8>, Seq<u8>)>| next_state(ctx, t) == Ok::<EngineState, ErrorKind>(st)
        && #[trigger] image_of(st, e) && h1 == blake3_of(concat_rows(e));
    let (s2, e2) = choose|st: EngineState, e: Seq<(Seq<u8>, Seq<u8>)>| next_state(ctx2, t) == Ok::<EngineState, ErrorKind>(st)
        && #[trigger] image_of(st, e) && h2 == blake3_of(concat_rows(e));
    lemma_next_state_table_only(ctx, t);
    lemma_image_unique(s1, t, e1, e2);
}

/// A tree read as a store: names in their byte form, with their hashes.
pub open spec fn tree_kv(t: Seq<(Seq<char>, Seq<u8>)>) -> Seq<(Seq<u8>, Seq<u8>)> {
    t.map_values(|e: (Seq<char>, Seq<u8>)| (encode_utf8(e.0), e.1))
}

proof fn lemma_tree_pairwise(t: Seq<(Seq<char>, Seq<u8>)>, i: int, j: int)
    requires
        tree_sorted(t),
        0 <= i < j < t.len(),
    ensures
        lex_lt(encode_utf8(t[i].0), encode_utf8(t[j].0)),
    decreases j - i,
{
    if j > i + 1 {
        lemma_tree_pairwise(t, i, j - 1);
        assert(lex_lt(encode_utf8(t[j - 1].0), encode_utf8(t[j].0)));
        crate::order::lemma_lex_transitive(encode_utf8(t[i].0), encode_utf8(t[j - 1].0), encode_utf8(t[j].0));
    }
}

/// Two trees that name the same tables, sorted, with the content hashes
/// of the same table states, are equal.
pub proof fn lemma_tree_unique(ctx1: TreeCtx, ctx2: TreeCtx, cs: Seq<ChangeV>, t1: Seq<(Seq<char>, Seq<u8>)>, t2: Seq<(Seq<char>, Seq<u8>)>)
    requires
        tree_matches(ctx1, cs, t1),
        tree_matches(ctx2, cs, t2),
        forall|n: Seq<char>| #[trigger] next_state(ctx1, n) == next_state(ctx2, n),
    ensures
        t1 == t2,
{
    reveal(tree_matches);
    let k1 = tree_kv(t1);
    let k2 = tree_kv(t2);
    assert forall|i: int, j: int| 0 <= i < j < k1.len() implies lex_lt(#[trigger] k1[i].0, #[trigger] k1[j].0) by {
        lemma_tree_pairwise(t1, i, j);
    }
    assert forall|i: int, j: int| 0 <= i < j < k2.len() implies lex_lt(#[trigger] k2[i].0, #[trigger] k2[j].0) by {
        lemma_tree_pairwise(t2, i, j);
    }
    assert forall|k: Seq<u8>| #[trigger] kv_get(k1, k) == kv_get(k2, k) by {
        if crate::kv::has_key(k1, k) {
            let i = crate::kv::key_index(k1, k);
            let n = t1[i].0;
            assert(tree_names(t1).contains(n));
            let j = choose|j: int| 0 <= j < t2.len() && (#[trigger] t2[j]).0 == n;
            crate::kv::lemma_kv_get_at(k1, i);
            crate::kv::lemma_kv_get_at(k2, j);
            assert(content_hash_ok(ctx1, t1[i].0, t1[i].1));
            assert(content_hash_ok(ctx2, t2[j].0, t2[j].1));
            lemma_content_hash_unique(ctx1, ctx2, n, t1[i].1, t2[j].1);
        } else if crate::kv::has_key(k2, k) {
            let j = crate::kv::key_index(k2, k);
            let n = t2[j].0;
            assert(tree_names(t2).contains(n));
            let i = choose|i: int| 0 <= i < t1.len() && (#[trigger] t1[i]).0 == n;
            assert(k1[i].0 == k);
        }
    }
    crate::kv::lemma_sorted_unique(k1, k2);
    assert forall|i: int| 0 <= i < t1.len() implies t1[i] == t2[i] by {
        assert(k1[i] == k2[i]);
        assert(decode_utf8(encode_utf8(t1[i].0)) == decode_utf8(encode_utf8(t2[i].0)));
    }
    assert(t1 =~= t2);
}

/// Commit determinism: two commits recorded with the same parents, message,
/// timestamp and changes, over stores in which every table has the same
/// state at the commit, get the same hash and the same stored bytes.
pub proof fn lemma_commits_agree(
    b1: Seq<(Seq<u8>, Seq<u8>)>,
    o1: Seq<(Seq<u8>, Seq<u8>)>,
    n1: Seq<(Seq<u8>, Seq<u8>)>,
    b2: Seq<(Seq<u8>, Seq<u8>)>,
    o2: Seq<(Seq<u8>, Seq<u8>)>,
    n2: Seq<(Seq<u8>, Seq<u8>)>,
    parents: Seq<Seq<u8>>,
    message: Seq<char>,
    timestamp: u64,
    cs: Seq<ChangeV>,
    h1: Seq<u8>,
    h2: Seq<u8>,
)
    requires
        commit_made(b1, o1, n1, parents, message, timestamp, cs, h1),
        commit_made(b2, o2, n2, parents, message, timestamp, cs, h2),
        forall|n: Seq<char>| #[trigger] next_state((b1, parents, cs), n) == next_state((b2, parents, cs), n),
    ensures
        h1 == h2,
        kv_get(n1, h1) == kv_get(n2, h2),
{
    let c1 = choose|c: CommitV| {
        &&& c.parents == parents
        &&& c.message == message
        &&& c.timestamp == timestamp
        &&& c.changes == cs
        &&& tree_matches((b1, parents, cs), cs, c.tree)
        &&& commit_wf(c)
        &&& #[trigger] commit_recorded(o1, n1, c, h1)
    };
    let c2 = choose|c: CommitV| {
        &&& c.parents == parents
        &&& c.message == message
        &&& c.timestamp == timestamp
        &&& c.changes == cs
        &&& tree_matches((b2, parents, cs), cs, c.tree)
        &&& commit_wf(c)
        &&& #[trigger] commit_recorded(o2, n2, c, h2)
    };
    lemma_tree_unique((b1, parents, cs), (b2, parents, cs), cs, c1.tree, c2.tree);
    assert(c1 == c2);
}

/// The commit hash returned by a commit is determined by the commit's
/// fields: equal commits encode to equal bytes and hence equal hashes.
pub proof fn lemma_commit_determinism(c1: CommitV, c2: CommitV)
    requires
        c1 == c2,
    ensures
        enc_commit(c1) == enc_commit(c2),
        blake3_of(enc_commit(c1)) == blake3_of(enc_commit(c2)),
{
}

/// The state at commit `h` of every table: all changes along the ancestry,
/// replayed oldest first into an empty engine.
pub open spec fn full_state(kv: Seq<(Seq<u8>, Seq<u8>)>, h: Seq<u8>) -> Result<EngineState, ErrorKind> {
    match ancestry(kv, h) {
        Err(e) => Err(e),
        Ok(chain) => {
            let cs = history_changes(chain);
            if all_replayable(cs) {
                Ok(apply_all(Map::empty(), cs))
            } else {
                Err(ErrorKind::Serialization)
            }
        },
    }
}

/// The message of a merge commit.
pub open spec fn merge_message(name: Seq<char>) -> Seq<char> {
    "Merge branch '"@ + name + "'"@
}

/// What a merge of branch `name` into HEAD starts from: both heads and the
/// states replayed along their ancestries.
pub open spec fn merge_inputs(kv: Seq<(Seq<u8>, Seq<u8>)>, name: Seq<char>) -> Result<(Seq<u8>, Seq<u8>), ErrorKind> {
    match kv_get(kv, branch_key(name)) {
        None => Err(ErrorKind::Input),
        Some(b) => match read_head(kv) {
            Err(e) => Err(e),
            Ok(None) => Err(ErrorKind::Missing),
            Ok(Some(c)) => if b.len() != 32 { Err(ErrorKind::Input) } else { Ok((c, b)) },
        },
    }
}

/// How a merge ended.
#[derive(Debug, Clone, Copy, PartialEq, Eq)]
pub enum MergeOutcome {
    /// Nothing to merge: the heads are equal, or the merge changes nothing.
    UpToDate,
    /// A merge commit was recorded under this hash.
    Merged(Digest),
}

/// What a checkout moved HEAD to.
#[derive(Debug, Clone, Copy, PartialEq, Eq)]
pub enum CheckoutTarget {
    Branch,
    Commit,
}

/// The message of a revert commit.
pub open spec fn revert_message(h: Seq<u8>) -> Seq<char> {
    "Revert to "@ + hex_lower(h)
}

/// A change of a revert commit: inserts become deletes, the rest stay.
pub open spec fn revert_change(c: ChangeV) -> ChangeV {
    match c {
        ChangeV::Insert { table, id, .. } => ChangeV::Delete { table, id },
        _ => c,
    }
}

/// The changes of a revert commit.
pub open spec fn reverted(cs: Seq<ChangeV>) -> Seq<ChangeV> {
    cs.map_values(|c: ChangeV| revert_change(c))
}

/// Some table named in `names` has `k` among its row keys.
pub open spec fn under_tables(names: Seq<(Seq<char>, Seq<u8>)>, k: Seq<u8>) -> bool {
    exists|i: int| 0 <= i < names.len() && has_prefix(k, table_prefix(#[trigger] names[i].0))
}

/// Some row of `st` is stored under key `k`.
pub open spec fn row_image(st: EngineState, k: Seq<u8>) -> bool {
    exists|rk: (Seq<char>, Seq<char>)| st.contains_key(rk) && #[trigger] row_key(rk.0, rk.1) == k
}

/// `mid` is `old` with the rows of the tables in `tree` cleared and every
/// row of `st` written under its `<table>:<id>` key.
pub open spec fn rows_rewritten(
    old: Seq<(Seq<u8>, Seq<u8>)>,
    mid: Seq<(Seq<u8>, Seq<u8>)>,
    tree: Seq<(Seq<char>, Seq<u8>)>,
    st: EngineState,
) -> bool {
    forall|k: Seq<u8>| #[trigger] kv_get(mid, k) == if row_image(st, k) {
        kv_get(mid, k)
    } else if under_tables(tree, k) {
        None
    } else {
        kv_get(old, k)
    } && (row_image(st, k) ==> exists|rk: (Seq<char>, Seq<char>)| st.contains_key(rk) && #[trigger] row_key(rk.0, rk.1) == k
        && kv_get(mid, k) == Some(enc_value(st[rk])))
}

/// Every entry whose key starts with `p` is among the prefix scan's rows.
proof fn lemma_prefix_scan_complete(e: Seq<(Seq<u8>, Seq<u8>)>, p: Seq<u8>, i: int)
    requires
        0 <= i < e.len(),
        has_prefix(e[i].0, p),
    ensures
        exists|j: int| 0 <= j < rows_with_prefix(e, p).len() && (#[trigger] rows_with_prefix(e, p)[j]) == e[i],
    decreases e.len(),
{
    let r = rows_with_prefix(e.drop_last(), p);
    if i == e.len() - 1 {
        assert(rows_with_prefix(e, p) == r.push(e.last()));
        assert(rows_with_prefix(e, p)[r.len() as int] == e[i]);
    } else {
        assert(e.drop_last()[i] == e[i]);
        lemma_prefix_scan_complete(e.drop_last(), p, i);
        let j = choose|j: int| 0 <= j < r.len() && (#[trigger] r[j]) == e.drop_last()[i];
        if has_prefix(e.last().0, p) {
            assert(rows_with_prefix(e, p) == r.push(e.last()));
            assert(rows_with_prefix(e, p)[j] == r[j]);
        } else {
            assert(rows_with_prefix(e, p) == r);
        }
        assert(rows_with_prefix(e, p)[j] == e[i]);
    }
}

/// The hash that `tree` records for table `name`: the first entry's.
pub open spec fn tree_lookup(t: Seq<(Seq<char>, Seq<u8>)>, name: Seq<char>) -> Option<Seq<u8>>
    decreases t.len(),
{
    if t.len() == 0 {
        None
    } else if t[0].0 == name {
        Some(t[0].1)
    } else {
        tree_lookup(t.drop_first(), name)
    }
}

/// The change a diff emits for a table that the older commit's tree lacks.
pub open spec fn placeholder(t: Seq<char>) -> ChangeV {
    ChangeV::Insert { table: t, id: "!schema"@, value: Seq::empty() }
}

/// A tree entry of the newer commit can be compared: where both trees name
/// the table with different hashes, the table materializes at both commits.
pub open spec fn entry_comparable(kv: Seq<(Seq<u8>, Seq<u8>)>, from: Seq<u8>, to: Seq<u8>, from_tree: Seq<(Seq<char>, Seq<u8>)>, entry: (Seq<char>, Seq<u8>)) -> bool {
    match tree_lookup(from_tree, entry.0) {
        Some(fh) => fh != entry.1 ==> (materialized(kv, entry.0, from) is Ok && materialized(kv, entry.0, to) is Ok),
        None => true,
    }
}

/// The part of a commit diff for one tree entry of the newer commit: a
/// placeholder insert of the table's schema row if the older tree lacks the
/// table, nothing if both trees record the same hash, and otherwise the
/// difference between the table's states at the two commits.
pub open spec fn piece_ok(kv: Seq<(Seq<u8>, Seq<u8>)>, from: Seq<u8>, to: Seq<u8>, from_tree: Seq<(Seq<char>, Seq<u8>)>, entry: (Seq<char>, Seq<u8>), piece: Seq<ChangeV>) -> bool {
    match tree_lookup(from_tree, entry.0) {
        None => piece == seq![placeholder(entry.0)],
        Some(fh) => if fh == entry.1 {
            piece.len() == 0
        } else {
            match (materialized(kv, entry.0, from), materialized(kv, entry.0, to)) {
                (Ok(a), Ok(b)) => is_diff(a, b, piece),
                _ => false,
            }
        },
    }
}

/// The pieces, one after another.
pub open spec fn flatten(pieces: Seq<Seq<ChangeV>>) -> Seq<ChangeV>
    decreases pieces.len(),
{
    if pieces.len() == 0 {
        Seq::empty()
    } else {
        flatten(pieces.drop_last()) + pieces.last()
    }
}

/// Replaying only the changes of table `t` gives, on that table's rows, what
/// replaying all changes gives.
proof fn lemma_table_replay(cs: Seq<ChangeV>, t: Seq<char>, k: (Seq<char>, Seq<char>))
    requires
        k.0 == t,
    ensures
        crate::crdt::agree_at(apply_all(Map::empty(), changes_for_table(cs, t)), apply_all(Map::empty(), cs), k),
    decreases cs.len(),
{
    if cs.len() > 0 {
        lemma_table_replay(cs.drop_last(), t, k);
        let c = cs.last();
        if c.table() == t {
            assert(changes_for_table(cs, t).drop_last() =~= changes_for_table(cs.drop_last(), t));
        }
    }
}

/// A replayable table filter of a replayable sequence.
proof fn lemma_table_replayable(cs: Seq<ChangeV>, t: Seq<char>)
    requires
        all_replayable(cs),
    ensures
        all_replayable(changes_for_table(cs, t)),
    decreases cs.len(),
{
    if cs.len() > 0 {
        assert forall|i: int| 0 <= i < cs.drop_last().len() implies crate::crdt::replayable(#[trigger] cs.drop_last()[i]) by {
            assert(cs.drop_last()[i] == cs[i]);
        }
        lemma_table_replayable(cs.drop_last(), t);
        let r = changes_for_table(cs.drop_last(), t);
        if cs.last().table() == t {
            assert forall|i: int| 0 <= i < r.push(cs.last()).len() implies crate::crdt::replayable(#[trigger] r.push(cs.last())[i]) by {
                if i < r.len() {
                    assert(r.push(cs.last())[i] == r[i]);
                } else {
                    assert(cs.last() == cs[cs.len() - 1]);
                }
            }
        }
    }
}

/// After a revert to commit `v`, the stored row of each table in `v`'s tree
/// holds what the table's materialized state at `v` holds: the encoded value
/// for a row it has, nothing for a row it lacks. This holds for row keys that
/// no other replayed row shares and that are not the new commit's hash.
#[verifier::rlimit(60)]
pub proof fn lemma_revert_restores_rows(
    old: Seq<(Seq<u8>, Seq<u8>)>,
    mid: Seq<(Seq<u8>, Seq<u8>)>,
    new: Seq<(Seq<u8>, Seq<u8>)>,
    v: Seq<u8>,
    parents: Seq<Seq<u8>>,
    timestamp: u64,
    h: Seq<u8>,
    i: int,
    id: Seq<char>,
)
    requires
        load_commit(old, v) is Ok,
        full_state(old, v) is Ok,
        0 <= i < load_commit(old, v)->Ok_0.tree.len(),
        rows_rewritten(old, mid, load_commit(old, v)->Ok_0.tree, full_state(old, v)->Ok_0),
        commit_made(old, mid, new, parents, revert_message(v), timestamp, reverted(load_commit(old, v)->Ok_0.changes), h),
        row_key(load_commit(old, v)->Ok_0.tree[i].0, id) != h,
        forall|rk: (Seq<char>, Seq<char>)| full_state(old, v)->Ok_0.contains_key(rk)
            && #[trigger] row_key(rk.0, rk.1) == row_key(load_commit(old, v)->Ok_0.tree[i].0, id)
            ==> rk == (load_commit(old, v)->Ok_0.tree[i].0, id),
    ensures
        materialized(old, load_commit(old, v)->Ok_0.tree[i].0, v) matches Ok(m) && kv_get(new, row_key(load_commit(old, v)->Ok_0.tree[i].0, id))
            == if m.contains_key((load_commit(old, v)->Ok_0.tree[i].0, id)) {
                Some(enc_value(m[(load_commit(old, v)->Ok_0.tree[i].0, id)]))
            } else {
                None
            },
{
    let tree = load_commit(old, v)->Ok_0.tree;
    let t = tree[i].0;
    let st = full_state(old, v)->Ok_0;
    let chain = ancestry(old, v)->Ok_0;
    let all = history_changes(chain);
    let k = row_key(t, id);
    lemma_table_replayable(all, t);
    lemma_table_replay(all, t, (t, id));
    let m = materialized(old, t, v)->Ok_0;
    assert(crate::crdt::agree_at(m, st, (t, id)));
    let c = choose|c: CommitV| {
        &&& c.parents == parents
        &&& c.message == revert_message(v)
        &&& c.timestamp == timestamp
        &&& c.changes == reverted(load_commit(old, v)->Ok_0.changes)
        &&& tree_matches((old, parents, reverted(load_commit(old, v)->Ok_0.changes)), reverted(load_commit(old, v)->Ok_0.changes), c.tree)
        &&& commit_wf(c)
        &&& #[trigger] commit_recorded(mid, new, c, h)
    };
    assert(kv_get(new, k) == kv_get(mid, k)) by {
        if k == head_key() {
            let n = encode_utf8(t).len() as int;
            assert(k =~= encode_utf8(t) + seq![58u8] + encode_utf8(id));
            assert(k[n] == 58u8);
            assert(head_key().len() == 4);
            assert(k.len() == n + 1 + encode_utf8(id).len());
            assert(n < 4);
            assert(head_key()[n] != 58u8);
        }
    }
    assert(has_prefix(k, table_prefix(t))) by {
        assert(k.subrange(0, table_prefix(t).len() as int) =~= table_prefix(t));
    }
    assert(under_tables(tree, k));
    if st.contains_key((t, id)) {
        let rk = (t, id);
        assert(st.contains_key(rk) && row_key(rk.0, rk.1) == k);
        assert(row_image(st, k));
    } else {
        if row_image(st, k) {
            let rk = choose|rk: (Seq<char>, Seq<char>)| st.contains_key(rk) && #[trigger] row_key(rk.0, rk.1) == k;
            assert(rk == (t, id));
        }
    }
}

/// Applying the part of a commit diff for a table that both trees name on
/// top of the table's state at the older commit yields its state at the
/// newer one. Where the two trees record the same hash the part is empty, so
/// this holds there as long as equal content hashes come from equal states,
/// which rests on the digest not colliding.
pub proof fn lemma_commit_diff_complete(
    kv: Seq<(Seq<u8>, Seq<u8>)>,
    from: Seq<u8>,
    to: Seq<u8>,
    from_tree: Seq<(Seq<char>, Seq<u8>)>,
    entry: (Seq<char>, Seq<u8>),
    piece: Seq<ChangeV>,
)
    requires
        piece_ok(kv, from, to, from_tree, entry, piece),
        tree_lookup(from_tree, entry.0) is Some,
        materialized(kv, entry.0, from) is Ok,
        materialized(kv, entry.0, to) is Ok,
        tree_lookup(from_tree, entry.0)->0 == entry.1
            ==> materialized(kv, entry.0, from) == materialized(kv, entry.0, to),
    ensures
        apply_all(materialized(kv, entry.0, from)->Ok_0, piece) == materialized(kv, entry.0, to)->Ok_0,
{
    let a = materialized(kv, entry.0, from)->Ok_0;
    let b = materialized(kv, entry.0, to)->Ok_0;
    if tree_lookup(from_tree, entry.0)->0 != entry.1 {
        crate::crdt::lemma_diff_complete(a, b, piece);
    } else {
        assert(piece.len() == 0);
        assert(apply_all(a, piece) == a);
    }
}

/// The schema document that changes `cs` write for table `t`: the payload of
/// the first write to row `!schema` of `t` whose value is a register.
pub open spec fn schema_in(cs: Seq<ChangeV>, t: Seq<char>) -> Result<Option<Seq<u8>>, ErrorKind>
    decreases cs.len(),
{
    if cs.len() == 0 {
        Ok(None)
    } else {
        let c = cs[0];
        let v = match c {
            ChangeV::Insert { value, .. } => Some(value),
            ChangeV::Update { value, .. } => Some(value),
            ChangeV::Delete { .. } => None,
        };
        if c.table() == t && c.id() == "!schema"@ && v is Some {
            match crate::crdt::payload(v->0) {
                None => Err(ErrorKind::Serialization),
                Some(crate::models::ValueV::Register(b)) => Ok(Some(b)),
                Some(_) => schema_in(cs.drop_first(), t),
            }
        } else {
            schema_in(cs.drop_first(), t)
        }
    }
}

/// The newest schema document of table `t` along a newest-first chain.
pub open spec fn schema_along(chain: Seq<CommitV>, t: Seq<char>) -> Result<Option<Seq<u8>>, ErrorKind>
    decreases chain.len(),
{
    if chain.len() == 0 {
        Ok(None)
    } else {
        match schema_in(chain[0].changes, t) {
            Err(e) => Err(e),
            Ok(Some(b)) => Ok(Some(b)),
            Ok(None) => schema_along(chain.drop_first(), t),
        }
    }
}

pub open spec fn hashes_view(v: Seq<Digest>) -> Seq<Seq<u8>> {
    v.map_values(|h: Digest| h@)
}

pub open spec fn changes_view(v: Seq<Change>) -> Seq<ChangeV> {
    v.map_values(|c: Change| c@)
}

/// The bytes of a ref key or table prefix.
fn text_bytes(s: &str) -> (r: Vec<u8>)
    ensures
        r@ == encode_utf8(s@),
{
    slice_to_vec(s.as_bytes())
}

/// The key prefix `<table>:` of a table's rows.
pub fn table_prefix_bytes(table: &str) -> (r: Vec<u8>)
    ensures
        r@ == table_prefix(table@),
{
    let mut r = text_bytes(table);
    r.push(58u8);
    r
}

/// The key `<table>:<id>` of a table row.
pub fn row_key_bytes(table: &str, id: &str) -> (r: Vec<u8>)
    ensures
        r@ == row_key(table@, id@),
{
    let mut r = table_prefix_bytes(table);
    extend_bytes(&mut r, id.as_bytes());
    r
}

fn head_key_bytes() -> (r: Vec<u8>)
    ensures
        r@ == head_key(),
{
    let r = vec![72u8, 69u8, 65u8, 68u8];
    assert(r@ =~= head_key());
    r
}

/// A commit store over an ordered key-value store.
pub struct CommitStorage {
    pub db: KvStore,
}

impl CommitStorage {
    /// A store over `db`.
    pub fn new(db: KvStore) -> (r: CommitStorage)
        ensures
            r.db == db,
    {
        CommitStorage { db }
    }

    /// The commit stored under `hash`, after checking its digest.
    pub fn get_commit_by_hash(&self, hash: &Digest) -> (r: Result<Commit, BranchDBError>)
        requires
            self.db.wf(),
        ensures
            match load_commit(self.db@, hash@) {
                Ok(c) => r matches Ok(x) && x@ == c,
                Err(k) => r matches Err(e) && e.kind() == k,
            },
    {
        let raw = match self.db.get(hash.as_slice()) {
            Some(raw) => raw,
            None => { return Err(BranchDBError::NotFound("Commit not found".to_owned())); },
        };
        if raw.len() < 32 {
            return Err(BranchDBError::CorruptData("Commit record is truncated".to_owned()));
        }
        let n = raw.len() - 32;
        let body = slice_subrange(raw.as_slice(), 0, n);
        let trailer = slice_subrange(raw.as_slice(), n, raw.len());
        let check = digest(body);
        if !bytes_eq(check.as_slice(), trailer) {
            return Err(BranchDBError::CorruptData("Commit checksum mismatch".to_owned()));
        }
        decode_commit(body)
    }

    /// The hash that HEAD names, if any.
    pub fn get_head(&self) -> (r: Result<Option<Digest>, BranchDBError>)
        requires
            self.db.wf(),
        ensures
            match read_head(self.db@) {
                Ok(None) => r matches Ok(None),
                Ok(Some(h)) => r matches Ok(Some(x)) && x@ == h,
                Err(k) => r matches Err(e) && e.kind() == k,
            },
    {
        let key = head_key_bytes();
        match self.db.get(key.as_slice()) {
            None => Ok(None),
            Some(raw) => {
                if raw.len() != 32 {
                    return Err(BranchDBError::CorruptData("HEAD contains invalid data".to_owned()));
                }
                let mut h: Digest = [0u8; 32];
                let mut i: usize = 0;
                while i < 32
                    invariant
                        raw@.len() == 32,
                        i <= 32,
                        h@.len() == 32,
                        forall|j: int| 0 <= j < i ==> h@[j] == raw@[j],
                    decreases 32 - i,
                {
                    h[i] = raw[i];
                    i = i + 1;
                }
                assert(h@ =~= raw@);
                Ok(Some(h))
            },
        }
    }

    /// The stored record of a commit of these fields, and its hash; the
    /// tree holds the content hash of each table the changes write to, as
    /// the commit materializes it.
    fn prepare_commit(&self, parents: Vec<Digest>, message: &str, changes: Vec<Change>, timestamp: u64)
        -> (r: Result<(Digest, Vec<u8>), BranchDBError>)
        requires
            self.db.wf(),
        ensures
            r is Ok <==> tree_ready((self.db@, hashes_view(parents@), changes_view(changes@))),
            r matches Err(e) ==> exists|j: int| 0 <= j < changes@.len()
                && next_state((self.db@, hashes_view(parents@), changes_view(changes@)), (#[trigger] changes_view(changes@)[j]).table())
                    == Err::<EngineState, ErrorKind>(e.kind()),
            r matches Ok((h, stored)) ==> commit_prepared(self.db@, hashes_view(parents@), message@, timestamp,
                changes_view(changes@), h@, stored@),
    {
        let tree = self.build_tree(&parents, &changes)?;
        let ghost ps = hashes_view(parents@);
        let ghost cs = changes_view(changes@);
        let commit = Commit { parents, message: message.to_owned(), timestamp, changes, tree };
        let ghost cv = commit@;
        let bytes = encode_commit(&commit);
        let h = digest(bytes.as_slice());
        let mut stored = slice_to_vec(bytes.as_slice());
        extend_bytes(&mut stored, h.as_slice());
        proof {
            assert(cv.parents == ps);
            assert(cv.changes == cs);
            assert(h@.len() == 32);
            assert(tree_sorted(cv.tree)) by { reveal(tree_matches); }
            assert(commit_wf(cv));
            assert(commit_prepared(self.db@, ps, message@, timestamp, cs, h@, stored@)) by {
                reveal(commit_prepared);
                assert(cv.parents == ps && cv.changes == cs && commit_wf(cv));
            }
        }
        Ok((h, stored))
    }

    /// Stores a prepared commit record under its hash and moves HEAD to it.
    fn record_commit(&mut self, h: &Digest, stored: &Vec<u8>)
        requires
            old(self).db.wf(),
        ensures
            final(self).db.wf(),
            forall|k: Seq<u8>| #[trigger] kv_get(final(self).db@, k) == if k == head_key() {
                Some(h@)
            } else if k == h@ {
                Some(stored@)
            } else {
                kv_get(old(self).db@, k)
            },
    {
        self.db.put(h.as_slice(), stored.as_slice());
        let key = head_key_bytes();
        self.db.put(key.as_slice(), h.as_slice());
    }

    /// Prepares a commit against the store and records it.
    fn commit_with_parents(&mut self, parents: Vec<Digest>, message: &str, changes: Vec<Change>, timestamp: u64)
        -> (r: Result<Digest, BranchDBError>)
        requires
            old(self).db.wf(),
        ensures
            final(self).db.wf(),
            r is Ok <==> tree_ready((old(self).db@, hashes_view(parents@), changes_view(changes@))),
            r matches Err(e) ==> final(self).db@ == old(self).db@ && exists|j: int| 0 <= j < changes@.len()
                && next_state((old(self).db@, hashes_view(parents@), changes_view(changes@)), (#[trigger] changes_view(changes@)[j]).table())
                    == Err::<EngineState, ErrorKind>(e.kind()),
            r matches Ok(h) ==> commit_made(old(self).db@, old(self).db@, final(self).db@, hashes_view(parents@), message@,
                timestamp, changes_view(changes@), h@),
    {
        let ghost old_kv = self.db@;
        let (h, stored) = self.prepare_commit(parents, message, changes, timestamp)?;
        self.record_commit(&h, &stored);
        proof { lemma_prepared_recorded(old_kv, old_kv, self.db@, hashes_view(parents@), message@, timestamp, changes_view(changes@), h@, stored@); }
        Ok(h)
    }

    /// Records a commit of `changes` on top of HEAD (none for a root
    /// commit), whose tree holds each table they write to with the content
    /// hash of its rows at the new commit, and moves HEAD to it. A table
    /// that cannot be materialized there is reported and nothing is written. A blank message or a malformed HEAD is refused and nothing is
    /// written.
    pub fn create_commit(&mut self, message: &str, changes: Vec<Change>, timestamp: u64) -> (r: Result<Digest, BranchDBError>)
        requires
            old(self).db.wf(),
        ensures
            final(self).db.wf(),
            is_blank(message@) ==> (r matches Err(e) && e is InvalidInput && final(self).db@ == old(self).db@),
            !is_blank(message@) ==> match read_head(old(self).db@) {
                Err(k) => r matches Err(e) && e.kind() == k && final(self).db@ == old(self).db@,
                Ok(_) => if tree_ready((old(self).db@, head_parents(old(self).db@), changes_view(changes@))) {
                    r matches Ok(h) && commit_made(old(self).db@, old(self).db@, final(self).db@, head_parents(old(self).db@),
                        message@, timestamp, changes_view(changes@), h@)
                } else {
                    r matches Err(e) && final(self).db@ == old(self).db@ && exists|j: int| 0 <= j < changes@.len()
                        && next_state((old(self).db@, head_parents(old(self).db@), changes_view(changes@)),
                            (#[trigger] changes_view(changes@)[j]).table()) == Err::<EngineState, ErrorKind>(e.kind())
                },
            },
    {
        if blank(message) {
            return Err(BranchDBError::InvalidInput("Commit message cannot be empty".to_owned()));
        }
        let parents = self.head_parent_list()?;
        self.commit_with_parents(parents, message, changes, timestamp)
    }

    /// HEAD's hash as a parent list: one entry, or none without HEAD.
    fn head_parent_list(&self) -> (r: Result<Vec<Digest>, BranchDBError>)
        requires
            self.db.wf(),
        ensures
            match read_head(self.db@) {
                Err(k) => r matches Err(e) && e.kind() == k,
                Ok(_) => r matches Ok(v) && hashes_view(v@) == head_parents(self.db@),
            },
    {
        let head = self.get_head()?;
        let mut parents: Vec<Digest> = Vec::new();
        if let Some(p) = head {
            parents.push(p);
        }
        assert(hashes_view(parents@) =~= head_parents(self.db@));
        Ok(parents)
    }

    /// The first-parent ancestry of `from`, newest first.
    #[verifier::rlimit(40)]
    pub fn walk_ancestry(&self, from: &Digest) -> (r: Result<Vec<Commit>, BranchDBError>)
        requires
            self.db.wf(),
        ensures
            match ancestry(self.db@, from@) {
                Ok(cs) => r matches Ok(v) && commits_view(v@) == cs,
                Err(k) => r matches Err(e) && e.kind() == k,
            },
    {
        let ghost kv = self.db@;
        let mut out: Vec<Commit> = Vec::new();
        let mut cur: Digest = *from;
        let mut fuel: usize = self.db.len();
        assert(commits_view(out@) =~= Seq::<CommitV>::empty());
        loop
            invariant
                self.db.wf(),
                kv == self.db@,
                fuel <= kv.len(),
                ancestry(kv, from@) == prepend(commits_view(out@), chain(kv, cur@, fuel as nat)),
            decreases fuel,
        {
            let c = self.get_commit_by_hash(&cur)?;
            let ghost cv = c@;
            if c.parents.len() == 0 {
                out.push(c);
                return Ok(out);
            }
            if fuel == 0 {
                return Err(BranchDBError::CorruptData("Commit ancestry does not end".to_owned()));
            }
            let next: Digest = c.parents[0];
            let ghost before = commits_view(out@);
            out.push(c);
            assert(commits_view(out@) =~= before.push(cv));
            assert(before.push(cv) =~= before + seq![cv]);
            proof {
                match chain(kv, next@, (fuel - 1) as nat) {
                    Ok(rest) => {
                        assert(before + (seq![cv] + rest) =~= (before + seq![cv]) + rest);
                    },
                    Err(_) => {},
                }
            }
            cur = next;
            fuel = fuel - 1;
        }
    }

    /// Every commit from HEAD back along first parents, newest first; empty
    /// when there is no HEAD.
    pub fn get_commit_history(&self) -> (r: Result<Vec<Commit>, BranchDBError>)
        requires
            self.db.wf(),
        ensures
            match read_head(self.db@) {
                Err(k) => r matches Err(e) && e.kind() == k,
                Ok(None) => r matches Ok(v) && v@.len() == 0,
                Ok(Some(h)) => match ancestry(self.db@, h) {
                    Ok(cs) => r matches Ok(v) && commits_view(v@) == cs,
                    Err(k) => r matches Err(e) && e.kind() == k,
                },
            },
    {
        match self.get_head()? {
            None => Ok(Vec::new()),
            Some(h) => self.walk_ancestry(&h),
        }
    }

    /// The state of `table` at commit `commit_hash`: the table's changes
    /// along the first-parent ancestry, replayed oldest first.
    pub fn get_table_at_commit(&self, table: &str, commit_hash: &Digest) -> (r: Result<CrdtEngine, BranchDBError>)
        requires
            self.db.wf(),
        ensures
            match materialized(self.db@, table@, commit_hash@) {
                Ok(s) => r matches Ok(e) && e.wf() && e@ == s,
                Err(k) => r matches Err(e) && e.kind() == k,
            },
    {
        let chain = self.walk_ancestry(commit_hash)?;
        let ghost cv = commits_view(chain@);
        let mut flat: Vec<Change> = Vec::new();
        let mut i: usize = chain.len();
        assert(cv.skip(i as int) =~= Seq::<CommitV>::empty());
        assert(changes_view(flat@) =~= Seq::<ChangeV>::empty());
        while i > 0
            invariant
                cv == commits_view(chain@),
                i <= chain@.len(),
                changes_view(flat@) == changes_for_table(history_changes(cv.skip(i as int)), table@),
            decreases i,
        {
            let commit = &chain[i - 1];
            let ghost prior = changes_view(flat@);
            let ghost cc = commit@.changes;
            let mut k: usize = 0;
            assert(cc.take(0) =~= Seq::<ChangeV>::empty());
            assert(prior + changes_for_table(cc.take(0), table@) =~= prior);
            while k < commit.changes.len()
                invariant
                    cc == commit@.changes,
                    k <= commit.changes@.len(),
                    changes_view(flat@) == prior + changes_for_table(cc.take(k as int), table@),
                decreases commit.changes@.len() - k,
            {
                let c = &commit.changes[k];
                assert(cc.take(k + 1).drop_last() =~= cc.take(k as int));
                assert(cc[k as int] == c@);
                if bytes_eq(c.table().as_bytes(), table.as_bytes()) {
                    proof {
                        assert(decode_utf8(encode_utf8(c@.table())) == decode_utf8(encode_utf8(table@)));
                    }
                    let ghost fv = changes_view(flat@);
                    flat.push(c.duplicate());
                    assert(changes_view(flat@) =~= fv.push(c@));
                } else {
                    proof {
                        if c@.table() == table@ {
                            assert(encode_utf8(c@.table()) == encode_utf8(table@));
                        }
                    }
                }
                k = k + 1;
            }
            proof {
                assert(cc.take(k as int) =~= cc);
                let sk = cv.skip(i - 1);
                assert(sk[0] == cv[i - 1]);
                assert(sk.drop_first() =~= cv.skip(i as int));
                lemma_changes_for_table_concat(history_changes(cv.skip(i as int)), cc, table@);
            }
            i = i - 1;
        }
        assert(cv.skip(0) =~= cv);
        let mut engine = CrdtEngine::new();
        engine.apply_changes(&flat)?;
        Ok(engine)
    }

    /// Replays every change along the ancestry of `h`, oldest first.
    pub fn replay_all(&self, h: &Digest) -> (r: Result<CrdtEngine, BranchDBError>)
        requires
            self.db.wf(),
        ensures
            match full_state(self.db@, h@) {
                Ok(s) => r matches Ok(e) && e.wf() && e@ == s,
                Err(k) => r matches Err(e) && e.kind() == k,
            },
    {
        let chain = self.walk_ancestry(h)?;
        let ghost cv = commits_view(chain@);
        let mut flat: Vec<Change> = Vec::new();
        let mut i: usize = chain.len();
        assert(cv.skip(i as int) =~= Seq::<CommitV>::empty());
        assert(changes_view(flat@) =~= Seq::<ChangeV>::empty());
        while i > 0
            invariant
                cv == commits_view(chain@),
                i <= chain@.len(),
                changes_view(flat@) == history_changes(cv.skip(i as int)),
            decreases i,
        {
            let commit = &chain[i - 1];
            let ghost prior = changes_view(flat@);
            let ghost cc = commit@.changes;
            let mut k: usize = 0;
            assert(prior + cc.take(0) =~= prior);
            while k < commit.changes.len()
                invariant
                    cc == commit@.changes,
                    k <= commit.changes@.len(),
                    changes_view(flat@) == prior + cc.take(k as int),
                decreases commit.changes@.len() - k,
            {
                let c = &commit.changes[k];
                let ghost fv = changes_view(flat@);
                assert(cc[k as int] == c@);
                flat.push(c.duplicate());
                assert(changes_view(flat@) =~= fv.push(c@));
                assert(prior + cc.take(k + 1) =~= (prior + cc.take(k as int)).push(cc[k as int]));
                k = k + 1;
            }
            proof {
                assert(cc.take(k as int) =~= cc);
                let sk = cv.skip(i - 1);
                assert(sk[0] == cv[i - 1]);
                assert(sk.drop_first() =~= cv.skip(i as int));
            }
            i = i - 1;
        }
        assert(cv.skip(0) =~= cv);
        let mut engine = CrdtEngine::new();
        engine.apply_changes(&flat)?;
        Ok(engine)
    }

    /// The changes that take table `table` from its state at `from` to its
    /// state at `to`.
    pub fn get_table_diffs(&self, table: &str, from: &Digest, to: &Digest) -> (r: Result<Vec<Change>, BranchDBError>)
        requires
            self.db.wf(),
        ensures
            match (materialized(self.db@, table@, from@), materialized(self.db@, table@, to@)) {
                (Ok(a), Ok(b)) => r matches Ok(cs) && is_diff(a, b, changes_view(cs@)),
                (Err(k), _) => r matches Err(e) && e.kind() == k,
                (Ok(_), Err(k)) => r matches Err(e) && e.kind() == k,
            },
    {
        let a = self.get_table_at_commit(table, from)?;
        let b = self.get_table_at_commit(table, to)?;
        Ok(diff_states(&a, &b))
    }

    /// Moves HEAD to a branch's commit, or else to a commit named by 64
    /// hexadecimal digits. The commit must be stored.
    pub fn checkout(&mut self, target: &str) -> (r: Result<CheckoutTarget, BranchDBError>)
        requires
            old(self).db.wf(),
        ensures
            final(self).db.wf(),
            match kv_get(old(self).db@, branch_key(target@)) {
                Some(b) => if kv_get(old(self).db@, b) is Some {
                    r matches Ok(CheckoutTarget::Branch) && forall|k: Seq<u8>| #[trigger] kv_get(final(self).db@, k)
                        == if k == head_key() { Some(b) } else { kv_get(old(self).db@, k) }
                } else {
                    r matches Err(e) && e is InvalidInput && final(self).db@ == old(self).db@
                },
                None => if target@.len() == 64 && is_hex_text(target@) && kv_get(old(self).db@, hex_bytes(target@)) is Some {
                    r matches Ok(CheckoutTarget::Commit) && forall|k: Seq<u8>| #[trigger] kv_get(final(self).db@, k)
                        == if k == head_key() { Some(hex_bytes(target@)) } else { kv_get(old(self).db@, k) }
                } else {
                    r matches Err(e) && e is InvalidInput && final(self).db@ == old(self).db@
                },
            },
    {
        let hk = head_key_bytes();
        let bkey = branch_key_bytes(target);
        if let Some(b) = self.db.get(bkey.as_slice()) {
            if self.db.get(b.as_slice()).is_none() {
                return Err(BranchDBError::InvalidInput("Branch points to invalid commit".to_owned()));
            }
            self.db.put(hk.as_slice(), b.as_slice());
            return Ok(CheckoutTarget::Branch);
        }
        if let Ok(h) = parse_hash(target) {
            if self.db.get(h.as_slice()).is_some() {
                self.db.put(hk.as_slice(), h.as_slice());
                return Ok(CheckoutTarget::Commit);
            }
        }
        Err(BranchDBError::InvalidInput("No branch or commit found with that reference".to_owned()))
    }

    /// Merges branch `name` into HEAD: replays both ancestries, merges the
    /// branch's state into HEAD's under the CRDT rules, and records the
    /// changes as a commit whose parents are HEAD and the branch tip.
    pub fn merge_branch(&mut self, name: &str, timestamp: u64) -> (r: Result<MergeOutcome, BranchDBError>)
        requires
            old(self).db.wf(),
        ensures
            final(self).db.wf(),
            r is Err ==> final(self).db@ == old(self).db@,
            r matches Ok(MergeOutcome::UpToDate) ==> final(self).db@ == old(self).db@,
            match merge_inputs(old(self).db@, name@) {
                Err(k) => r matches Err(e) && e.kind() == k,
                Ok((c, b)) => if c == b {
                    r matches Ok(MergeOutcome::UpToDate)
                } else {
                    match (full_state(old(self).db@, c), full_state(old(self).db@, b)) {
                        (Err(k), _) => r matches Err(e) && e.kind() == k,
                        (Ok(_), Err(k)) => r matches Err(e) && e.kind() == k,
                        (Ok(left), Ok(right)) => if conflicts(left, right) {
                            r matches Err(e) && e is TypeMismatch
                        } else if merge_spec(left, right) == left {
                            r matches Ok(MergeOutcome::UpToDate)
                        } else {
                            exists|cs: Seq<ChangeV>| #[trigger] is_diff(left, merge_spec(left, right), cs)
                                && if tree_ready((old(self).db@, seq![c, b], cs)) {
                                    r matches Ok(MergeOutcome::Merged(h)) && commit_made(old(self).db@, old(self).db@,
                                        final(self).db@, seq![c, b], merge_message(name@), timestamp, cs, h@)
                                } else {
                                    r matches Err(e) && exists|j: int| 0 <= j < cs.len()
                                        && next_state((old(self).db@, seq![c, b], cs), (#[trigger] cs[j]).table())
                                            == Err::<EngineState, ErrorKind>(e.kind())
                                }
                        },
                    }
                },
            },
    {
        let bkey = branch_key_bytes(name);
        let branch_raw = match self.db.get(bkey.as_slice()) {
            Some(v) => v,
            None => {
                let mut msg = "Branch '".to_owned();
                msg.append(name);
                msg.append("' not found");
                return Err(BranchDBError::InvalidInput(msg));
            },
        };
        let current = match self.get_head()? {
            Some(h) => h,
            None => { return Err(BranchDBError::NotFound("HEAD not found".to_owned())); },
        };
        if branch_raw.len() != 32 {
            return Err(BranchDBError::InvalidInput("Invalid commit hash length".to_owned()));
        }
        let mut branch_head: Digest = [0u8; 32];
        let mut i: usize = 0;
        while i < 32
            invariant
                branch_raw@.len() == 32,
                i <= 32,
                branch_head@.len() == 32,
                forall|j: int| 0 <= j < i ==> branch_head@[j] == branch_raw@[j],
            decreases 32 - i,
        {
            branch_head[i] = branch_raw[i];
            i = i + 1;
        }
        assert(branch_head@ =~= branch_raw@);
        if bytes_eq(current.as_slice(), branch_head.as_slice()) {
            return Ok(MergeOutcome::UpToDate);
        }
        let mut left = self.replay_all(&current)?;
        let right = self.replay_all(&branch_head)?;
        let ghost l0 = left@;
        let changes = merge_states(&mut left, &right)?;
        if changes.len() == 0 {
            proof {
                assert forall|k| #[trigger] merge_spec(l0, right@).contains_key(k) == l0.contains_key(k) by {
                    if !crate::crdt::agree_at(l0, merge_spec(l0, right@), k) {
                        assert(crate::crdt::touches(changes_view(changes@), k));
                    }
                }
                assert forall|k| #[trigger] merge_spec(l0, right@).contains_key(k) implies merge_spec(l0, right@)[k] == l0[k] by {
                    if !crate::crdt::agree_at(l0, merge_spec(l0, right@), k) {
                        assert(crate::crdt::touches(changes_view(changes@), k));
                    }
                }
                assert(merge_spec(l0, right@) =~= l0);
            }
            return Ok(MergeOutcome::UpToDate);
        }
        let ghost cs = changes_view(changes@);
        proof {
            if merge_spec(l0, right@) == l0 {
                let ch = cs[0];
                assert(crate::crdt::realizes(l0, merge_spec(l0, right@), ch));
            }
        }
        let mut message = "Merge branch '".to_owned();
        message.append(name);
        message.append("'");
        let parents = vec![current, branch_head];
        assert(hashes_view(parents@) =~= seq![current@, branch_head@]);
        let h = self.commit_with_parents(parents, message.as_str(), changes, timestamp)?;
        Ok(MergeOutcome::Merged(h))
    }

    /// Removes every row of `table`.
    fn clear_table(&mut self, table: &str)
        requires
            old(self).db.wf(),
        ensures
            final(self).db.wf(),
            forall|k: Seq<u8>| #[trigger] kv_get(final(self).db@, k) == if has_prefix(k, table_prefix(table@)) {
                None
            } else {
                kv_get(old(self).db@, k)
            },
    {
        let ghost start = self.db@;
        let prefix = table_prefix_bytes(table);
        let rows = self.db.prefix_scan(prefix.as_slice());
        let ghost rv = rows@.map_values(|e: (Vec<u8>, Vec<u8>)| (e.0@, e.1@));
        proof { crate::branch::lemma_rows_have_prefix(start, prefix@); }
        let mut j: usize = 0;
        while j < rows.len()
            invariant
                self.db.wf(),
                rv == rows@.map_values(|e: (Vec<u8>, Vec<u8>)| (e.0@, e.1@)),
                rv == rows_with_prefix(start, prefix@),
                j <= rows@.len(),
                forall|k: Seq<u8>| #[trigger] kv_get(self.db@, k) == if exists|jj: int| 0 <= jj < j && (#[trigger] rv[jj]).0 == k {
                    None
                } else {
                    kv_get(start, k)
                },
            decreases rows@.len() - j,
        {
            assert(rows@[j as int].0@ == rv[j as int].0);
            self.db.delete(rows[j].0.as_slice());
            assert forall|k: Seq<u8>| #[trigger] kv_get(self.db@, k) == if exists|jj: int| 0 <= jj < j + 1 && (#[trigger] rv[jj]).0 == k {
                None
            } else {
                kv_get(start, k)
            } by {
                if k != rv[j as int].0 {
                    if exists|jj: int| 0 <= jj < j + 1 && (#[trigger] rv[jj]).0 == k {
                        let jj = choose|jj: int| 0 <= jj < j + 1 && (#[trigger] rv[jj]).0 == k;
                        assert(jj < j);
                    }
                }
            }
            j = j + 1;
        }
        assert forall|k: Seq<u8>| #[trigger] kv_get(self.db@, k) == if has_prefix(k, prefix@) {
            None
        } else {
            kv_get(start, k)
        } by {
            if exists|jj: int| 0 <= jj < j && (#[trigger] rv[jj]).0 == k {
                let jj = choose|jj: int| 0 <= jj < j && (#[trigger] rv[jj]).0 == k;
                assert(has_prefix(rv[jj].0, prefix@));
            } else if has_prefix(k, prefix@) {
                if kv_get(start, k) is Some {
                    let i = crate::kv::key_index(start, k);
                    lemma_prefix_scan_complete(start, prefix@, i);
                    let jj = choose|jj: int| 0 <= jj < rv.len() && (#[trigger] rv[jj]) == start[i];
                    assert(rv[jj].0 == k);
                }
            }
        }
    }

    /// Brings the stored rows back to commit `commit_hash`: replays its
    /// ancestry, clears the rows of the tables its tree names, writes every
    /// replayed row, and records a forward commit "Revert to <hash>" on top
    /// of HEAD whose changes are the target's with inserts turned into
    /// deletes. The stored rows then hold the target's state; replaying the
    /// new HEAD's ancestry does not, since that ancestry keeps the later
    /// commits and adds the revert commit's deletes.
    #[verifier::rlimit(80)]
    pub fn revert_to_commit(&mut self, commit_hash: &Digest, timestamp: u64) -> (r: Result<(), BranchDBError>)
        requires
            old(self).db.wf(),
        ensures
            final(self).db.wf(),
            r is Err ==> final(self).db@ == old(self).db@,
            match (load_commit(old(self).db@, commit_hash@), full_state(old(self).db@, commit_hash@), read_head(old(self).db@)) {
                (Err(k), _, _) => r matches Err(e) && e.kind() == k,
                (Ok(_), Err(k), _) => r matches Err(e) && e.kind() == k,
                (Ok(_), Ok(_), Err(k)) => r matches Err(e) && e.kind() == k,
                (Ok(target), Ok(st), Ok(_)) => if tree_ready((old(self).db@, head_parents(old(self).db@), reverted(target.changes))) {
                    r is Ok && exists|mid: Seq<(Seq<u8>, Seq<u8>)>, h: Seq<u8>|
                        rows_rewritten(old(self).db@, mid, target.tree, st)
                        && #[trigger] commit_made(old(self).db@, mid, final(self).db@, head_parents(old(self).db@),
                            revert_message(commit_hash@), timestamp, reverted(target.changes), h)
                } else {
                    r matches Err(e) && exists|j: int| 0 <= j < target.changes.len()
                        && next_state((old(self).db@, head_parents(old(self).db@), reverted(target.changes)),
                            (#[trigger] reverted(target.changes)[j]).table()) == Err::<EngineState, ErrorKind>(e.kind())
                },
            },
    {
        let ghost old_kv = self.db@;
        let target = self.get_commit_by_hash(commit_hash)?;
        let engine = self.replay_all(commit_hash)?;
        let parents = self.head_parent_list()?;
        let ghost ps = hashes_view(parents@);
        assert(full_state(old_kv, commit_hash@) == Ok::<EngineState, ErrorKind>(engine@));
        let mut message = "Revert to ".to_owned();
        let hex = hash_to_hex(commit_hash);
        message.append(hex.as_str());
        let changes = Self::reverted_changes(&target.changes);
        let ghost rcs = changes_view(changes@);
        let ghost msg = message@;
        let (h, stored) = self.prepare_commit(parents, message.as_str(), changes, timestamp)?;
        let ghost st = engine@;
        let ghost tv = target@.tree;
        self.clear_tables(&target.tree);
        let ghost cleared = self.db@;
        self.write_rows(engine);
        let ghost mid = self.db@;
        proof {
            assert forall|k: Seq<u8>| #[trigger] kv_get(mid, k) == if row_image(st, k) {
                kv_get(mid, k)
            } else if under_tables(tv, k) {
                None
            } else {
                kv_get(old_kv, k)
            } && (row_image(st, k) ==> exists|rk: (Seq<char>, Seq<char>)| st.contains_key(rk) && #[trigger] row_key(rk.0, rk.1) == k
                && kv_get(mid, k) == Some(enc_value(st[rk]))) by {
                assert(kv_get(cleared, k) == if under_tables(tv, k) { None } else { kv_get(old_kv, k) });
            }
            assert(rows_rewritten(old_kv, mid, tv, st));
        }
        self.record_commit(&h, &stored);
        proof {
            lemma_prepared_recorded(old_kv, mid, self.db@, ps, msg, timestamp, rcs, h@, stored@);
            assert(commit_made(old_kv, mid, self.db@, head_parents(old_kv), revert_message(commit_hash@), timestamp,
                reverted(target@.changes), h@));
        }
        Ok(())
    }

    /// The changes of a revert commit: inserts become deletes.
    fn reverted_changes(changes: &Vec<Change>) -> (r: Vec<Change>)
        ensures
            changes_view(r@) == reverted(changes_view(changes@)),
    {
        let ghost cv = changes_view(changes@);
        let mut out: Vec<Change> = Vec::new();
        let mut k: usize = 0;
        assert(changes_view(out@) =~= reverted(cv.take(0)));
        while k < changes.len()
            invariant
                cv == changes_view(changes@),
                k <= cv.len(),
                changes_view(out@) == reverted(cv.take(k as int)),
            decreases cv.len() - k,
        {
            let c = &changes[k];
            let nc = match c {
                Change::Insert { table, id, .. } => Change::Delete { table: table.clone(), id: id.clone() },
                _ => c.duplicate(),
            };
            let ghost before = changes_view(out@);
            out.push(nc);
            assert(cv[k as int] == c@);
            assert(changes_view(out@) =~= before.push(revert_change(c@)));
            assert(reverted(cv.take(k + 1)) =~= reverted(cv.take(k as int)).push(revert_change(c@)));
            k = k + 1;
        }
        assert(cv.take(k as int) =~= cv);
        out
    }

    /// Removes every row of the tables that `tree` names.
    fn clear_tables(&mut self, tree: &Vec<(String, Digest)>)
        requires
            old(self).db.wf(),
        ensures
            final(self).db.wf(),
            forall|k: Seq<u8>| #[trigger] kv_get(final(self).db@, k) == if under_tables(tree_view(tree@), k) {
                None
            } else {
                kv_get(old(self).db@, k)
            },
    {
        let ghost old_kv = self.db@;
        let ghost tv = tree_view(tree@);
        let mut i: usize = 0;
        while i < tree.len()
            invariant
                self.db.wf(),
                tv == tree_view(tree@),
                i <= tv.len(),
                forall|k: Seq<u8>| #[trigger] kv_get(self.db@, k) == if under_tables(tv.take(i as int), k) {
                    None
                } else {
                    kv_get(old_kv, k)
                },
            decreases tv.len() - i,
        {
            assert(tree@[i as int].0@ == tv[i as int].0);
            self.clear_table(tree[i].0.as_str());
            assert forall|k: Seq<u8>| #[trigger] kv_get(self.db@, k) == if under_tables(tv.take(i + 1), k) {
                None
            } else {
                kv_get(old_kv, k)
            } by {
                if under_tables(tv.take(i as int), k) {
                    let q = choose|q: int| 0 <= q < tv.take(i as int).len() && has_prefix(k, table_prefix(#[trigger] tv.take(i as int)[q].0));
                    assert(tv.take(i + 1)[q] == tv.take(i as int)[q]);
                }
                if under_tables(tv.take(i + 1), k) {
                    let q = choose|q: int| 0 <= q < tv.take(i + 1).len() && has_prefix(k, table_prefix(#[trigger] tv.take(i + 1)[q].0));
                    if q < i {
                        assert(tv.take(i + 1)[q] == tv.take(i as int)[q]);
                    }
                }
                assert(tv.take(i + 1)[i as int] == tv[i as int]);
                if has_prefix(k, table_prefix(tv[i as int].0)) {
                    assert(under_tables(tv.take(i + 1), k));
                }
            }
            i = i + 1;
        }
        assert(tv.take(i as int) =~= tv);
    }

    /// Writes every row of `engine` under its `<table>:<id>` key.
    fn write_rows(&mut self, engine: CrdtEngine)
        requires
            old(self).db.wf(),
            engine.wf(),
        ensures
            final(self).db.wf(),
            forall|k: Seq<u8>| #[trigger] kv_get(final(self).db@, k) == if row_image(engine@, k) {
                kv_get(final(self).db@, k)
            } else {
                kv_get(old(self).db@, k)
            } && (row_image(engine@, k) ==> exists|rk: (Seq<char>, Seq<char>)| engine@.contains_key(rk)
                && #[trigger] row_key(rk.0, rk.1) == k && kv_get(final(self).db@, k) == Some(enc_value(engine@[rk]))),
    {
        let ghost st = engine@;
        let ghost cleared = self.db@;
        let rows = engine.into_data();
        let ghost rs = rows@;
        let mut j: usize = 0;
        while j < rows.len()
            invariant
                self.db.wf(),
                rs == rows@,
                rows_state(rs) == st,
                keys_unique(rs),
                j <= rs.len(),
                forall|k: Seq<u8>| #[trigger] kv_get(self.db@, k) == if exists|jj: int| 0 <= jj < j && row_key((#[trigger] rs[jj]).table@, rs[jj].id@) == k {
                    kv_get(self.db@, k)
                } else {
                    kv_get(cleared, k)
                },
                forall|k: Seq<u8>| (exists|jj: int| 0 <= jj < j && row_key((#[trigger] rs[jj]).table@, rs[jj].id@) == k) ==>
                    exists|jj: int| 0 <= jj < j && row_key((#[trigger] rs[jj]).table@, rs[jj].id@) == k
                        && #[trigger] kv_get(self.db@, k) == Some(enc_value(rs[jj].value@)),
            decreases rs.len() - j,
        {
            let row = &rows[j];
            let key = row_key_bytes(row.table.as_str(), row.id.as_str());
            let value = encode_payload(&row.value);
            self.db.put(key.as_slice(), value.as_slice());
            assert forall|k: Seq<u8>| (exists|jj: int| 0 <= jj < j + 1 && row_key((#[trigger] rs[jj]).table@, rs[jj].id@) == k) implies
                exists|jj: int| 0 <= jj < j + 1 && row_key((#[trigger] rs[jj]).table@, rs[jj].id@) == k
                    && #[trigger] kv_get(self.db@, k) == Some(enc_value(rs[jj].value@)) by {
                if k == key@ {
                    assert(row_key(rs[j as int].table@, rs[j as int].id@) == k);
                } else {
                    let jj = choose|jj: int| 0 <= jj < j + 1 && row_key((#[trigger] rs[jj]).table@, rs[jj].id@) == k;
                    assert(jj < j);
                }
            }
            j = j + 1;
        }
        proof {
            let mid = self.db@;
            assert forall|k: Seq<u8>| #[trigger] kv_get(mid, k) == if row_image(st, k) {
                kv_get(mid, k)
            } else {
                kv_get(cleared, k)
            } && (row_image(st, k) ==> exists|rk: (Seq<char>, Seq<char>)| st.contains_key(rk) && #[trigger] row_key(rk.0, rk.1) == k
                && kv_get(mid, k) == Some(enc_value(st[rk]))) by {
                if exists|jj: int| 0 <= jj < j && row_key((#[trigger] rs[jj]).table@, rs[jj].id@) == k {
                    let jj = choose|jj: int| 0 <= jj < j && row_key((#[trigger] rs[jj]).table@, rs[jj].id@) == k
                        && #[trigger] kv_get(mid, k) == Some(enc_value(rs[jj].value@));
                    lemma_state_at(rs, jj);
                    let rk = rkey(rs[jj]);
                    assert(st.contains_key(rk) && row_key(rk.0, rk.1) == k);
                } else {
                    if row_image(st, k) {
                        let rk = choose|rk: (Seq<char>, Seq<char>)| st.contains_key(rk) && #[trigger] row_key(rk.0, rk.1) == k;
                        let jj = crate::crdt::row_index(rs, rk);
                        assert(rkey(rs[jj]) == rk);
                        assert(row_key(rs[jj].table@, rs[jj].id@) == k);
                    }
                }
            }
        }
    }


    /// The hash that `tree` records for `name`, if any.
    fn lookup_tree(tree: &Vec<(String, Digest)>, name: &String) -> (r: Option<Digest>)
        ensures
            match tree_lookup(tree_view(tree@), name@) {
                Some(h) => r matches Some(x) && x@ == h,
                None => r is None,
            },
    {
        let ghost tv = tree_view(tree@);
        let mut i: usize = 0;
        assert(tv.skip(0) =~= tv);
        while i < tree.len()
            invariant
                tv == tree_view(tree@),
                i <= tv.len(),
                tree_lookup(tv, name@) == tree_lookup(tv.skip(i as int), name@),
            decreases tv.len() - i,
        {
            assert(tv.skip(i as int)[0] == tv[i as int]);
            assert(tv.skip(i as int).drop_first() =~= tv.skip(i + 1));
            if tree[i].0 == *name {
                return Some(tree[i].1);
            }
            i = i + 1;
        }
        None
    }

    /// The part of a commit diff for one entry of the newer commit's tree.
    fn entry_diff(&self, from: &Digest, to: &Digest, from_tree: &Vec<(String, Digest)>, name: &String, to_hash: &Digest)
        -> (r: Result<Vec<Change>, BranchDBError>)
        requires
            self.db.wf(),
        ensures
            r is Ok <==> entry_comparable(self.db@, from@, to@, tree_view(from_tree@), (name@, to_hash@)),
            r matches Ok(part) ==> piece_ok(self.db@, from@, to@, tree_view(from_tree@), (name@, to_hash@), changes_view(part@)),
    {
        match Self::lookup_tree(from_tree, name) {
            Some(fh) => {
                if bytes_eq(fh.as_slice(), to_hash.as_slice()) {
                    let part: Vec<Change> = Vec::new();
                    assert(changes_view(part@) =~= Seq::<ChangeV>::empty());
                    Ok(part)
                } else {
                    self.get_table_diffs(name.as_str(), from, to)
                }
            },
            None => {
                let c = Change::Insert { table: name.clone(), id: "!schema".to_owned(), value: Vec::new() };
                let part = vec![c];
                assert(changes_view(part@) =~= seq![placeholder(name@)]);
                Ok(part)
            },
        }
    }

    /// The changes between two commits, table by table along the newer
    /// commit's tree.
    #[verifier::rlimit(40)]
    pub fn get_commit_diffs(&self, from: &Digest, to: &Digest) -> (r: Result<Vec<Change>, BranchDBError>)
        requires
            self.db.wf(),
        ensures
            match (load_commit(self.db@, from@), load_commit(self.db@, to@)) {
                (Err(k), _) => r matches Err(e) && e.kind() == k,
                (Ok(_), Err(k)) => r matches Err(e) && e.kind() == k,
                (Ok(fc), Ok(tc)) => {
                    &&& r is Ok <==> forall|i: int| 0 <= i < tc.tree.len()
                        ==> entry_comparable(self.db@, from@, to@, fc.tree, #[trigger] tc.tree[i])
                    &&& r matches Ok(cs) ==> exists|pieces: Seq<Seq<ChangeV>>| {
                        &&& pieces.len() == tc.tree.len()
                        &&& #[trigger] flatten(pieces) == changes_view(cs@)
                        &&& forall|i: int| 0 <= i < tc.tree.len() ==> piece_ok(self.db@, from@, to@, fc.tree, #[trigger] tc.tree[i], pieces[i])
                    }
                },
            },
    {
        let from_commit = self.get_commit_by_hash(from)?;
        let to_commit = self.get_commit_by_hash(to)?;
        let ghost kv = self.db@;
        let ghost ft = from_commit@.tree;
        let ghost tt = to_commit@.tree;
        let mut diffs: Vec<Change> = Vec::new();
        let ghost mut pieces: Seq<Seq<ChangeV>> = Seq::empty();
        let mut i: usize = 0;
        assert(flatten(pieces) =~= changes_view(diffs@));
        while i < to_commit.tree.len()
            invariant
                self.db.wf(),
                kv == self.db@,
                ft == from_commit@.tree,
                ft == tree_view(from_commit.tree@),
                tt == to_commit@.tree,
                load_commit(kv, from@) == Ok::<CommitV, ErrorKind>(from_commit@),
                load_commit(kv, to@) == Ok::<CommitV, ErrorKind>(to_commit@),
                i <= tt.len(),
                pieces.len() == i,
                flatten(pieces) == changes_view(diffs@),
                forall|q: int| 0 <= q < i ==> piece_ok(kv, from@, to@, ft, #[trigger] tt[q], pieces[q]),
                forall|q: int| 0 <= q < i ==> entry_comparable(kv, from@, to@, ft, #[trigger] tt[q]),
            decreases tt.len() - i,
        {
            assert(tt[i as int] == (to_commit.tree@[i as int].0@, to_commit.tree@[i as int].1@));
            let part = match self.entry_diff(from, to, &from_commit.tree, &to_commit.tree[i].0, &to_commit.tree[i].1) {
                Ok(part) => part,
                Err(e) => {
                    assert(!entry_comparable(kv, from@, to@, ft, tt[i as int]));
                    assert(!(forall|q: int| 0 <= q < tt.len() ==> entry_comparable(kv, from@, to@, ft, #[trigger] tt[q])));
                    assert(load_commit(kv, to@)->Ok_0.tree == tt);
                    assert(load_commit(kv, from@)->Ok_0.tree == ft);
                    return Err(e);
                },
            };
            let ghost before = changes_view(diffs@);
            let ghost piece = changes_view(part@);
            let mut k: usize = 0;
            assert(before + piece.take(0) =~= before);
            while k < part.len()
                invariant
                    k <= part@.len(),
                    piece == changes_view(part@),
                    changes_view(diffs@) == before + piece.take(k as int),
                decreases part@.len() - k,
            {
                let ghost dv = changes_view(diffs@);
                diffs.push(part[k].duplicate());
                assert(changes_view(diffs@) =~= dv.push(part@[k as int]@));
                assert(before + piece.take(k + 1) =~= (before + piece.take(k as int)).push(part@[k as int]@));
                k = k + 1;
            }
            proof {
                assert(piece.take(k as int) =~= piece);
                let np = pieces.push(piece);
                assert(np.drop_last() =~= pieces);
                assert(flatten(np) == flatten(pieces) + piece);
                assert forall|q: int| 0 <= q < i + 1 implies piece_ok(kv, from@, to@, ft, #[trigger] tt[q], np[q]) by {
                    if q < i {
                        assert(np[q] == pieces[q]);
                    }
                }
                pieces = np;
            }
            i = i + 1;
        }
        Ok(diffs)
    }

    /// The schema document that `changes` write for `table`, if any.
    fn schema_of_changes(changes: &Vec<Change>, table: &str) -> (r: Result<Option<Vec<u8>>, BranchDBError>)
        ensures
            match schema_in(changes_view(changes@), table@) {
                Ok(None) => r matches Ok(None),
                Ok(Some(b)) => r matches Ok(Some(x)) && x@ == b,
                Err(k) => r matches Err(e) && e.kind() == k,
            },
    {
        let ghost cc = changes_view(changes@);
        let schema_id = "!schema".to_owned();
        let mut k: usize = 0;
        assert(cc.skip(0) =~= cc);
        while k < changes.len()
            invariant
                cc == changes_view(changes@),
                schema_id@ == "!schema"@,
                k <= cc.len(),
                schema_in(cc, table@) == schema_in(cc.skip(k as int), table@),
            decreases cc.len() - k,
        {
            let c = &changes[k];
            assert(cc.skip(k as int)[0] == c@);
            assert(cc.skip(k as int).drop_first() =~= cc.skip(k + 1));
            let same_table = bytes_eq(c.table().as_bytes(), table.as_bytes());
            proof {
                if same_table {
                    assert(vstd::utf8::decode_utf8(vstd::utf8::encode_utf8(c@.table())) == vstd::utf8::decode_utf8(vstd::utf8::encode_utf8(table@)));
                } else if c@.table() == table@ {
                    assert(encode_utf8(c@.table()) == encode_utf8(table@));
                }
            }
            match c {
                Change::Insert { id, value, .. } | Change::Update { id, value, .. } => {
                    if same_table && *id == schema_id {
                        match decode_value(value.as_slice())? {
                            crate::models::CrdtValue::Register(b) => { return Ok(Some(b)); },
                            crate::models::CrdtValue::Counter(_) => {},
                        }
                    }
                },
                Change::Delete { .. } => {},
            }
            k = k + 1;
        }
        Ok(None)
    }

    /// The schema document of `table`: with no commit, what the store holds
    /// under `<table>:!schema` now; at a commit, the newest one written along
    /// its first-parent ancestry.
    pub fn get_table_schema(&self, table: &str, commit_hash: Option<&Digest>) -> (r: Result<Option<Vec<u8>>, BranchDBError>)
        requires
            self.db.wf(),
        ensures
            commit_hash is None ==> match kv_get(self.db@, row_key(table@, "!schema"@)) {
                Some(v) => r matches Ok(Some(x)) && x@ == v,
                None => r matches Ok(None),
            },
            commit_hash matches Some(h) ==> match ancestry(self.db@, h@) {
                Err(k) => r matches Err(e) && e.kind() == k,
                Ok(chain) => match schema_along(chain, table@) {
                    Ok(None) => r matches Ok(None),
                    Ok(Some(b)) => r matches Ok(Some(x)) && x@ == b,
                    Err(k) => r matches Err(e) && e.kind() == k,
                },
            },
    {
        match commit_hash {
            None => {
                let key = row_key_bytes(table, "!schema");
                Ok(self.db.get(key.as_slice()))
            },
            Some(h) => {
                let chain = self.walk_ancestry(h)?;
                let ghost cv = commits_view(chain@);
                let mut i: usize = 0;
                assert(cv.skip(0) =~= cv);
                while i < chain.len()
                    invariant
                        commit_hash == Some(h),
                        self.db.wf(),
                        ancestry(self.db@, h@) == Ok::<Seq<CommitV>, ErrorKind>(cv),
                        cv == commits_view(chain@),
                        i <= cv.len(),
                        schema_along(cv, table@) == schema_along(cv.skip(i as int), table@),
                    decreases cv.len() - i,
                {
                    assert(cv.skip(i as int)[0] == chain@[i as int]@);
                    assert(cv.skip(i as int).drop_first() =~= cv.skip(i + 1));
                    if let Some(b) = Self::schema_of_changes(&chain[i].changes, table)? {
                        return Ok(Some(b));
                    }
                    i = i + 1;
                }
                Ok(None)
            },
        }
    }

    /// Stores `schema` as the current schema document of `table`.
    pub fn update_table_schema(&mut self, table: &str, schema: &[u8])
        requires
            old(self).db.wf(),
        ensures
            final(self).db.wf(),
            forall|k: Seq<u8>| #[trigger] kv_get(final(self).db@, k) == if k == row_key(table@, "!schema"@) {
                Some(schema@)
            } else {
                kv_get(old(self).db@, k)
            },
    {
        let key = row_key_bytes(table, "!schema");
        self.db.put(key.as_slice(), schema);
    }

    /// Adds `name` with its content hash to a sorted tree, unless the tree
    /// already names it.
    fn add_to_tree(&self, tree: &mut Vec<(String, Digest)>, name: &str, parents: &Vec<Digest>, changes: &Vec<Change>)
        -> (r: Result<(), BranchDBError>)
        requires
            self.db.wf(),
            tree_sorted(tree_view(old(tree)@)),
            tree_hashes_current((self.db@, hashes_view(parents@), changes_view(changes@)), tree_view(old(tree)@)),
        ensures
            tree_sorted(tree_view(final(tree)@)),
            tree_hashes_current((self.db@, hashes_view(parents@), changes_view(changes@)), tree_view(final(tree)@)),
            r is Ok ==> tree_names(tree_view(final(tree)@)) == tree_names(tree_view(old(tree)@)).insert(name@),
            r matches Err(e) ==> next_state((self.db@, hashes_view(parents@), changes_view(changes@)), name@) matches Err(k)
                && e.kind() == k,
            next_state((self.db@, hashes_view(parents@), changes_view(changes@)), name@) is Ok ==> r is Ok,
    {
        let ghost ctx = (self.db@, hashes_view(parents@), changes_view(changes@));
        let ghost tv = tree_view(tree@);
        let key = name.as_bytes();
        let p = tree_position(tree, name);
        if p < tree.len() && bytes_eq(tree[p].0.as_str().as_bytes(), key) {
            proof {
                assert(decode_utf8(encode_utf8(tv[p as int].0)) == decode_utf8(encode_utf8(name@)));
                assert(tv[p as int].0 == name@);
                assert(tree_names(tv).insert(name@) =~= tree_names(tv));
                assert(content_hash_ok(ctx, tv[p as int].0, tv[p as int].1));
            }
            return Ok(());
        }
        let h = self.state_hash(name, parents, changes)?;
        proof {
            if p < tv.len() {
                lemma_lex_total(encode_utf8(tv[p as int].0), encode_utf8(name@));
            }
        }
        tree.insert(p, (name.to_owned(), h));
        proof {
            assert(tree_view(tree@) =~= tv.insert(p as int, (name@, h@)));
            lemma_tree_insert(tv, tree_view(tree@), p as int, name@, h@, ctx);
        }
        Ok(())
    }

    /// The tree of a commit of `changes` on `parents`: each table they write
    /// to, with its content hash at the commit, sorted by name.
    fn build_tree(&self, parents: &Vec<Digest>, changes: &Vec<Change>) -> (r: Result<Vec<(String, Digest)>, BranchDBError>)
        requires
            self.db.wf(),
        ensures
            r is Ok <==> tree_ready((self.db@, hashes_view(parents@), changes_view(changes@))),
            r matches Ok(t) ==> tree_matches((self.db@, hashes_view(parents@), changes_view(changes@)), changes_view(changes@), tree_view(t@)),
            r matches Err(e) ==> exists|j: int| 0 <= j < changes@.len()
                && next_state((self.db@, hashes_view(parents@), changes_view(changes@)), (#[trigger] changes_view(changes@)[j]).table())
                    == Err::<EngineState, ErrorKind>(e.kind()),
    {
        reveal(tree_matches);
        let ghost cs = changes_view(changes@);
        let ghost ctx = (self.db@, hashes_view(parents@), changes_view(changes@));
        let mut tree: Vec<(String, Digest)> = Vec::new();
        let mut j: usize = 0;
        assert(tree_view(tree@) =~= Seq::<(Seq<char>, Seq<u8>)>::empty());
        assert(tree_names(tree_view(tree@)) =~= tables_of(cs.take(0)));
        while j < changes.len()
            invariant
                self.db.wf(),
                ctx == (self.db@, hashes_view(parents@), changes_view(changes@)),
                cs == changes_view(changes@),
                j <= changes@.len(),
                tree_matches(ctx, cs.take(j as int), tree_view(tree@)),
                forall|q: int| 0 <= q < j ==> next_state(ctx, (#[trigger] cs[q]).table()) is Ok,
            decreases changes@.len() - j,
        {
            reveal(tree_matches);
            assert(cs[j as int] == changes@[j as int]@);
            match self.add_to_tree(&mut tree, changes[j].table(), parents, changes) {
                Ok(()) => {},
                Err(e) => {
                    assert(next_state(ctx, cs[j as int].table()) is Err);
                    return Err(e);
                },
            }
            proof {
                let nt = tree_view(tree@);
                let name = cs[j as int].table();
                assert(tree_names(nt).contains(name));
                let i = choose|i: int| 0 <= i < nt.len() && (#[trigger] nt[i]).0 == name;
                assert(content_hash_ok(ctx, nt[i].0, nt[i].1));
            }
            proof { lemma_tables_step(cs, j as int); }
            j = j + 1;
        }
        assert(cs.take(j as int) =~= cs);
        Ok(tree)
    }

    /// The changes of `changes` that write to `table`, in order.
    fn changes_of_table(changes: &Vec<Change>, table: &str) -> (r: Vec<Change>)
        ensures
            changes_view(r@) == changes_for_table(changes_view(changes@), table@),
    {
        let ghost cc = changes_view(changes@);
        let mut picked: Vec<Change> = Vec::new();
        let mut k: usize = 0;
        assert(changes_view(picked@) =~= changes_for_table(cc.take(0), table@));
        while k < changes.len()
            invariant
                cc == changes_view(changes@),
                k <= cc.len(),
                changes_view(picked@) == changes_for_table(cc.take(k as int), table@),
            decreases cc.len() - k,
        {
            let c = &changes[k];
            assert(cc.take(k + 1).drop_last() =~= cc.take(k as int));
            assert(cc[k as int] == c@);
            if bytes_eq(c.table().as_bytes(), table.as_bytes()) {
                proof {
                    assert(decode_utf8(encode_utf8(c@.table())) == decode_utf8(encode_utf8(table@)));
                }
                let ghost pv = changes_view(picked@);
                picked.push(c.duplicate());
                assert(changes_view(picked@) =~= pv.push(c@));
            } else {
                proof {
                    if c@.table() == table@ {
                        assert(encode_utf8(c@.table()) == encode_utf8(table@));
                    }
                }
            }
            k = k + 1;
        }
        assert(cc.take(k as int) =~= cc);
        picked
    }

    /// The content hash of `table` at a commit of `changes` on `parents`:
    /// the digest of its rows' keys and values in key order.
    pub fn state_hash(&self, table: &str, parents: &Vec<Digest>, changes: &Vec<Change>) -> (r: Result<Digest, BranchDBError>)
        requires
            self.db.wf(),
        ensures
            match next_state((self.db@, hashes_view(parents@), changes_view(changes@)), table@) {
                Ok(_) => r matches Ok(h) && content_hash_ok((self.db@, hashes_view(parents@), changes_view(changes@)), table@, h@),
                Err(k) => r matches Err(e) && e.kind() == k,
            },
    {
        let mut engine = if parents.len() == 0 {
            CrdtEngine::new()
        } else {
            self.get_table_at_commit(table, &parents[0])?
        };
        let picked = Self::changes_of_table(changes, table);
        engine.apply_changes(&picked)?;
        let ghost st = engine@;
        let rows = engine.into_data();
        let ghost rs = rows@;
        let mut img = KvStore::new();
        let mut j: usize = 0;
        while j < rows.len()
            invariant
                img.wf(),
                rs == rows@,
                keys_unique(rs),
                rows_state(rs) == st,
                j <= rs.len(),
                forall|k: Seq<u8>| #[trigger] kv_get(img@, k) == if exists|jj: int| 0 <= jj < j && row_key((#[trigger] rs[jj]).table@, rs[jj].id@) == k {
                    kv_get(img@, k)
                } else {
                    None
                },
                forall|k: Seq<u8>| (exists|jj: int| 0 <= jj < j && row_key((#[trigger] rs[jj]).table@, rs[jj].id@) == k) ==>
                    exists|jj: int| 0 <= jj < j && row_key((#[trigger] rs[jj]).table@, rs[jj].id@) == k
                        && #[trigger] kv_get(img@, k) == Some(enc_value(rs[jj].value@)),
            decreases rs.len() - j,
        {
            let row = &rows[j];
            let key = row_key_bytes(row.table.as_str(), row.id.as_str());
            let value = encode_payload(&row.value);
            img.put(key.as_slice(), value.as_slice());
            assert forall|k: Seq<u8>| (exists|jj: int| 0 <= jj < j + 1 && row_key((#[trigger] rs[jj]).table@, rs[jj].id@) == k) implies
                exists|jj: int| 0 <= jj < j + 1 && row_key((#[trigger] rs[jj]).table@, rs[jj].id@) == k
                    && #[trigger] kv_get(img@, k) == Some(enc_value(rs[jj].value@)) by {
                if k == key@ {
                    assert(row_key(rs[j as int].table@, rs[j as int].id@) == k);
                } else {
                    let jj = choose|jj: int| 0 <= jj < j + 1 && row_key((#[trigger] rs[jj]).table@, rs[jj].id@) == k;
                    assert(jj < j);
                }
            }
            j = j + 1;
        }
        proof {
            let e = img@;
            assert forall|k: Seq<u8>| #[trigger] kv_get(e, k) == if row_image(st, k) {
                kv_get(e, k)
            } else {
                None
            } && (row_image(st, k) ==> exists|rk: (Seq<char>, Seq<char>)| st.contains_key(rk) && #[trigger] row_key(rk.0, rk.1) == k
                && kv_get(e, k) == Some(enc_value(st[rk]))) by {
                if exists|jj: int| 0 <= jj < j && row_key((#[trigger] rs[jj]).table@, rs[jj].id@) == k {
                    let jj = choose|jj: int| 0 <= jj < j && row_key((#[trigger] rs[jj]).table@, rs[jj].id@) == k
                        && #[trigger] kv_get(e, k) == Some(enc_value(rs[jj].value@));
                    lemma_state_at(rs, jj);
                    let rk = rkey(rs[jj]);
                    assert(st.contains_key(rk) && row_key(rk.0, rk.1) == k);
                } else {
                    if row_image(st, k) {
                        let rk = choose|rk: (Seq<char>, Seq<char>)| st.contains_key(rk) && #[trigger] row_key(rk.0, rk.1) == k;
                        let jj = crate::crdt::row_index(rs, rk);
                        assert(rkey(rs[jj]) == rk);
                        assert(row_key(rs[jj].table@, rs[jj].id@) == k);
                    }
                }
            }
            assert(image_of(st, e));
        }
        let scan = img.full_scan();
        let ghost rv = scan@.map_values(|e: (Vec<u8>, Vec<u8>)| (e.0@, e.1@));
        let mut buf: Vec<u8> = Vec::new();
        let mut i: usize = 0;
        while i < scan.len()
            invariant
                rv == scan@.map_values(|e: (Vec<u8>, Vec<u8>)| (e.0@, e.1@)),
                i <= scan@.len(),
                buf@ == concat_rows(rv.take(i as int)),
            decreases scan@.len() - i,
        {
            assert(rv.take(i + 1).drop_last() =~= rv.take(i as int));
            extend_bytes(&mut buf, scan[i].0.as_slice());
            extend_bytes(&mut buf, scan[i].1.as_slice());
            i = i + 1;
        }
        assert(rv.take(i as int) =~= rv);
        let h = digest(buf.as_slice());
        assert(image_of(st, rv));
        Ok(h)
    }
}

proof fn lemma_tables_step(cs: Seq<ChangeV>, j: int)
    requires
        0 <= j < cs.len(),
    ensures
        tables_of(cs.take(j + 1)) == tables_of(cs.take(j)).insert(cs[j].table()),
{
    let ct = cs.take(j + 1);
    let ct0 = cs.take(j);
    assert forall|t: Seq<char>| #[trigger] tables_of(ct).contains(t) == tables_of(ct0).insert(cs[j].table()).contains(t) by {
        if tables_of(ct0).contains(t) {
            let jj = choose|jj: int| 0 <= jj < ct0.len() && (#[trigger] ct0[jj]).table() == t;
            assert(ct[jj] == ct0[jj]);
        }
        if tables_of(ct).contains(t) {
            let jj = choose|jj: int| 0 <= jj < ct.len() && (#[trigger] ct[jj]).table() == t;
            if jj < j {
                assert(ct[jj] == ct0[jj]);
            }
        }
        assert(ct[j] == cs[j]);
    }
    assert(tables_of(ct) =~= tables_of(ct0).insert(cs[j].table()));
}

proof fn lemma_tree_insert(tv: Seq<(Seq<char>, Seq<u8>)>, nt: Seq<(Seq<char>, Seq<u8>)>, p: int, name: Seq<char>, h: Seq<u8>, kv: TreeCtx)
    requires
        0 <= p <= tv.len(),
        nt == tv.insert(p, (name, h)),
        content_hash_ok(kv, name, h),
        tree_sorted(tv),
        tree_hashes_current(kv, tv),
        forall|q: int| 0 <= q < p ==> lex_lt(encode_utf8(#[trigger] tv[q].0), encode_utf8(name)),
        p < tv.len() ==> lex_lt(encode_utf8(name), encode_utf8(tv[p].0)),
    ensures
        tree_sorted(nt),
        tree_hashes_current(kv, nt),
        tree_names(nt) == tree_names(tv).insert(name),
{
    assert forall|i: int| 0 <= i < nt.len() - 1 implies lex_lt(encode_utf8(#[trigger] nt[i].0), encode_utf8(nt[i + 1].0)) by {
        if i < p - 1 {
            assert(nt[i] == tv[i] && nt[i + 1] == tv[i + 1]);
        } else if i == p - 1 {
            assert(nt[i] == tv[i]);
        } else if i == p {
            assert(nt[i + 1] == tv[i]);
        } else {
            assert(nt[i] == tv[i - 1] && nt[i + 1] == tv[i]);
        }
    }
    assert forall|i: int| 0 <= i < nt.len() implies content_hash_ok(kv, (#[trigger] nt[i]).0, nt[i].1) by {
        if i < p {
            assert(nt[i] == tv[i]);
        } else if i > p {
            assert(nt[i] == tv[i - 1]);
        }
    }
    assert forall|t: Seq<char>| #[trigger] tree_names(nt).contains(t) == tree_names(tv).insert(name).contains(t) by {
        if tree_names(tv).contains(t) {
            let q = choose|q: int| 0 <= q < tv.len() && (#[trigger] tv[q]).0 == t;
            if q < p {
                assert(nt[q] == tv[q]);
            } else {
                assert(nt[q + 1] == tv[q]);
            }
        }
        if tree_names(nt).contains(t) {
            let i = choose|i: int| 0 <= i < nt.len() && (#[trigger] nt[i]).0 == t;
            if i < p {
                assert(nt[i] == tv[i]);
            } else if i > p {
                assert(nt[i] == tv[i - 1]);
            }
        }
        assert(nt[p].0 == name);
    }
    assert(tree_names(nt) =~= tree_names(tv).insert(name));
}

/// The first index whose name does not sort before `name`.
fn tree_position(tree: &Vec<(String, Digest)>, name: &str) -> (p: usize)
    ensures
        p <= tree@.len(),
        forall|q: int| 0 <= q < p ==> lex_lt(encode_utf8(#[trigger] tree_view(tree@)[q].0), encode_utf8(name@)),
        p < tree@.len() ==> !lex_lt(encode_utf8(tree_view(tree@)[p as int].0), encode_utf8(name@)),
{
    let ghost tv = tree_view(tree@);
    let key = name.as_bytes();
    let mut i: usize = 0;
    while i < tree.len()
        invariant
            tv == tree_view(tree@),
            key@ == encode_utf8(name@),
            i <= tree@.len(),
            forall|q: int| 0 <= q < i ==> lex_lt(encode_utf8(#[trigger] tv[q].0), encode_utf8(name@)),
        decreases tree@.len() - i,
    {
        let nb = tree[i].0.as_str().as_bytes();
        assert(nb@ == encode_utf8(tv[i as int].0));
        if !bytes_lt(nb, key) {
            return i;
        }
        i = i + 1;
    }
    i
}

pub open spec fn tree_view(t: Seq<(String, Digest)>) -> Seq<(Seq<char>, Seq<u8>)> {
    t.map_values(|e: (String, Digest)| (e.0@, e.1@))
}

} // verus!
