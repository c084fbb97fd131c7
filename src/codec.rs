//! The binary layout of values, changes and commits: little-endian integers,
//! a `u32` variant tag, and a `u64` length before each byte string, string
//! and sequence.
use vstd::prelude::*;
use vstd::bytes::*;
use vstd::utf8::*;
use vstd::slice::{slice_subrange, slice_to_vec};
use crate::digest::Digest;
use crate::error::BranchDBError;
use crate::models::{Change, ChangeV, Commit, CommitV, CrdtValue, ValueV};
use crate::order::{extend_bytes, lex_lt, bytes_lt};

verus! {

broadcast use vstd::utf8::encode_utf8_valid_utf8, vstd::utf8::encode_utf8_decode_utf8;

// ----- encoding -----

pub open spec fn enc_u32(x: u32) -> Seq<u8> {
    spec_u32_to_le_bytes(x)
}

pub open spec fn enc_u64(x: u64) -> Seq<u8> {
    spec_u64_to_le_bytes(x)
}

pub open spec fn enc_bytes(b: Seq<u8>) -> Seq<u8> {
    enc_u64(b.len() as u64) + b
}

pub open spec fn enc_str(s: Seq<char>) -> Seq<u8> {
    enc_bytes(encode_utf8(s))
}

/// The items' encodings, one after another.
pub open spec fn enc_all<T>(xs: Seq<T>, f: spec_fn(T) -> Seq<u8>) -> Seq<u8>
    decreases xs.len(),
{
    if xs.len() == 0 {
        Seq::empty()
    } else {
        enc_all(xs.drop_last(), f) + f(xs.last())
    }
}

pub open spec fn enc_value(v: ValueV) -> Seq<u8> {
    match v {
        ValueV::Counter(n) => enc_u32(0) + enc_u64(n),
        ValueV::Register(b) => enc_u32(1) + enc_bytes(b),
    }
}

pub open spec fn enc_change(c: ChangeV) -> Seq<u8> {
    match c {
        ChangeV::Insert { table, id, value } => enc_u32(0) + enc_str(table) + enc_str(id) + enc_bytes(value),
        ChangeV::Update { table, id, value } => enc_u32(1) + enc_str(table) + enc_str(id) + enc_bytes(value),
        ChangeV::Delete { table, id } => enc_u32(2) + enc_str(table) + enc_str(id),
    }
}

pub open spec fn enc_hash(h: Seq<u8>) -> Seq<u8> {
    h
}

pub open spec fn enc_tree_entry(e: (Seq<char>, Seq<u8>)) -> Seq<u8> {
    enc_str(e.0) + e.1
}

pub open spec fn enc_commit_head(c: CommitV) -> Seq<u8> {
    enc_u64(c.parents.len() as u64) + enc_all(c.parents, |h: Seq<u8>| enc_hash(h))
        + enc_str(c.message) + enc_u64(c.timestamp)
}

pub open spec fn enc_commit_tail(c: CommitV) -> Seq<u8> {
    enc_u64(c.changes.len() as u64) + enc_all(c.changes, |x: ChangeV| enc_change(x))
        + enc_u64(c.tree.len() as u64) + enc_all(c.tree, |e: (Seq<char>, Seq<u8>)| enc_tree_entry(e))
}

/// Parents, message, timestamp, changes, tree: in this order.
pub open spec fn enc_commit(c: CommitV) -> Seq<u8> {
    enc_commit_head(c) + enc_commit_tail(c)
}

// ----- decoding: each parser yields the value and the number of bytes read -----

pub open spec fn dec_u32(s: Seq<u8>) -> Option<(u32, nat)> {
    if s.len() >= 4 { Some((spec_u32_from_le_bytes(s.take(4)), 4)) } else { None }
}

pub open spec fn dec_u64(s: Seq<u8>) -> Option<(u64, nat)> {
    if s.len() >= 8 { Some((spec_u64_from_le_bytes(s.take(8)), 8)) } else { None }
}

pub open spec fn dec_bytes(s: Seq<u8>) -> Option<(Seq<u8>, nat)> {
    match dec_u64(s) {
        Some((n, _)) => if 8 + n <= s.len() {
            Some((s.subrange(8, 8 + n), (8 + n) as nat))
        } else {
            None
        },
        None => None,
    }
}

pub open spec fn dec_str(s: Seq<u8>) -> Option<(Seq<char>, nat)> {
    match dec_bytes(s) {
        Some((b, k)) => if valid_utf8(b) { Some((decode_utf8(b), k)) } else { None },
        None => None,
    }
}

pub open spec fn dec_hash(s: Seq<u8>) -> Option<(Seq<u8>, nat)> {
    if s.len() >= 32 { Some((s.take(32), 32)) } else { None }
}

/// `n` items read one after another.
pub open spec fn dec_list<T>(s: Seq<u8>, n: nat, d: spec_fn(Seq<u8>) -> Option<(T, nat)>) -> Option<(Seq<T>, nat)>
    decreases n,
{
    if n == 0 {
        Some((Seq::empty(), 0))
    } else {
        match dec_list(s, (n - 1) as nat, d) {
            Some((vs, k)) => match d(s.skip(k as int)) {
                Some((v, k2)) => Some((vs.push(v), k + k2)),
                None => None,
            },
            None => None,
        }
    }
}

pub open spec fn dec_value(s: Seq<u8>) -> Option<(ValueV, nat)> {
    match dec_u32(s) {
        Some((tag, _)) => if tag == 0 {
            match dec_u64(s.skip(4)) {
                Some((n, k)) => Some((ValueV::Counter(n), 4 + k)),
                None => None,
            }
        } else if tag == 1 {
            match dec_bytes(s.skip(4)) {
                Some((b, k)) => Some((ValueV::Register(b), 4 + k)),
                None => None,
            }
        } else {
            None
        },
        None => None,
    }
}

pub open spec fn dec_change(s: Seq<u8>) -> Option<(ChangeV, nat)> {
    match dec_u32(s) {
        Some((tag, _)) => if tag > 2 {
            None
        } else {
            match dec_str(s.skip(4)) {
                Some((table, k1)) => match dec_str(s.skip((4 + k1) as int)) {
                    Some((id, k2)) => if tag == 2 {
                        Some((ChangeV::Delete { table, id }, 4 + k1 + k2))
                    } else {
                        match dec_bytes(s.skip((4 + k1 + k2) as int)) {
                            Some((value, k3)) => if tag == 0 {
                                Some((ChangeV::Insert { table, id, value }, 4 + k1 + k2 + k3))
                            } else {
                                Some((ChangeV::Update { table, id, value }, 4 + k1 + k2 + k3))
                            },
                            None => None,
                        }
                    },
                    None => None,
                },
                None => None,
            }
        },
        None => None,
    }
}

pub open spec fn dec_tree_entry(s: Seq<u8>) -> Option<((Seq<char>, Seq<u8>), nat)> {
    match dec_str(s) {
        Some((name, k1)) => match dec_hash(s.skip(k1 as int)) {
            Some((h, k2)) => Some(((name, h), k1 + k2)),
            None => None,
        },
        None => None,
    }
}

/// Table names strictly increase in byte order from each entry to the next.
pub open spec fn tree_sorted(t: Seq<(Seq<char>, Seq<u8>)>) -> bool {
    forall|i: int| 0 <= i < t.len() - 1 ==> lex_lt(encode_utf8(#[trigger] t[i].0), encode_utf8(t[i + 1].0))
}

pub open spec fn dec_commit_head(s: Seq<u8>) -> Option<((Seq<Seq<u8>>, Seq<char>, u64), nat)> {
    match dec_u64(s) {
        None => None,
        Some((np, a)) => match dec_list(s.skip(a as int), np as nat, |x: Seq<u8>| dec_hash(x)) {
            None => None,
            Some((parents, b)) => match dec_str(s.skip((a + b) as int)) {
                None => None,
                Some((message, c)) => match dec_u64(s.skip((a + b + c) as int)) {
                    None => None,
                    Some((timestamp, d)) => Some(((parents, message, timestamp), a + b + c + d)),
                },
            },
        },
    }
}

pub open spec fn dec_commit_tail(s: Seq<u8>) -> Option<((Seq<ChangeV>, Seq<(Seq<char>, Seq<u8>)>), nat)> {
    match dec_u64(s) {
        None => None,
        Some((nc, a)) => match dec_list(s.skip(a as int), nc as nat, |x: Seq<u8>| dec_change(x)) {
            None => None,
            Some((changes, b)) => match dec_u64(s.skip((a + b) as int)) {
                None => None,
                Some((nt, c)) => match dec_list(s.skip((a + b + c) as int), nt as nat, |x: Seq<u8>| dec_tree_entry(x)) {
                    None => None,
                    Some((tree, d)) => Some(((changes, tree), a + b + c + d)),
                },
            },
        },
    }
}

pub open spec fn dec_commit(s: Seq<u8>) -> Option<(CommitV, nat)> {
    match dec_commit_head(s) {
        None => None,
        Some((h, k1)) => match dec_commit_tail(s.skip(k1 as int)) {
            None => None,
            Some((t, k2)) => if tree_sorted(t.1) {
                Some((CommitV { parents: h.0, message: h.1, timestamp: h.2, changes: t.0, tree: t.1 }, k1 + k2))
            } else {
                None
            },
        },
    }
}

/// A whole buffer that holds exactly one encoded item.
pub open spec fn dec_exact<T>(s: Seq<u8>, d: Option<(T, nat)>) -> Option<T> {
    match d {
        Some((v, k)) => if k == s.len() { Some(v) } else { None },
        None => None,
    }
}

// ----- sizes that the length prefixes can hold -----

pub open spec fn fits(n: int) -> bool {
    n <= u64::MAX
}

pub open spec fn value_fits(v: ValueV) -> bool {
    match v {
        ValueV::Counter(_) => true,
        ValueV::Register(b) => fits(b.len() as int),
    }
}

pub open spec fn change_fits(c: ChangeV) -> bool {
    match c {
        ChangeV::Insert { table, id, value } => fits(encode_utf8(table).len() as int) && fits(encode_utf8(id).len() as int) && fits(value.len() as int),
        ChangeV::Update { table, id, value } => fits(encode_utf8(table).len() as int) && fits(encode_utf8(id).len() as int) && fits(value.len() as int),
        ChangeV::Delete { table, id } => fits(encode_utf8(table).len() as int) && fits(encode_utf8(id).len() as int),
    }
}

/// Lengths that the prefixes can hold, and 32-byte hashes.
pub open spec fn commit_fits(c: CommitV) -> bool {
    &&& fits(c.parents.len() as int)
    &&& forall|i: int| 0 <= i < c.parents.len() ==> (#[trigger] c.parents[i]).len() == 32
    &&& fits(encode_utf8(c.message).len() as int)
    &&& fits(c.changes.len() as int)
    &&& forall|i: int| 0 <= i < c.changes.len() ==> change_fits(#[trigger] c.changes[i])
    &&& fits(c.tree.len() as int)
    &&& forall|i: int| 0 <= i < c.tree.len() ==> (#[trigger] c.tree[i]).1.len() == 32
        && fits(encode_utf8(c.tree[i].0).len() as int)
}

/// The shape every stored commit has: 32-byte hashes, sorted tree, and
/// lengths that the prefixes can hold.
pub open spec fn commit_wf(c: CommitV) -> bool {
    &&& fits(c.parents.len() as int)
    &&& forall|i: int| 0 <= i < c.parents.len() ==> (#[trigger] c.parents[i]).len() == 32
    &&& fits(encode_utf8(c.message).len() as int)
    &&& fits(c.changes.len() as int)
    &&& forall|i: int| 0 <= i < c.changes.len() ==> change_fits(#[trigger] c.changes[i])
    &&& fits(c.tree.len() as int)
    &&& forall|i: int| 0 <= i < c.tree.len() ==> (#[trigger] c.tree[i]).1.len() == 32
        && fits(encode_utf8(c.tree[i].0).len() as int)
    &&& tree_sorted(c.tree)
}

// ----- decoding what was encoded gives the value back -----

proof fn lemma_u32_round_trip(x: u32, rest: Seq<u8>)
    ensures
        enc_u32(x).len() == 4,
        dec_u32(enc_u32(x) + rest) == Some((x, 4nat)),
{
    lemma_auto_spec_u32_to_from_le_bytes();
    assert((enc_u32(x) + rest).take(4) =~= enc_u32(x));
}

proof fn lemma_u64_round_trip(x: u64, rest: Seq<u8>)
    ensures
        enc_u64(x).len() == 8,
        dec_u64(enc_u64(x) + rest) == Some((x, 8nat)),
{
    lemma_auto_spec_u64_to_from_le_bytes();
    assert((enc_u64(x) + rest).take(8) =~= enc_u64(x));
}

proof fn lemma_bytes_round_trip(b: Seq<u8>, rest: Seq<u8>)
    requires
        fits(b.len() as int),
    ensures
        enc_bytes(b).len() == 8 + b.len(),
        dec_bytes(enc_bytes(b) + rest) == Some((b, (8 + b.len()) as nat)),
{
    let s = enc_bytes(b) + rest;
    lemma_u64_round_trip(b.len() as u64, b + rest);
    assert(s =~= enc_u64(b.len() as u64) + (b + rest));
    assert(s.subrange(8, 8 + b.len() as int) =~= b);
}

proof fn lemma_str_round_trip(t: Seq<char>, rest: Seq<u8>)
    requires
        fits(encode_utf8(t).len() as int),
    ensures
        enc_str(t).len() == 8 + encode_utf8(t).len(),
        dec_str(enc_str(t) + rest) == Some((t, (8 + encode_utf8(t).len()) as nat)),
{
    lemma_bytes_round_trip(encode_utf8(t), rest);
}

proof fn lemma_hash_round_trip(h: Seq<u8>, rest: Seq<u8>)
    requires
        h.len() == 32,
    ensures
        dec_hash(enc_hash(h) + rest) == Some((h, 32nat)),
{
    assert((h + rest).take(32) =~= h);
}

/// Decoding an encoded value yields it back, whatever follows it.
pub proof fn lemma_value_round_trip(v: ValueV, rest: Seq<u8>)
    requires
        value_fits(v),
    ensures
        dec_value(enc_value(v) + rest) == Some((v, enc_value(v).len())),
{
    let s = enc_value(v) + rest;
    match v {
        ValueV::Counter(n) => {
            lemma_u32_round_trip(0, enc_u64(n) + rest);
            lemma_u64_round_trip(n, rest);
            assert(s =~= enc_u32(0) + (enc_u64(n) + rest));
            assert(s.skip(4) =~= enc_u64(n) + rest);
        },
        ValueV::Register(b) => {
            lemma_u32_round_trip(1, enc_bytes(b) + rest);
            lemma_bytes_round_trip(b, rest);
            assert(s =~= enc_u32(1) + (enc_bytes(b) + rest));
            assert(s.skip(4) =~= enc_bytes(b) + rest);
        },
    }
}

/// Decoding an encoded change yields it back, whatever follows it.
pub proof fn lemma_change_round_trip(c: ChangeV, rest: Seq<u8>)
    requires
        change_fits(c),
    ensures
        dec_change(enc_change(c) + rest) == Some((c, enc_change(c).len())),
{
    let s = enc_change(c) + rest;
    let (tag, table, id) = match c {
        ChangeV::Insert { table, id, .. } => (0u32, table, id),
        ChangeV::Update { table, id, .. } => (1u32, table, id),
        ChangeV::Delete { table, id } => (2u32, table, id),
    };
    let tail = match c {
        ChangeV::Insert { value, .. } => enc_bytes(value),
        ChangeV::Update { value, .. } => enc_bytes(value),
        ChangeV::Delete { .. } => Seq::empty(),
    };
    assert(enc_change(c) =~= enc_u32(tag) + enc_str(table) + enc_str(id) + tail);
    let k1 = enc_str(table).len() as int;
    let k2 = enc_str(id).len() as int;
    lemma_u32_round_trip(tag, enc_str(table) + enc_str(id) + tail + rest);
    assert(s =~= enc_u32(tag) + (enc_str(table) + enc_str(id) + tail + rest));
    lemma_str_round_trip(table, enc_str(id) + tail + rest);
    assert(s.skip(4) =~= enc_str(table) + (enc_str(id) + tail + rest));
    lemma_str_round_trip(id, tail + rest);
    assert(s.skip(4 + k1) =~= enc_str(id) + (tail + rest));
    assert(s.skip(4 + k1 + k2) =~= tail + rest);
    match c {
        ChangeV::Insert { value, .. } => {
            lemma_bytes_round_trip(value, rest);
        },
        ChangeV::Update { value, .. } => {
            lemma_bytes_round_trip(value, rest);
        },
        ChangeV::Delete { .. } => {},
    }
}

proof fn lemma_tree_entry_round_trip(e: (Seq<char>, Seq<u8>), rest: Seq<u8>)
    requires
        e.1.len() == 32,
        fits(encode_utf8(e.0).len() as int),
    ensures
        dec_tree_entry(enc_tree_entry(e) + rest) == Some((e, enc_tree_entry(e).len())),
{
    let s = enc_tree_entry(e) + rest;
    lemma_str_round_trip(e.0, e.1 + rest);
    assert(s =~= enc_str(e.0) + (e.1 + rest));
    assert(s.skip(enc_str(e.0).len() as int) =~= e.1 + rest);
    lemma_hash_round_trip(e.1, rest);
}

/// Decoding a run of encoded items yields them back, whatever follows.
pub proof fn lemma_list_round_trip<T>(
    xs: Seq<T>,
    rest: Seq<u8>,
    f: spec_fn(T) -> Seq<u8>,
    d: spec_fn(Seq<u8>) -> Option<(T, nat)>,
)
    requires
        forall|i: int, r: Seq<u8>| 0 <= i < xs.len() ==> #[trigger] d(f(xs[i]) + r) == Some((xs[i], f(xs[i]).len())),
    ensures
        dec_list(enc_all(xs, f) + rest, xs.len(), d) == Some((xs, enc_all(xs, f).len())),
    decreases xs.len(),
{
    if xs.len() > 0 {
        let init = xs.drop_last();
        let x = xs.last();
        assert forall|i: int, r: Seq<u8>| 0 <= i < init.len() implies #[trigger] d(f(init[i]) + r) == Some((init[i], f(init[i]).len())) by {
            assert(init[i] == xs[i]);
            assert(d(f(xs[i]) + r) == Some((xs[i], f(xs[i]).len())));
        }
        lemma_list_round_trip(init, f(x) + rest, f, d);
        let s = enc_all(xs, f) + rest;
        assert(s =~= enc_all(init, f) + (f(x) + rest));
        assert(s.skip(enc_all(init, f).len() as int) =~= f(x) + rest);
        assert(d(f(xs[xs.len() - 1]) + rest) == Some((xs[xs.len() - 1], f(xs[xs.len() - 1]).len())));
        assert(init.push(x) =~= xs);
    }
}

proof fn lemma_commit_head_round_trip(c: CommitV, rest: Seq<u8>)
    requires
        commit_wf(c),
    ensures
        dec_commit_head(enc_commit_head(c) + rest) == Some(((c.parents, c.message, c.timestamp), enc_commit_head(c).len())),
{
    let fh = |h: Seq<u8>| enc_hash(h);
    let dh = |x: Seq<u8>| dec_hash(x);
    let e_np = enc_u64(c.parents.len() as u64);
    let e_parents = enc_all(c.parents, fh);
    let e_message = enc_str(c.message);
    let e_time = enc_u64(c.timestamp);
    let s = enc_commit_head(c) + rest;
    assert(s =~= e_np + (e_parents + (e_message + (e_time + rest))));
    lemma_u64_round_trip(c.parents.len() as u64, e_parents + (e_message + (e_time + rest)));
    assert(s.skip(8) =~= e_parents + (e_message + (e_time + rest)));
    assert forall|i: int, r: Seq<u8>| 0 <= i < c.parents.len() implies #[trigger] dh(fh(c.parents[i]) + r) == Some((c.parents[i], fh(c.parents[i]).len())) by {
        lemma_hash_round_trip(c.parents[i], r);
    }
    lemma_list_round_trip(c.parents, e_message + (e_time + rest), fh, dh);
    let b = e_parents.len() as int;
    assert(s.skip(8 + b) =~= e_message + (e_time + rest));
    lemma_str_round_trip(c.message, e_time + rest);
    let cc = e_message.len() as int;
    assert(s.skip(8 + b + cc) =~= e_time + rest);
    lemma_u64_round_trip(c.timestamp, rest);
}

proof fn lemma_commit_tail_round_trip(c: CommitV, rest: Seq<u8>)
    requires
        commit_wf(c),
    ensures
        dec_commit_tail(enc_commit_tail(c) + rest) == Some(((c.changes, c.tree), enc_commit_tail(c).len())),
{
    let fc = |x: ChangeV| enc_change(x);
    let dc = |x: Seq<u8>| dec_change(x);
    let ft = |e: (Seq<char>, Seq<u8>)| enc_tree_entry(e);
    let dt = |x: Seq<u8>| dec_tree_entry(x);
    let e_nc = enc_u64(c.changes.len() as u64);
    let e_changes = enc_all(c.changes, fc);
    let e_nt = enc_u64(c.tree.len() as u64);
    let e_tree = enc_all(c.tree, ft);
    let s = enc_commit_tail(c) + rest;
    assert(s =~= e_nc + (e_changes + (e_nt + (e_tree + rest))));
    lemma_u64_round_trip(c.changes.len() as u64, e_changes + (e_nt + (e_tree + rest)));
    assert(s.skip(8) =~= e_changes + (e_nt + (e_tree + rest)));
    assert forall|i: int, r: Seq<u8>| 0 <= i < c.changes.len() implies #[trigger] dc(fc(c.changes[i]) + r) == Some((c.changes[i], fc(c.changes[i]).len())) by {
        lemma_change_round_trip(c.changes[i], r);
    }
    lemma_list_round_trip(c.changes, e_nt + (e_tree + rest), fc, dc);
    let f = e_changes.len() as int;
    assert(s.skip(8 + f) =~= e_nt + (e_tree + rest));
    lemma_u64_round_trip(c.tree.len() as u64, e_tree + rest);
    assert(s.skip(16 + f) =~= e_tree + rest);
    assert forall|i: int, r: Seq<u8>| 0 <= i < c.tree.len() implies #[trigger] dt(ft(c.tree[i]) + r) == Some((c.tree[i], ft(c.tree[i]).len())) by {
        lemma_tree_entry_round_trip(c.tree[i], r);
    }
    lemma_list_round_trip(c.tree, rest, ft, dt);
}

/// Decoding an encoded well-formed commit yields it back, whatever follows.
pub proof fn lemma_commit_round_trip(c: CommitV, rest: Seq<u8>)
    requires
        commit_wf(c),
    ensures
        dec_commit(enc_commit(c) + rest) == Some((c, enc_commit(c).len())),
{
    let s = enc_commit(c) + rest;
    lemma_commit_head_round_trip(c, enc_commit_tail(c) + rest);
    assert(s =~= enc_commit_head(c) + (enc_commit_tail(c) + rest));
    assert(s.skip(enc_commit_head(c).len() as int) =~= enc_commit_tail(c) + rest);
    lemma_commit_tail_round_trip(c, rest);
}

/// Round trip: a well-formed commit, change or value that is encoded and then
/// decoded as a whole buffer comes back unchanged.
pub proof fn lemma_round_trip(c: CommitV, ch: ChangeV, v: ValueV)
    requires
        commit_wf(c),
        change_fits(ch),
        value_fits(v),
    ensures
        dec_exact(enc_commit(c), dec_commit(enc_commit(c))) == Some(c),
        dec_exact(enc_change(ch), dec_change(enc_change(ch))) == Some(ch),
        dec_exact(enc_value(v), dec_value(enc_value(v))) == Some(v),
{
    let e: Seq<u8> = Seq::empty();
    lemma_commit_round_trip(c, e);
    assert(enc_commit(c) + e =~= enc_commit(c));
    lemma_change_round_trip(ch, e);
    assert(enc_change(ch) + e =~= enc_change(ch));
    lemma_value_round_trip(v, e);
    assert(enc_value(v) + e =~= enc_value(v));
}

// ----- writing -----

fn put_u32(out: &mut Vec<u8>, x: u32)
    ensures
        final(out)@ == old(out)@ + enc_u32(x),
{
    let b = u32_to_le_bytes(x);
    extend_bytes(out, b.as_slice());
}

fn put_u64(out: &mut Vec<u8>, x: u64)
    ensures
        final(out)@ == old(out)@ + enc_u64(x),
{
    let b = u64_to_le_bytes(x);
    extend_bytes(out, b.as_slice());
}

fn put_bytes(out: &mut Vec<u8>, b: &[u8])
    ensures
        final(out)@ == old(out)@ + enc_bytes(b@),
        fits(b@.len() as int),
{
    put_u64(out, b.len() as u64);
    extend_bytes(out, b);
    assert(final(out)@ =~= old(out)@ + enc_bytes(b@));
}

fn put_str(out: &mut Vec<u8>, s: &str)
    ensures
        final(out)@ == old(out)@ + enc_str(s@),
        fits(encode_utf8(s@).len() as int),
{
    put_bytes(out, s.as_bytes());
}

fn put_value(out: &mut Vec<u8>, v: &CrdtValue)
    ensures
        final(out)@ == old(out)@ + enc_value(v@),
{
    match v {
        CrdtValue::Counter(n) => {
            put_u32(out, 0);
            put_u64(out, *n);
        },
        CrdtValue::Register(b) => {
            put_u32(out, 1);
            put_bytes(out, b.as_slice());
        },
    }
    assert(final(out)@ =~= old(out)@ + enc_value(v@));
}

fn put_change(out: &mut Vec<u8>, c: &Change)
    ensures
        final(out)@ == old(out)@ + enc_change(c@),
        change_fits(c@),
{
    match c {
        Change::Insert { table, id, value } => {
            put_u32(out, 0);
            put_str(out, table.as_str());
            put_str(out, id.as_str());
            put_bytes(out, value.as_slice());
        },
        Change::Update { table, id, value } => {
            put_u32(out, 1);
            put_str(out, table.as_str());
            put_str(out, id.as_str());
            put_bytes(out, value.as_slice());
        },
        Change::Delete { table, id } => {
            put_u32(out, 2);
            put_str(out, table.as_str());
            put_str(out, id.as_str());
        },
    }
    assert(final(out)@ =~= old(out)@ + enc_change(c@));
}

proof fn lemma_enc_all_step<T>(xs: Seq<T>, i: int, f: spec_fn(T) -> Seq<u8>)
    requires
        0 <= i < xs.len(),
    ensures
        enc_all(xs.take(i + 1), f) == enc_all(xs.take(i), f) + f(xs[i]),
{
    assert(xs.take(i + 1).drop_last() =~= xs.take(i));
}

/// The encoding of a CRDT value.
pub fn encode_value(v: &CrdtValue) -> (r: Vec<u8>)
    ensures
        r@ == enc_value(v@),
{
    let mut out: Vec<u8> = Vec::new();
    put_value(&mut out, v);
    assert(out@ =~= enc_value(v@));
    out
}

/// The encoding of a change.
pub fn encode_change(c: &Change) -> (r: Vec<u8>)
    ensures
        r@ == enc_change(c@),
{
    let mut out: Vec<u8> = Vec::new();
    put_change(&mut out, c);
    assert(out@ =~= enc_change(c@));
    out
}

/// The canonical encoding of a commit: equal commits give equal bytes.
pub fn encode_commit(c: &Commit) -> (r: Vec<u8>)
    ensures
        r@ == enc_commit(c@),
        commit_fits(c@),
{
    let ghost cv = c@;
    let mut out: Vec<u8> = Vec::new();
    // Reading the lengths shows that they fit the u64 prefixes.
    let _np: usize = c.parents.len();
    let _nc: usize = c.changes.len();
    let _nt: usize = c.tree.len();
    put_u64(&mut out, c.parents.len() as u64);
    let ghost s0 = out@;
    let mut i: usize = 0;
    while i < c.parents.len()
        invariant
            cv == c@,
            i <= c.parents@.len(),
            out@ == s0 + enc_all(cv.parents.take(i as int), |h: Seq<u8>| enc_hash(h)),
        decreases c.parents@.len() - i,
    {
        proof { lemma_enc_all_step(cv.parents, i as int, |h: Seq<u8>| enc_hash(h)); }
        extend_bytes(&mut out, c.parents[i].as_slice());
        assert(out@ =~= s0 + enc_all(cv.parents.take(i + 1), |h: Seq<u8>| enc_hash(h)));
        i = i + 1;
    }
    assert(cv.parents.take(i as int) =~= cv.parents);
    put_str(&mut out, c.message.as_str());
    put_u64(&mut out, c.timestamp);
    assert(out@ =~= enc_commit_head(cv));
    put_u64(&mut out, c.changes.len() as u64);
    let ghost s1 = out@;
    let mut i: usize = 0;
    while i < c.changes.len()
        invariant
            cv == c@,
            i <= c.changes@.len(),
            out@ == s1 + enc_all(cv.changes.take(i as int), |x: ChangeV| enc_change(x)),
            forall|j: int| 0 <= j < i ==> change_fits(#[trigger] cv.changes[j]),
        decreases c.changes@.len() - i,
    {
        proof { lemma_enc_all_step(cv.changes, i as int, |x: ChangeV| enc_change(x)); }
        put_change(&mut out, &c.changes[i]);
        assert(out@ =~= s1 + enc_all(cv.changes.take(i + 1), |x: ChangeV| enc_change(x)));
        i = i + 1;
    }
    assert(cv.changes.take(i as int) =~= cv.changes);
    put_u64(&mut out, c.tree.len() as u64);
    let ghost s2 = out@;
    let mut i: usize = 0;
    while i < c.tree.len()
        invariant
            cv == c@,
            i <= c.tree@.len(),
            out@ == s2 + enc_all(cv.tree.take(i as int), |e: (Seq<char>, Seq<u8>)| enc_tree_entry(e)),
            forall|j: int| 0 <= j < i ==> (#[trigger] cv.tree[j]).1.len() == 32 && fits(encode_utf8(cv.tree[j].0).len() as int),
        decreases c.tree@.len() - i,
    {
        proof { lemma_enc_all_step(cv.tree, i as int, |e: (Seq<char>, Seq<u8>)| enc_tree_entry(e)); }
        put_str(&mut out, c.tree[i].0.as_str());
        extend_bytes(&mut out, c.tree[i].1.as_slice());
        assert(out@ =~= s2 + enc_all(cv.tree.take(i + 1), |e: (Seq<char>, Seq<u8>)| enc_tree_entry(e)));
        i = i + 1;
    }
    assert(cv.tree.take(i as int) =~= cv.tree);
    assert(out@ =~= enc_commit(cv));
    out
}

// ----- reading -----

/// Relies on `String::from_utf8`: it accepts exactly the well-formed UTF-8
/// byte strings, and the text it returns is made of those bytes.
#[verifier::external_body]
fn text_from_utf8(b: &[u8]) -> (r: Option<String>)
    ensures
        r is Some <==> valid_utf8(b@),
        r matches Some(t) ==> encode_utf8(t@) == b@,
{
    String::from_utf8(b.to_vec()).ok()
}

fn read_u32(b: &[u8]) -> (r: Option<(u32, usize)>)
    ensures
        r is Some <==> dec_u32(b@) is Some,
        r matches Some((x, k)) ==> dec_u32(b@) == Some((x, k as nat)) && k <= b@.len(),
{
    if b.len() < 4 {
        None
    } else {
        Some((u32_from_le_bytes(slice_subrange(b, 0, 4)), 4))
    }
}

fn read_u64(b: &[u8]) -> (r: Option<(u64, usize)>)
    ensures
        r is Some <==> dec_u64(b@) is Some,
        r matches Some((x, k)) ==> dec_u64(b@) == Some((x, k as nat)) && k <= b@.len(),
{
    if b.len() < 8 {
        None
    } else {
        Some((u64_from_le_bytes(slice_subrange(b, 0, 8)), 8))
    }
}

fn read_bytes(b: &[u8]) -> (r: Option<(Vec<u8>, usize)>)
    ensures
        r is Some <==> dec_bytes(b@) is Some,
        r matches Some((x, k)) ==> dec_bytes(b@) == Some((x@, k as nat)) && k <= b@.len(),
{
    match read_u64(b) {
        None => None,
        Some((n, _)) => {
            if n > (b.len() - 8) as u64 {
                None
            } else {
                let m = n as usize;
                Some((slice_to_vec(slice_subrange(b, 8, 8 + m)), 8 + m))
            }
        },
    }
}

fn read_str(b: &[u8]) -> (r: Option<(String, usize)>)
    ensures
        r is Some <==> dec_str(b@) is Some,
        r matches Some((x, k)) ==> dec_str(b@) == Some((x@, k as nat)) && k <= b@.len(),
{
    match read_bytes(b) {
        None => None,
        Some((bytes, k)) => match text_from_utf8(bytes.as_slice()) {
            None => None,
            Some(t) => Some((t, k)),
        },
    }
}

fn read_hash(b: &[u8]) -> (r: Option<(Digest, usize)>)
    ensures
        r is Some <==> dec_hash(b@) is Some,
        r matches Some((x, k)) ==> dec_hash(b@) == Some((x@, k as nat)) && k <= b@.len(),
{
    if b.len() < 32 {
        return None;
    }
    let mut h: Digest = [0u8; 32];
    let mut i: usize = 0;
    while i < 32
        invariant
            b@.len() >= 32,
            i <= 32,
            h@.len() == 32,
            forall|j: int| 0 <= j < i ==> h@[j] == b@[j],
        decreases 32 - i,
    {
        h[i] = b[i];
        i = i + 1;
    }
    assert(h@ =~= b@.take(32));
    Some((h, 32))
}

fn read_value(b: &[u8]) -> (r: Option<(CrdtValue, usize)>)
    ensures
        r is Some <==> dec_value(b@) is Some,
        r matches Some((x, k)) ==> dec_value(b@) == Some((x@, k as nat)) && k <= b@.len(),
{
    match read_u32(b) {
        None => None,
        Some((tag, _)) => {
            let rest = slice_subrange(b, 4, b.len());
            if tag == 0 {
                match read_u64(rest) {
                    None => None,
                    Some((n, k)) => Some((CrdtValue::Counter(n), 4 + k)),
                }
            } else if tag == 1 {
                match read_bytes(rest) {
                    None => None,
                    Some((v, k)) => Some((CrdtValue::Register(v), 4 + k)),
                }
            } else {
                None
            }
        },
    }
}

fn read_change(b: &[u8]) -> (r: Option<(Change, usize)>)
    ensures
        r is Some <==> dec_change(b@) is Some,
        r matches Some((x, k)) ==> dec_change(b@) == Some((x@, k as nat)) && k <= b@.len(),
{
    let tag = match read_u32(b) {
        None => { return None; },
        Some((tag, _)) => tag,
    };
    if tag > 2 {
        return None;
    }
    let (table, k1) = match read_str(slice_subrange(b, 4, b.len())) {
        None => { return None; },
        Some(x) => x,
    };
    let (id, k2) = match read_str(slice_subrange(b, 4 + k1, b.len())) {
        None => { return None; },
        Some(x) => x,
    };
    if tag == 2 {
        return Some((Change::Delete { table, id }, 4 + k1 + k2));
    }
    let (value, k3) = match read_bytes(slice_subrange(b, 4 + k1 + k2, b.len())) {
        None => { return None; },
        Some(x) => x,
    };
    if tag == 0 {
        Some((Change::Insert { table, id, value }, 4 + k1 + k2 + k3))
    } else {
        Some((Change::Update { table, id, value }, 4 + k1 + k2 + k3))
    }
}

fn read_tree_entry(b: &[u8]) -> (r: Option<((String, Digest), usize)>)
    ensures
        r is Some <==> dec_tree_entry(b@) is Some,
        r matches Some((x, k)) ==> dec_tree_entry(b@) == Some(((x.0@, x.1@), k as nat)) && k <= b@.len(),
{
    let (name, k1) = match read_str(b) {
        None => { return None; },
        Some(x) => x,
    };
    let (h, k2) = match read_hash(slice_subrange(b, k1, b.len())) {
        None => { return None; },
        Some(x) => x,
    };
    Some(((name, h), k1 + k2))
}

spec fn prefix_items<T>(r: Option<(Seq<T>, nat)>) -> Seq<T> {
    match r {
        Some((vs, _)) => vs,
        None => Seq::empty(),
    }
}

/// Once a run of items fails to read, every longer run fails too.
proof fn lemma_dec_list_fails_on<T>(s: Seq<u8>, m: nat, n: nat, d: spec_fn(Seq<u8>) -> Option<(T, nat)>)
    requires
        dec_list(s, m, d) is None,
        m <= n,
    ensures
        dec_list(s, n, d) is None,
    decreases n - m,
{
    if m < n {
        lemma_dec_list_fails_on(s, m, (n - 1) as nat, d);
    }
}

fn read_hashes(b: &[u8], n: u64) -> (r: Option<(Vec<Digest>, usize)>)
    ensures
        r is Some <==> dec_list(b@, n as nat, |x: Seq<u8>| dec_hash(x)) is Some,
        r matches Some((v, k)) ==> dec_list(b@, n as nat, |x: Seq<u8>| dec_hash(x))
            == Some((v@.map_values(|h: Digest| h@), k as nat)) && k <= b@.len(),
{
    let ghost d = |x: Seq<u8>| dec_hash(x);
    let mut items: Vec<Digest> = Vec::new();
    let mut p: usize = 0;
    let mut i: u64 = 0;
    assert(items@.map_values(|h: Digest| h@) =~= Seq::<Seq<u8>>::empty());
    while i < n
        invariant
            d == (|x: Seq<u8>| dec_hash(x)),
            i <= n,
            p <= b@.len(),
            dec_list(b@, i as nat, d) == Some((items@.map_values(|h: Digest| h@), p as nat)),
        decreases n - i,
    {
        match read_hash(slice_subrange(b, p, b.len())) {
            None => {
                proof { lemma_dec_list_fails_on(b@, (i + 1) as nat, n as nat, d); }
                return None;
            },
            Some((x, k)) => {
                items.push(x);
                p = p + k;
                assert(items@.map_values(|h: Digest| h@) =~= prefix_items(dec_list(b@, i as nat, d)).push(x@));
                i = i + 1;
            },
        }
    }
    Some((items, p))
}

fn read_changes(b: &[u8], n: u64) -> (r: Option<(Vec<Change>, usize)>)
    ensures
        r is Some <==> dec_list(b@, n as nat, |x: Seq<u8>| dec_change(x)) is Some,
        r matches Some((v, k)) ==> dec_list(b@, n as nat, |x: Seq<u8>| dec_change(x))
            == Some((v@.map_values(|c: Change| c@), k as nat)) && k <= b@.len(),
{
    let ghost d = |x: Seq<u8>| dec_change(x);
    let mut items: Vec<Change> = Vec::new();
    let mut p: usize = 0;
    let mut i: u64 = 0;
    assert(items@.map_values(|c: Change| c@) =~= Seq::<ChangeV>::empty());
    while i < n
        invariant
            d == (|x: Seq<u8>| dec_change(x)),
            i <= n,
            p <= b@.len(),
            dec_list(b@, i as nat, d) == Some((items@.map_values(|c: Change| c@), p as nat)),
        decreases n - i,
    {
        match read_change(slice_subrange(b, p, b.len())) {
            None => {
                proof { lemma_dec_list_fails_on(b@, (i + 1) as nat, n as nat, d); }
                return None;
            },
            Some((x, k)) => {
                let ghost xv = x@;
                items.push(x);
                p = p + k;
                assert(items@.map_values(|c: Change| c@) =~= prefix_items(dec_list(b@, i as nat, d)).push(xv));
                i = i + 1;
            },
        }
    }
    Some((items, p))
}

fn read_tree(b: &[u8], n: u64) -> (r: Option<(Vec<(String, Digest)>, usize)>)
    ensures
        r is Some <==> dec_list(b@, n as nat, |x: Seq<u8>| dec_tree_entry(x)) is Some,
        r matches Some((v, k)) ==> dec_list(b@, n as nat, |x: Seq<u8>| dec_tree_entry(x))
            == Some((v@.map_values(|e: (String, Digest)| (e.0@, e.1@)), k as nat)) && k <= b@.len(),
{
    let ghost d = |x: Seq<u8>| dec_tree_entry(x);
    let mut items: Vec<(String, Digest)> = Vec::new();
    let mut p: usize = 0;
    let mut i: u64 = 0;
    assert(items@.map_values(|e: (String, Digest)| (e.0@, e.1@)) =~= Seq::<(Seq<char>, Seq<u8>)>::empty());
    while i < n
        invariant
            d == (|x: Seq<u8>| dec_tree_entry(x)),
            i <= n,
            p <= b@.len(),
            dec_list(b@, i as nat, d) == Some((items@.map_values(|e: (String, Digest)| (e.0@, e.1@)), p as nat)),
        decreases n - i,
    {
        match read_tree_entry(slice_subrange(b, p, b.len())) {
            None => {
                proof { lemma_dec_list_fails_on(b@, (i + 1) as nat, n as nat, d); }
                return None;
            },
            Some((x, k)) => {
                let ghost xv = (x.0@, x.1@);
                items.push(x);
                p = p + k;
                assert(items@.map_values(|e: (String, Digest)| (e.0@, e.1@)) =~= prefix_items(dec_list(b@, i as nat, d)).push(xv));
                i = i + 1;
            },
        }
    }
    Some((items, p))
}

/// Whether the tree's table names strictly increase in byte order.
pub fn tree_is_sorted(t: &Vec<(String, Digest)>) -> (r: bool)
    ensures
        r == tree_sorted(t@.map_values(|e: (String, Digest)| (e.0@, e.1@))),
{
    let ghost tv = t@.map_values(|e: (String, Digest)| (e.0@, e.1@));
    if t.len() == 0 {
        return true;
    }
    let mut i: usize = 0;
    while i < t.len() - 1
        invariant
            tv == t@.map_values(|e: (String, Digest)| (e.0@, e.1@)),
            t@.len() > 0,
            i < t@.len(),
            forall|j: int| 0 <= j < i ==> lex_lt(encode_utf8(#[trigger] tv[j].0), encode_utf8(tv[j + 1].0)),
        decreases t@.len() - i,
    {
        if !bytes_lt(t[i].0.as_str().as_bytes(), t[i + 1].0.as_str().as_bytes()) {
            assert(tv[i as int].0 == t@[i as int].0@);
            assert(tv[i + 1].0 == t@[i + 1].0@);
            assert(!lex_lt(encode_utf8(tv[i as int].0), encode_utf8(tv[i + 1].0)));
            return false;
        }
        i = i + 1;
    }
    true
}

fn read_commit(b: &[u8]) -> (r: Option<(Commit, usize)>)
    ensures
        r is Some <==> dec_commit(b@) is Some,
        r matches Some((x, k)) ==> dec_commit(b@) == Some((x@, k as nat)) && k <= b@.len(),
{
    let (np, a) = match read_u64(b) {
        None => { return None; },
        Some(x) => x,
    };
    let (parents, pb) = match read_hashes(slice_subrange(b, a, b.len()), np) {
        None => { return None; },
        Some(x) => x,
    };
    let (message, c) = match read_str(slice_subrange(b, a + pb, b.len())) {
        None => { return None; },
        Some(x) => x,
    };
    let (timestamp, d) = match read_u64(slice_subrange(b, a + pb + c, b.len())) {
        None => { return None; },
        Some(x) => x,
    };
    let k1 = a + pb + c + d;
    assert(dec_commit_head(b@) is Some);
    let tail = slice_subrange(b, k1, b.len());
    let (nc, e) = match read_u64(tail) {
        None => { return None; },
        Some(x) => x,
    };
    let (changes, f) = match read_changes(slice_subrange(tail, e, tail.len()), nc) {
        None => { return None; },
        Some(x) => x,
    };
    let (nt, g) = match read_u64(slice_subrange(tail, e + f, tail.len())) {
        None => { return None; },
        Some(x) => x,
    };
    let (tree, h) = match read_tree(slice_subrange(tail, e + f + g, tail.len()), nt) {
        None => { return None; },
        Some(x) => x,
    };
    if !tree_is_sorted(&tree) {
        return None;
    }
    let commit = Commit { parents, message, timestamp, changes, tree };
    Some((commit, k1 + e + f + g + h))
}

/// Decodes a buffer that holds exactly one encoded CRDT value.
pub fn decode_value(b: &[u8]) -> (r: Result<CrdtValue, BranchDBError>)
    ensures
        r is Ok <==> dec_exact(b@, dec_value(b@)) is Some,
        r matches Ok(v) ==> dec_exact(b@, dec_value(b@)) == Some(v@),
        r matches Err(e) ==> e is SerializationError,
{
    match read_value(b) {
        Some((v, k)) => if k == b.len() {
            Ok(v)
        } else {
            Err(BranchDBError::SerializationError("trailing bytes after value".to_owned()))
        },
        None => Err(BranchDBError::SerializationError("malformed value".to_owned())),
    }
}

/// Decodes a buffer that holds exactly one encoded change.
pub fn decode_change(b: &[u8]) -> (r: Result<Change, BranchDBError>)
    ensures
        r is Ok <==> dec_exact(b@, dec_change(b@)) is Some,
        r matches Ok(v) ==> dec_exact(b@, dec_change(b@)) == Some(v@),
        r matches Err(e) ==> e is SerializationError,
{
    match read_change(b) {
        Some((v, k)) => if k == b.len() {
            Ok(v)
        } else {
            Err(BranchDBError::SerializationError("trailing bytes after change".to_owned()))
        },
        None => Err(BranchDBError::SerializationError("malformed change".to_owned())),
    }
}

/// Decodes a buffer that holds exactly one encoded commit.
pub fn decode_commit(b: &[u8]) -> (r: Result<Commit, BranchDBError>)
    ensures
        r is Ok <==> dec_exact(b@, dec_commit(b@)) is Some,
        r matches Ok(v) ==> dec_exact(b@, dec_commit(b@)) == Some(v@),
        r matches Err(e) ==> e is SerializationError,
{
    match read_commit(b) {
        Some((v, k)) => if k == b.len() {
            Ok(v)
        } else {
            Err(BranchDBError::SerializationError("trailing bytes after commit".to_owned()))
        },
        None => Err(BranchDBError::SerializationError("malformed commit".to_owned())),
    }
}

} // verus!
