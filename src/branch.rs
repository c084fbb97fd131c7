//! Named refs `branch:<name>` that point at commits.
use vstd::prelude::*;
use vstd::utf8::*;
use vstd::slice::slice_subrange;
use crate::database::{commit_made, head_key};
use crate::error::BranchDBError;
use crate::kv::{kv_get, rows_with_prefix, KvStore};
use crate::models::ChangeV;
use crate::order::{bytes_eq, extend_bytes};

verus! {

/// The key prefix of branch refs, `branch:`.
pub open spec fn branch_prefix() -> Seq<u8> {
    seq![98u8, 114u8, 97u8, 110u8, 99u8, 104u8, 58u8]
}

/// The key of a branch ref.
pub open spec fn branch_key(name: Seq<char>) -> Seq<u8> {
    branch_prefix() + encode_utf8(name)
}

/// The characters that `str::trim` strips: Unicode White_Space.
pub open spec fn is_space(c: char) -> bool {
    ('\u{9}' <= c && c <= '\u{d}') || c == ' ' || c == '\u{85}' || c == '\u{a0}' || c == '\u{1680}'
        || ('\u{2000}' <= c && c <= '\u{200a}') || c == '\u{2028}' || c == '\u{2029}' || c == '\u{202f}'
        || c == '\u{205f}' || c == '\u{3000}'
}

/// `s` is empty once surrounding whitespace is trimmed.
pub open spec fn is_blank(s: Seq<char>) -> bool {
    forall|i: int| 0 <= i < s.len() ==> is_space(#[trigger] s[i])
}

fn char_is_space(c: char) -> (r: bool)
    ensures
        r == is_space(c),
{
    ('\u{9}' <= c && c <= '\u{d}') || c == ' ' || c == '\u{85}' || c == '\u{a0}' || c == '\u{1680}'
        || ('\u{2000}' <= c && c <= '\u{200a}') || c == '\u{2028}' || c == '\u{2029}' || c == '\u{202f}'
        || c == '\u{205f}' || c == '\u{3000}'
}

/// Whether `s` holds only whitespace.
pub fn blank(s: &str) -> (r: bool)
    ensures
        r == is_blank(s@),
{
    let n = s.unicode_len();
    let mut i: usize = 0;
    while i < n
        invariant
            n == s@.len(),
            i <= n,
            forall|j: int| 0 <= j < i ==> is_space(#[trigger] s@[j]),
        decreases n - i,
    {
        if !char_is_space(s.get_char(i)) {
            return false;
        }
        i = i + 1;
    }
    true
}

fn branch_prefix_bytes() -> (r: Vec<u8>)
    ensures
        r@ == branch_prefix(),
{
    let r = vec![98u8, 114u8, 97u8, 110u8, 99u8, 104u8, 58u8];
    assert(r@ =~= branch_prefix());
    r
}

/// The key of the branch ref `name`.
pub fn branch_key_bytes(name: &str) -> (r: Vec<u8>)
    ensures
        r@ == branch_key(name@),
{
    let mut r = branch_prefix_bytes();
    extend_bytes(&mut r, name.as_bytes());
    r
}

/// Relies on `String::from_utf8_lossy`: well-formed UTF-8 comes back as the
/// text it encodes.
#[verifier::external_body]
fn text_lossy(b: &[u8]) -> (r: String)
    ensures
        valid_utf8(b@) ==> encode_utf8(r@) == b@,
{
    String::from_utf8_lossy(b).into_owned()
}

/// The branch refs, in key order.
pub open spec fn branch_rows(kv: Seq<(Seq<u8>, Seq<u8>)>) -> Seq<(Seq<u8>, Seq<u8>)> {
    rows_with_prefix(kv, branch_prefix())
}

/// `rows[i]` is the first row whose value is `h`.
pub open spec fn first_holding(rows: Seq<(Seq<u8>, Seq<u8>)>, h: Seq<u8>, i: int) -> bool {
    0 <= i < rows.len() && rows[i].1 == h && forall|j: int| 0 <= j < i ==> rows[j].1 != h
}

/// The name part of a branch ref key.
pub open spec fn name_bytes(key: Seq<u8>) -> Seq<u8> {
    key.skip(7)
}

/// Creates and deletes branches and reports which one HEAD is on.
pub struct BranchManager {
    pub db: KvStore,
}

impl BranchManager {
    /// A branch manager over `db`.
    pub fn new(db: KvStore) -> (r: BranchManager)
        ensures
            r.db == db,
    {
        BranchManager { db }
    }

    /// Creates branch `name` at the commit HEAD names. A blank name, an
    /// existing branch or a missing HEAD is refused and nothing changes.
    pub fn create_branch(&mut self, name: &str) -> (r: Result<(), BranchDBError>)
        requires
            old(self).db.wf(),
        ensures
            final(self).db.wf(),
            r is Ok <==> !is_blank(name@) && kv_get(old(self).db@, branch_key(name@)) is None
                && kv_get(old(self).db@, head_key()) is Some,
            r is Ok ==> forall|k: Seq<u8>| #[trigger] kv_get(final(self).db@, k) == if k == branch_key(name@) {
                kv_get(old(self).db@, head_key())
            } else {
                kv_get(old(self).db@, k)
            },
            r matches Err(e) ==> final(self).db@ == old(self).db@ && (if is_blank(name@)
                || kv_get(old(self).db@, branch_key(name@)) is Some { e is InvalidInput } else { e is NotFound }),
    {
        if blank(name) {
            return Err(BranchDBError::InvalidInput("Branch name cannot be empty".to_owned()));
        }
        let key = branch_key_bytes(name);
        if self.db.get(key.as_slice()).is_some() {
            return Err(BranchDBError::InvalidInput("Branch already exists".to_owned()));
        }
        let hk = vec![72u8, 69u8, 65u8, 68u8];
        assert(hk@ =~= head_key());
        let head = match self.db.get(hk.as_slice()) {
            Some(h) => h,
            None => { return Err(BranchDBError::NotFound("Cannot create branch: HEAD not found".to_owned())); },
        };
        self.db.put(key.as_slice(), head.as_slice());
        Ok(())
    }

    /// Deletes branch `name`; an unknown branch is refused.
    pub fn delete_branch(&mut self, name: &str) -> (r: Result<(), BranchDBError>)
        requires
            old(self).db.wf(),
        ensures
            final(self).db.wf(),
            r is Ok <==> kv_get(old(self).db@, branch_key(name@)) is Some,
            r is Ok ==> forall|k: Seq<u8>| #[trigger] kv_get(final(self).db@, k) == if k == branch_key(name@) {
                None
            } else {
                kv_get(old(self).db@, k)
            },
            r matches Err(e) ==> final(self).db@ == old(self).db@ && e is InvalidInput,
    {
        let key = branch_key_bytes(name);
        if self.db.get(key.as_slice()).is_none() {
            return Err(BranchDBError::InvalidInput("Branch does not exist".to_owned()));
        }
        self.db.delete(key.as_slice());
        Ok(())
    }

    /// The names of all branches, in key order.
    pub fn list_branches(&self) -> (r: Vec<String>)
        requires
            self.db.wf(),
        ensures
            r@.len() == branch_rows(self.db@).len(),
            forall|i: int| 0 <= i < r@.len() && valid_utf8(name_bytes(branch_rows(self.db@)[i].0))
                ==> encode_utf8(#[trigger] r@[i]@) == name_bytes(branch_rows(self.db@)[i].0),
    {
        let prefix = branch_prefix_bytes();
        let rows = self.db.prefix_scan(prefix.as_slice());
        let ghost rv = rows@.map_values(|e: (Vec<u8>, Vec<u8>)| (e.0@, e.1@));
        proof { lemma_rows_have_prefix(self.db@, branch_prefix()); }
        let mut out: Vec<String> = Vec::new();
        let mut i: usize = 0;
        while i < rows.len()
            invariant
                rv == rows@.map_values(|e: (Vec<u8>, Vec<u8>)| (e.0@, e.1@)),
                rv == branch_rows(self.db@),
                forall|j: int| 0 <= j < rv.len() ==> (#[trigger] rv[j]).0.len() >= 7,
                i <= rows@.len(),
                out@.len() == i,
                forall|j: int| 0 <= j < i && valid_utf8(name_bytes(rv[j].0)) ==> encode_utf8(#[trigger] out@[j]@) == name_bytes(rv[j].0),
            decreases rows@.len() - i,
        {
            let key = &rows[i].0;
            assert(key@ == rv[i as int].0);
            out.push(text_lossy(slice_subrange(key.as_slice(), 7, key.len())));
            i = i + 1;
        }
        out
    }

    /// The branch whose ref holds the same bytes as HEAD: the first in key
    /// order, or none.
    pub fn get_current_branch(&self) -> (r: Option<String>)
        requires
            self.db.wf(),
        ensures
            match kv_get(self.db@, head_key()) {
                None => r is None,
                Some(h) => {
                    &&& r is Some <==> exists|i: int| 0 <= i < branch_rows(self.db@).len() && (#[trigger] branch_rows(self.db@)[i]).1 == h
                    &&& r matches Some(n) ==> exists|i: int| #[trigger] first_holding(branch_rows(self.db@), h, i)
                        && (valid_utf8(name_bytes(branch_rows(self.db@)[i].0)) ==> encode_utf8(n@) == name_bytes(branch_rows(self.db@)[i].0))
                },
            },
    {
        let hk = vec![72u8, 69u8, 65u8, 68u8];
        assert(hk@ =~= head_key());
        let head = match self.db.get(hk.as_slice()) {
            Some(h) => h,
            None => { return None; },
        };
        let prefix = branch_prefix_bytes();
        let rows = self.db.prefix_scan(prefix.as_slice());
        let ghost rv = rows@.map_values(|e: (Vec<u8>, Vec<u8>)| (e.0@, e.1@));
        proof { lemma_rows_have_prefix(self.db@, branch_prefix()); }
        let mut i: usize = 0;
        while i < rows.len()
            invariant
                rv == rows@.map_values(|e: (Vec<u8>, Vec<u8>)| (e.0@, e.1@)),
                rv == branch_rows(self.db@),
                forall|j: int| 0 <= j < rv.len() ==> (#[trigger] rv[j]).0.len() >= 7,
                i <= rows@.len(),
                forall|j: int| 0 <= j < i ==> (#[trigger] rv[j]).1 != head@,
                kv_get(self.db@, head_key()) == Some(head@),
            decreases rows@.len() - i,
        {
            assert(rows@[i as int].1@ == rv[i as int].1);
            if bytes_eq(rows[i].1.as_slice(), head.as_slice()) {
                let key = &rows[i].0;
                assert(key@ == rv[i as int].0);
                let nb = slice_subrange(key.as_slice(), 7, key.len());
                let n = text_lossy(nb);
                assert(rv[i as int].1 == head@);
                assert(nb@ == name_bytes(rv[i as int].0));
                assert(first_holding(branch_rows(self.db@), head@, i as int));
                return Some(n);
            }
            i = i + 1;
        }
        None
    }

    /// What branch `name` points at.
    pub fn get_branch_head(&self, branch_name: &str) -> (r: Option<Vec<u8>>)
        requires
            self.db.wf(),
        ensures
            match r {
                Some(v) => kv_get(self.db@, branch_key(branch_name@)) == Some(v@),
                None => kv_get(self.db@, branch_key(branch_name@)) is None,
            },
    {
        let key = branch_key_bytes(branch_name);
        self.db.get(key.as_slice())
    }
}

/// Every entry that a prefix scan returns starts with the prefix.
pub proof fn lemma_rows_have_prefix(e: Seq<(Seq<u8>, Seq<u8>)>, p: Seq<u8>)
    ensures
        forall|j: int| 0 <= j < rows_with_prefix(e, p).len() ==> crate::order::has_prefix(#[trigger] rows_with_prefix(e, p)[j].0, p),
    decreases e.len(),
{
    if e.len() > 0 {
        lemma_rows_have_prefix(e.drop_last(), p);
        let r = rows_with_prefix(e.drop_last(), p);
        if crate::order::has_prefix(e.last().0, p) {
            assert forall|j: int| 0 <= j < r.len() + 1 implies crate::order::has_prefix(#[trigger] r.push(e.last())[j].0, p) by {
                if j < r.len() {
                    assert(r.push(e.last())[j] == r[j]);
                }
            }
        }
    }
}

/// A branch keeps pointing where it was created: after `create_branch(n)`
/// a commit moves HEAD but leaves `branch:n` at the old HEAD, as long as the
/// new commit's hash is not itself the branch key.
pub proof fn lemma_branch_isolation(
    base: Seq<(Seq<u8>, Seq<u8>)>,
    before: Seq<(Seq<u8>, Seq<u8>)>,
    branched: Seq<(Seq<u8>, Seq<u8>)>,
    after: Seq<(Seq<u8>, Seq<u8>)>,
    n: Seq<char>,
    parents: Seq<Seq<u8>>,
    message: Seq<char>,
    timestamp: u64,
    cs: Seq<ChangeV>,
    h: Seq<u8>,
)
    requires
        forall|k: Seq<u8>| #[trigger] kv_get(branched, k) == if k == branch_key(n) {
            kv_get(before, head_key())
        } else {
            kv_get(before, k)
        },
        commit_made(base, branched, after, parents, message, timestamp, cs, h),
        h != branch_key(n),
    ensures
        kv_get(after, branch_key(n)) == kv_get(before, head_key()),
{
    assert(branch_key(n)[0] == 98u8);
    assert(branch_key(n) != head_key());
    assert(kv_get(after, branch_key(n)) == kv_get(branched, branch_key(n)));
}

} // verus!
