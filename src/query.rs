//! Read-only views of a table at a commit.
use vstd::prelude::*;
use crate::crdt::CrdtEngine;
use crate::database::{head_key, materialized, CommitStorage};
use crate::digest::{hex_bytes, is_hex_text, parse_hash, Digest};
use crate::error::BranchDBError;
use crate::kv::kv_get;

verus! {

broadcast use vstd::utf8::encode_utf8_decode_utf8, vstd::utf8::encode_utf8_valid_utf8;

/// Answers reads against a commit store.
pub struct QueryProcessor<'a> {
    pub storage: &'a CommitStorage,
}

impl<'a> QueryProcessor<'a> {
    /// A processor over `storage`.
    pub fn new(storage: &'a CommitStorage) -> (r: QueryProcessor<'a>)
        ensures
            r.storage == storage,
    {
        QueryProcessor { storage }
    }

    /// The state of `table` at the commit named by `hex_hash` (64
    /// hexadecimal digits): its changes along the ancestry, oldest first.
    pub fn execute_at(&self, table: &str, hex_hash: &str) -> (r: Result<CrdtEngine, BranchDBError>)
        requires
            self.storage.db.wf(),
        ensures
            !(hex_hash@.len() == 64 && is_hex_text(hex_hash@)) ==> (r matches Err(e) && e is InvalidInput),
            hex_hash@.len() == 64 && is_hex_text(hex_hash@) ==> match materialized(self.storage.db@, table@, hex_bytes(hex_hash@)) {
                Ok(s) => r matches Ok(e) && e.wf() && e@ == s,
                Err(k) => r matches Err(e) && e.kind() == k,
            },
    {
        let h = parse_hash(hex_hash)?;
        self.storage.get_table_at_commit(table, &h)
    }

    /// The state of `table` at the commit whose 32-byte hash is
    /// `commit_hash`: its changes along the ancestry, oldest first.
    pub fn get_table_at_commit(&self, table: &str, commit_hash: &[u8]) -> (r: Result<CrdtEngine, BranchDBError>)
        requires
            self.storage.db.wf(),
        ensures
            commit_hash@.len() != 32 ==> (r matches Err(e) && e is InvalidInput),
            commit_hash@.len() == 32 ==> match materialized(self.storage.db@, table@, commit_hash@) {
                Ok(s) => r matches Ok(e) && e.wf() && e@ == s,
                Err(k) => r matches Err(e) && e.kind() == k,
            },
    {
        if commit_hash.len() != 32 {
            return Err(BranchDBError::InvalidInput("Commit hash must be 32 bytes".to_owned()));
        }
        let mut h: Digest = [0u8; 32];
        let mut i: usize = 0;
        while i < 32
            invariant
                commit_hash@.len() == 32,
                i <= 32,
                h@.len() == 32,
                forall|j: int| 0 <= j < i ==> h@[j] == commit_hash@[j],
            decreases 32 - i,
        {
            h[i] = commit_hash[i];
            i = i + 1;
        }
        assert(h@ =~= commit_hash@);
        self.storage.get_table_at_commit(table, &h)
    }

    /// What HEAD holds.
    pub fn get_head_hash(&self) -> (r: Result<Vec<u8>, BranchDBError>)
        requires
            self.storage.db.wf(),
        ensures
            match kv_get(self.storage.db@, head_key()) {
                Some(v) => r matches Ok(x) && x@ == v,
                None => r matches Err(e) && e is NotFound,
            },
    {
        let hk = vec![72u8, 69u8, 65u8, 68u8];
        assert(hk@ =~= head_key());
        match self.storage.db.get(hk.as_slice()) {
            Some(v) => Ok(v),
            None => Err(BranchDBError::NotFound("No HEAD commit".to_owned())),
        }
    }
}

} // verus!
