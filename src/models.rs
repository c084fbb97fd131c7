//! The records that the store keeps: CRDT values, changes and commits.
use vstd::prelude::*;
use crate::digest::Digest;

verus! {

/// A replicated value: a grow-only counter or a register whose merge keeps
/// the byte-lexicographically greater payload.
#[derive(Debug, Clone, PartialEq, Eq)]
pub enum CrdtValue {
    Counter(u64),
    Register(Vec<u8>),
}

/// Mathematical form of a `CrdtValue`.
pub enum ValueV {
    Counter(u64),
    Register(Seq<u8>),
}

impl View for CrdtValue {
    type V = ValueV;

    open spec fn view(&self) -> ValueV {
        match self {
            CrdtValue::Counter(n) => ValueV::Counter(*n),
            CrdtValue::Register(b) => ValueV::Register(b@),
        }
    }
}

impl CrdtValue {
    /// An independent copy with the same contents.
    pub fn duplicate(&self) -> (r: CrdtValue)
        ensures
            r@ == self@,
    {
        match self {
            CrdtValue::Counter(n) => CrdtValue::Counter(*n),
            CrdtValue::Register(b) => CrdtValue::Register(vstd::slice::slice_to_vec(b.as_slice())),
        }
    }

    /// Equality of kind and contents.
    pub fn same_as(&self, other: &CrdtValue) -> (r: bool)
        ensures
            r == (self@ == other@),
    {
        match (self, other) {
            (CrdtValue::Counter(a), CrdtValue::Counter(b)) => *a == *b,
            (CrdtValue::Register(a), CrdtValue::Register(b)) => crate::order::bytes_eq(a.as_slice(), b.as_slice()),
            _ => false,
        }
    }
}

/// One recorded write to a table row.
#[derive(Debug, Clone, PartialEq, Eq)]
pub enum Change {
    Insert { table: String, id: String, value: Vec<u8> },
    Update { table: String, id: String, value: Vec<u8> },
    Delete { table: String, id: String },
}

/// Mathematical form of a `Change`.
pub enum ChangeV {
    Insert { table: Seq<char>, id: Seq<char>, value: Seq<u8> },
    Update { table: Seq<char>, id: Seq<char>, value: Seq<u8> },
    Delete { table: Seq<char>, id: Seq<char> },
}

impl ChangeV {
    pub open spec fn table(self) -> Seq<char> {
        match self {
            ChangeV::Insert { table, .. } => table,
            ChangeV::Update { table, .. } => table,
            ChangeV::Delete { table, .. } => table,
        }
    }

    pub open spec fn id(self) -> Seq<char> {
        match self {
            ChangeV::Insert { id, .. } => id,
            ChangeV::Update { id, .. } => id,
            ChangeV::Delete { id, .. } => id,
        }
    }
}

impl View for Change {
    type V = ChangeV;

    open spec fn view(&self) -> ChangeV {
        match self {
            Change::Insert { table, id, value } => ChangeV::Insert { table: table@, id: id@, value: value@ },
            Change::Update { table, id, value } => ChangeV::Update { table: table@, id: id@, value: value@ },
            Change::Delete { table, id } => ChangeV::Delete { table: table@, id: id@ },
        }
    }
}

impl Change {
    /// The table that the change writes to.
    pub fn table(&self) -> (r: &str)
        ensures
            r@ == self@.table(),
    {
        match self {
            Change::Insert { table, .. } => table.as_str(),
            Change::Update { table, .. } => table.as_str(),
            Change::Delete { table, .. } => table.as_str(),
        }
    }

    /// The row id that the change writes to.
    pub fn id(&self) -> (r: &str)
        ensures
            r@ == self@.id(),
    {
        match self {
            Change::Insert { id, .. } => id.as_str(),
            Change::Update { id, .. } => id.as_str(),
            Change::Delete { id, .. } => id.as_str(),
        }
    }

    /// An independent copy with the same contents.
    pub fn duplicate(&self) -> (r: Change)
        ensures
            r@ == self@,
    {
        match self {
            Change::Insert { table, id, value } => Change::Insert {
                table: table.clone(),
                id: id.clone(),
                value: vstd::slice::slice_to_vec(value.as_slice()),
            },
            Change::Update { table, id, value } => Change::Update {
                table: table.clone(),
                id: id.clone(),
                value: vstd::slice::slice_to_vec(value.as_slice()),
            },
            Change::Delete { table, id } => Change::Delete { table: table.clone(), id: id.clone() },
        }
    }
}

/// An immutable, content-addressed record of changes.
#[derive(Debug, Clone, PartialEq, Eq)]
pub struct Commit {
    pub parents: Vec<Digest>,
    pub message: String,
    pub timestamp: u64,
    pub changes: Vec<Change>,
    /// Per-table content hashes, sorted by table name.
    pub tree: Vec<(String, Digest)>,
}

/// Mathematical form of a `Commit`.
pub struct CommitV {
    pub parents: Seq<Seq<u8>>,
    pub message: Seq<char>,
    pub timestamp: u64,
    pub changes: Seq<ChangeV>,
    pub tree: Seq<(Seq<char>, Seq<u8>)>,
}

impl View for Commit {
    type V = CommitV;

    open spec fn view(&self) -> CommitV {
        CommitV {
            parents: self.parents@.map_values(|h: Digest| h@),
            message: self.message@,
            timestamp: self.timestamp,
            changes: self.changes@.map_values(|c: Change| c@),
            tree: self.tree@.map_values(|e: (String, Digest)| (e.0@, e.1@)),
        }
    }
}

} // verus!
