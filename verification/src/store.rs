//! The forward index: named keyspaces over a transactional engine.
//!
//! The store is the in-memory model of the engine that holds the
//! persisted records: eleven named columns, each a keyspace from
//! string ids to typed records.  A transaction starts from a snapshot
//! of the whole store, collects writes, and commits by replacing the
//! store with the snapshot in one step, so writes are atomic and
//! isolated, and reads inside a transaction observe that transaction's
//! own pending writes.  A dropped transaction leaves the store as it
//! was.  This engine never loses a commit, so the commit of this model
//! always succeeds; `StateMachineError::TransactionError` names the
//! failure a fallible engine would surface.

use vstd::prelude::*;

use crate::kv::KvList;
use crate::kv::Stored;
use crate::kv::StringSet;
use crate::model::ContentExtractionPolicyMapping;
use crate::model::ContentMetadata;
use crate::model::ExecutorMetadata;
use crate::model::ExtractionPolicy;
use crate::model::ExtractorDescription;
use crate::model::IndexDescriptor;
use crate::model::SpecContentMetadata;
use crate::model::SpecExecutorMetadata;
use crate::model::SpecExtractionPolicy;
use crate::model::SpecExtractorDescription;
use crate::model::SpecIndexDescriptor;
use crate::model::SpecMapping;
use crate::model::SpecStateChange;
use crate::model::SpecStructuredDataSchema;
use crate::model::SpecTask;
use crate::model::StateChange;
use crate::model::StructuredDataSchema;
use crate::model::Task;

verus! {

/// The eleven columns of the forward index.
pub struct ColumnStore {
    pub state_changes: KvList<StateChange>,
    pub tasks: KvList<Task>,
    pub task_assignments: KvList<StringSet>,
    pub executors: KvList<ExecutorMetadata>,
    pub extractors: KvList<ExtractorDescription>,
    pub content_table: KvList<ContentMetadata>,
    pub extraction_policies: KvList<ExtractionPolicy>,
    pub namespaces: KvList<String>,
    pub structured_data_schemas: KvList<StructuredDataSchema>,
    pub index_table: KvList<IndexDescriptor>,
    pub policies_applied: KvList<ContentExtractionPolicyMapping>,
}

/// What the forward index holds, one map per column.
pub ghost struct SpecStore {
    pub state_changes: Map<Seq<char>, SpecStateChange>,
    pub tasks: Map<Seq<char>, SpecTask>,
    pub task_assignments: Map<Seq<char>, Set<Seq<char>>>,
    pub executors: Map<Seq<char>, SpecExecutorMetadata>,
    pub extractors: Map<Seq<char>, SpecExtractorDescription>,
    pub content_table: Map<Seq<char>, SpecContentMetadata>,
    pub extraction_policies: Map<Seq<char>, SpecExtractionPolicy>,
    pub namespaces: Map<Seq<char>, Seq<char>>,
    pub structured_data_schemas: Map<Seq<char>, SpecStructuredDataSchema>,
    pub index_table: Map<Seq<char>, SpecIndexDescriptor>,
    pub policies_applied: Map<Seq<char>, SpecMapping>,
}

impl View for ColumnStore {
    type V = SpecStore;

    open spec fn view(&self) -> SpecStore {
        SpecStore {
            state_changes: self.state_changes@,
            tasks: self.tasks@,
            task_assignments: self.task_assignments@,
            executors: self.executors@,
            extractors: self.extractors@,
            content_table: self.content_table@,
            extraction_policies: self.extraction_policies@,
            namespaces: self.namespaces@,
            structured_data_schemas: self.structured_data_schemas@,
            index_table: self.index_table@,
            policies_applied: self.policies_applied@,
        }
    }
}

/// The store that every fresh replica starts from.
pub open spec fn empty_store() -> SpecStore {
    SpecStore {
        state_changes: Map::empty(),
        tasks: Map::empty(),
        task_assignments: Map::empty(),
        executors: Map::empty(),
        extractors: Map::empty(),
        content_table: Map::empty(),
        extraction_policies: Map::empty(),
        namespaces: Map::empty(),
        structured_data_schemas: Map::empty(),
        index_table: Map::empty(),
        policies_applied: Map::empty(),
    }
}

impl ColumnStore {
    pub open spec fn inv(&self) -> bool {
        &&& self.state_changes.inv()
        &&& self.tasks.inv()
        &&& self.task_assignments.inv()
        &&& self.executors.inv()
        &&& self.extractors.inv()
        &&& self.content_table.inv()
        &&& self.extraction_policies.inv()
        &&& self.namespaces.inv()
        &&& self.structured_data_schemas.inv()
        &&& self.index_table.inv()
        &&& self.policies_applied.inv()
    }

    /// A store with every column empty.
    pub fn new() -> (r: ColumnStore)
        ensures
            r.inv(),
            r@ == empty_store(),
    {
        ColumnStore {
            state_changes: KvList::new(),
            tasks: KvList::new(),
            task_assignments: KvList::new(),
            executors: KvList::new(),
            extractors: KvList::new(),
            content_table: KvList::new(),
            extraction_policies: KvList::new(),
            namespaces: KvList::new(),
            structured_data_schemas: KvList::new(),
            index_table: KvList::new(),
            policies_applied: KvList::new(),
        }
    }

    /// A copy of every column, with the same contents.
    pub fn snapshot(&self) -> (r: ColumnStore)
        ensures
            r@ == self@,
            r.inv() == self.inv(),
    {
        ColumnStore {
            state_changes: self.state_changes.deep_clone(),
            tasks: self.tasks.deep_clone(),
            task_assignments: self.task_assignments.deep_clone(),
            executors: self.executors.deep_clone(),
            extractors: self.extractors.deep_clone(),
            content_table: self.content_table.deep_clone(),
            extraction_policies: self.extraction_policies.deep_clone(),
            namespaces: self.namespaces.deep_clone(),
            structured_data_schemas: self.structured_data_schemas.deep_clone(),
            index_table: self.index_table.deep_clone(),
            policies_applied: self.policies_applied.deep_clone(),
        }
    }
}

/// An open transaction: a private working copy of the store.
pub struct Txn {
    pub cols: ColumnStore,
}

impl Txn {
    /// Open a transaction on the current store.
    pub fn begin(db: &ColumnStore) -> (t: Txn)
        ensures
            t.cols@ == db@,
            t.cols.inv() == db.inv(),
    {
        Txn { cols: db.snapshot() }
    }

    /// Make every write of the transaction durable in one atomic step.
    pub fn commit(self, db: &mut ColumnStore)
        ensures
            *final(db) == self.cols,
    {
        *db = self.cols;
    }
}

} // verus!
