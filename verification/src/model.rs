//! The records of the forward index, with their ghost views.
//!
//! Every persisted entity is plain data: strings, integers, options and
//! the containers of `kv`.  Each record has a ghost mirror (its view)
//! over character sequences, which the contracts speak of, and a
//! `Stored` implementation so that a transaction can copy it.

use vstd::prelude::*;

use crate::kv::KvList;
use crate::kv::Stored;
use crate::kv::StringSet;

verus! {

pub type TaskId = String;

pub type ExecutorId = String;

pub type ExtractorName = String;

pub type NamespaceName = String;

pub type ContentId = String;

pub type SchemaId = String;

pub type StateChangeId = String;

/// How a task ended, if it ended.
#[derive(Clone, Copy, PartialEq, Eq, Debug)]
pub enum TaskOutcome {
    Unknown,
    Success,
    Failed,
}

/// Whether an outcome is terminal: a finished task never runs again.
pub open spec fn is_terminal(o: TaskOutcome) -> bool {
    o != TaskOutcome::Unknown
}

impl View for TaskOutcome {
    type V = TaskOutcome;

    open spec fn view(&self) -> TaskOutcome {
        *self
    }
}

/// A domain event: something changed, and watchers must learn of it.
pub struct StateChange {
    pub id: StateChangeId,
    pub kind: String,
    pub payload: String,
    pub created_at: u64,
    pub processed_at: Option<u64>,
}

pub ghost struct SpecStateChange {
    pub id: Seq<char>,
    pub kind: Seq<char>,
    pub payload: Seq<char>,
    pub created_at: u64,
    pub processed_at: Option<u64>,
}

impl View for StateChange {
    type V = SpecStateChange;

    open spec fn view(&self) -> SpecStateChange {
        SpecStateChange {
            id: self.id@,
            kind: self.kind@,
            payload: self.payload@,
            created_at: self.created_at,
            processed_at: self.processed_at,
        }
    }
}

impl Stored for StateChange {
    open spec fn inv(&self) -> bool {
        true
    }

    fn deep_clone(&self) -> (r: Self) {
        StateChange {
            id: self.id.clone(),
            kind: self.kind.clone(),
            payload: self.payload.clone(),
            created_at: self.created_at,
            processed_at: match self.processed_at {
                Some(t) => Some(t),
                None => None,
            },
        }
    }
}

/// The note that one state change was consumed at some time.
pub struct StateChangeProcessed {
    pub state_change_id: StateChangeId,
    pub processed_at: u64,
}

/// One unit of extraction work.
pub struct Task {
    pub id: TaskId,
    pub extractor: ExtractorName,
    pub namespace: NamespaceName,
    pub content_id: ContentId,
    pub outcome: TaskOutcome,
}

pub ghost struct SpecTask {
    pub id: Seq<char>,
    pub extractor: Seq<char>,
    pub namespace: Seq<char>,
    pub content_id: Seq<char>,
    pub outcome: TaskOutcome,
}

impl View for Task {
    type V = SpecTask;

    open spec fn view(&self) -> SpecTask {
        SpecTask {
            id: self.id@,
            extractor: self.extractor@,
            namespace: self.namespace@,
            content_id: self.content_id@,
            outcome: self.outcome,
        }
    }
}

impl Stored for Task {
    open spec fn inv(&self) -> bool {
        true
    }

    fn deep_clone(&self) -> (r: Self) {
        Task {
            id: self.id.clone(),
            extractor: self.extractor.clone(),
            namespace: self.namespace.clone(),
            content_id: self.content_id.clone(),
            outcome: self.outcome,
        }
    }
}

/// What a worker type can do.
pub struct ExtractorDescription {
    pub name: ExtractorName,
    pub description: String,
}

pub ghost struct SpecExtractorDescription {
    pub name: Seq<char>,
    pub description: Seq<char>,
}

impl View for ExtractorDescription {
    type V = SpecExtractorDescription;

    open spec fn view(&self) -> SpecExtractorDescription {
        SpecExtractorDescription { name: self.name@, description: self.description@ }
    }
}

impl Stored for ExtractorDescription {
    open spec fn inv(&self) -> bool {
        true
    }

    fn deep_clone(&self) -> (r: Self) {
        ExtractorDescription { name: self.name.clone(), description: self.description.clone() }
    }
}

/// A running instance of an extractor.
pub struct ExecutorMetadata {
    pub id: ExecutorId,
    pub last_seen: u64,
    pub addr: String,
    pub extractor: ExtractorDescription,
}

pub ghost struct SpecExecutorMetadata {
    pub id: Seq<char>,
    pub last_seen: u64,
    pub addr: Seq<char>,
    pub extractor: SpecExtractorDescription,
}

impl View for ExecutorMetadata {
    type V = SpecExecutorMetadata;

    open spec fn view(&self) -> SpecExecutorMetadata {
        SpecExecutorMetadata {
            id: self.id@,
            last_seen: self.last_seen,
            addr: self.addr@,
            extractor: self.extractor@,
        }
    }
}

impl Stored for ExecutorMetadata {
    open spec fn inv(&self) -> bool {
        true
    }

    fn deep_clone(&self) -> (r: Self) {
        ExecutorMetadata {
            id: self.id.clone(),
            last_seen: self.last_seen,
            addr: self.addr.clone(),
            extractor: self.extractor.deep_clone(),
        }
    }
}

/// What is known of one piece of content.
pub struct ContentMetadata {
    pub id: ContentId,
    pub namespace: NamespaceName,
    pub parent_id: Option<ContentId>,
}

pub ghost struct SpecContentMetadata {
    pub id: Seq<char>,
    pub namespace: Seq<char>,
    pub parent_id: Option<Seq<char>>,
}

impl View for ContentMetadata {
    type V = SpecContentMetadata;

    open spec fn view(&self) -> SpecContentMetadata {
        SpecContentMetadata {
            id: self.id@,
            namespace: self.namespace@,
            parent_id: match self.parent_id {
                Some(ref p) => Some(p@),
                None => None,
            },
        }
    }
}

impl Stored for ContentMetadata {
    open spec fn inv(&self) -> bool {
        true
    }

    fn deep_clone(&self) -> (r: Self) {
        ContentMetadata {
            id: self.id.clone(),
            namespace: self.namespace.clone(),
            parent_id: match self.parent_id {
                Some(ref p) => Some(p.clone()),
                None => None,
            },
        }
    }
}

/// A rule binding an extractor to a namespace.
pub struct ExtractionPolicy {
    pub id: String,
    pub namespace: NamespaceName,
    pub name: String,
    pub extractor: ExtractorName,
}

pub ghost struct SpecExtractionPolicy {
    pub id: Seq<char>,
    pub namespace: Seq<char>,
    pub name: Seq<char>,
    pub extractor: Seq<char>,
}

impl View for ExtractionPolicy {
    type V = SpecExtractionPolicy;

    open spec fn view(&self) -> SpecExtractionPolicy {
        SpecExtractionPolicy {
            id: self.id@,
            namespace: self.namespace@,
            name: self.name@,
            extractor: self.extractor@,
        }
    }
}

impl Stored for ExtractionPolicy {
    open spec fn inv(&self) -> bool {
        true
    }

    fn deep_clone(&self) -> (r: Self) {
        ExtractionPolicy {
            id: self.id.clone(),
            namespace: self.namespace.clone(),
            name: self.name.clone(),
            extractor: self.extractor.clone(),
        }
    }
}

/// The shape of structured records an extractor emits in a namespace.
pub struct StructuredDataSchema {
    pub id: SchemaId,
    pub namespace: NamespaceName,
    pub columns: Vec<String>,
}

pub ghost struct SpecStructuredDataSchema {
    pub id: Seq<char>,
    pub namespace: Seq<char>,
    pub columns: Seq<Seq<char>>,
}

impl View for StructuredDataSchema {
    type V = SpecStructuredDataSchema;

    open spec fn view(&self) -> SpecStructuredDataSchema {
        SpecStructuredDataSchema {
            id: self.id@,
            namespace: self.namespace@,
            columns: self.columns@.map_values(|c: String| c@),
        }
    }
}

impl Stored for StructuredDataSchema {
    open spec fn inv(&self) -> bool {
        true
    }

    fn deep_clone(&self) -> (r: Self) {
        let mut columns: Vec<String> = Vec::new();
        let n = self.columns.len();
        for i in 0..n
            invariant
                n == self.columns@.len(),
                columns@.len() == i,
                forall|j: int| 0 <= j < i ==> columns@[j]@ == self.columns@[j]@,
        {
            columns.push(self.columns[i].clone());
        }
        let r = StructuredDataSchema {
            id: self.id.clone(),
            namespace: self.namespace.clone(),
            columns,
        };
        proof {
            assert(r@.columns =~= self@.columns);
        }
        r
    }
}

/// A derived index over extracted data.
pub struct IndexDescriptor {
    pub name: String,
    pub namespace: NamespaceName,
    pub schema: SchemaId,
}

pub ghost struct SpecIndexDescriptor {
    pub name: Seq<char>,
    pub namespace: Seq<char>,
    pub schema: Seq<char>,
}

impl View for IndexDescriptor {
    type V = SpecIndexDescriptor;

    open spec fn view(&self) -> SpecIndexDescriptor {
        SpecIndexDescriptor { name: self.name@, namespace: self.namespace@, schema: self.schema@ }
    }
}

impl Stored for IndexDescriptor {
    open spec fn inv(&self) -> bool {
        true
    }

    fn deep_clone(&self) -> (r: Self) {
        IndexDescriptor {
            name: self.name.clone(),
            namespace: self.namespace.clone(),
            schema: self.schema.clone(),
        }
    }
}

/// Which policies were applied on one piece of content, and when each
/// finished.
pub struct ContentExtractionPolicyMapping {
    pub content_id: ContentId,
    pub extraction_policy_names: StringSet,
    pub time_of_policy_completion: KvList<u64>,
}

pub ghost struct SpecMapping {
    pub content_id: Seq<char>,
    pub extraction_policy_names: Set<Seq<char>>,
    pub time_of_policy_completion: Map<Seq<char>, u64>,
}

impl View for ContentExtractionPolicyMapping {
    type V = SpecMapping;

    open spec fn view(&self) -> SpecMapping {
        SpecMapping {
            content_id: self.content_id@,
            extraction_policy_names: self.extraction_policy_names@,
            time_of_policy_completion: self.time_of_policy_completion@,
        }
    }
}

impl Stored for ContentExtractionPolicyMapping {
    open spec fn inv(&self) -> bool {
        self.extraction_policy_names.wf() && self.time_of_policy_completion.inv()
    }

    fn deep_clone(&self) -> (r: Self) {
        ContentExtractionPolicyMapping {
            content_id: self.content_id.clone(),
            extraction_policy_names: self.extraction_policy_names.duplicate(),
            time_of_policy_completion: self.time_of_policy_completion.deep_clone(),
        }
    }
}

/// The failure kinds that a request can surface.
#[derive(Clone, Copy, PartialEq, Eq, Debug)]
pub enum StateMachineError {
    /// A persisted byte string did not decode to a record.
    CodecError,
    /// The engine failed a read or write, or an expected record was
    /// missing.
    DatabaseError,
    /// The commit itself failed.
    TransactionError,
    /// A completion was recorded for a policy never registered on the
    /// content.
    PolicyNotRegistered,
    /// A named state change or executor is absent.
    NotFound,
}

} // verus!
