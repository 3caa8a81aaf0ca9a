//! The requests that the replication layer hands to the state machine.

use vstd::prelude::*;

use crate::model::ContentExtractionPolicyMapping;
use crate::model::ContentId;
use crate::model::ContentMetadata;
use crate::model::ExecutorId;
use crate::model::ExtractionPolicy;
use crate::model::ExtractorDescription;
use crate::model::IndexDescriptor;
use crate::model::NamespaceName;
use crate::model::StateChange;
use crate::model::StateChangeProcessed;
use crate::model::StructuredDataSchema;
use crate::model::Task;
use crate::model::TaskId;

verus! {

/// What one request asks the state machine to do.
pub enum RequestPayload {
    CreateIndex { index: IndexDescriptor, namespace: NamespaceName, id: String },
    CreateTasks { tasks: Vec<Task> },
    AssignTask { assignments: Vec<(TaskId, ExecutorId)> },
    UpdateTask {
        task: Task,
        mark_finished: bool,
        executor_id: Option<ExecutorId>,
        content_metadata: Vec<ContentMetadata>,
    },
    RegisterExecutor {
        addr: String,
        executor_id: ExecutorId,
        extractor: ExtractorDescription,
        ts_secs: u64,
    },
    RemoveExecutor { executor_id: ExecutorId },
    CreateContent { content_metadata: Vec<ContentMetadata> },
    CreateExtractionPolicy {
        extraction_policy: ExtractionPolicy,
        updated_structured_data_schema: Option<StructuredDataSchema>,
        new_structured_data_schema: StructuredDataSchema,
    },
    SetContentExtractionPolicyMappings {
        content_extraction_policy_mappings: Vec<ContentExtractionPolicyMapping>,
    },
    MarkExtractionPolicyAppliedOnContent {
        content_id: ContentId,
        extraction_policy_name: String,
        policy_completion_time: u64,
    },
    CreateNamespace { name: NamespaceName, structured_data_schema: StructuredDataSchema },
    MarkStateChangesProcessed { state_changes: Vec<StateChangeProcessed> },
    /// A payload kind this core does not handle: both index sides
    /// leave it alone.
    Noop,
}

/// One entry of the replicated log.
pub struct StateMachineUpdateRequest {
    pub new_state_changes: Vec<StateChange>,
    pub state_changes_processed: Vec<StateChangeProcessed>,
    pub payload: RequestPayload,
}

} // verus!
