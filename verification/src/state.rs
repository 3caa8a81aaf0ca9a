//! The state machine: forward-index writers, the request dispatcher,
//! and the in-memory reverse indexes.
//!
//! `IndexifyState` holds the nine reverse indexes.  A request is
//! applied by `apply_state_machine_updates`: it opens a transaction on
//! the column store, persists the new and processed state changes,
//! runs the payload's writers, commits, and only then mutates the
//! reverse indexes through `apply`.  An error drops the transaction
//! and leaves both the store and the indexes exactly as they were.
//!
//! The contracts speak through two spec functions: `forward_res`, the
//! meaning of one request on the forward index (which store comes out,
//! or which error), and `indexes_after`, the meaning of the committed
//! request on the reverse indexes.

use vstd::prelude::*;

use crate::kv::KvList;
use crate::kv::Stored;
use crate::kv::StringSet;
use crate::model::ContentExtractionPolicyMapping;
use crate::model::ContentMetadata;
use crate::model::ExecutorMetadata;
use crate::model::ExtractionPolicy;
use crate::model::ExtractorDescription;
use crate::model::IndexDescriptor;
use crate::model::StructuredDataSchema;
use crate::model::SpecExecutorMetadata;
use crate::model::SpecMapping;
use crate::model::SpecStateChange;
use crate::model::StateChange;
use crate::model::StateChangeProcessed;
use crate::model::StateMachineError;
use crate::model::Task;
use crate::store::ColumnStore;
use crate::store::SpecStore;
use crate::store::Txn;
use crate::requests::RequestPayload;
use crate::requests::StateMachineUpdateRequest;

verus! {

// ---------------------------------------------------------------
// The meaning of a request on the forward index.
// ---------------------------------------------------------------

/// The set under a key of a table of sets; a missing key reads as the
/// empty set.
pub open spec fn set_at(m: Map<Seq<char>, Set<Seq<char>>>, k: Seq<char>) -> Set<Seq<char>> {
    if m.contains_key(k) {
        m[k]
    } else {
        Set::empty()
    }
}

/// The count under a key of a count table; a missing key reads as 0.
pub open spec fn count_at(m: Map<Seq<char>, u64>, k: Seq<char>) -> u64 {
    if m.contains_key(k) {
        m[k]
    } else {
        0
    }
}

/// The state-change column after the new changes are persisted.
pub open spec fn sc_with_new(
    m: Map<Seq<char>, SpecStateChange>,
    cs: Seq<StateChange>,
) -> Map<Seq<char>, SpecStateChange>
    decreases cs.len(),
{
    if cs.len() == 0 {
        m
    } else {
        sc_with_new(m, cs.drop_last()).insert(cs.last().id@, cs.last()@)
    }
}

/// Whether every processed entry names a change that is present by
/// the time it is read.
pub open spec fn sc_mark_ok(
    m: Map<Seq<char>, SpecStateChange>,
    ps: Seq<StateChangeProcessed>,
) -> bool
    decreases ps.len(),
{
    if ps.len() == 0 {
        true
    } else {
        sc_mark_ok(m, ps.drop_last()) && sc_marked(m, ps.drop_last()).contains_key(
            ps.last().state_change_id@,
        )
    }
}

/// The state-change column after each named change has its
/// `processed_at` overwritten; an absent id leaves the column alone.
pub open spec fn sc_marked(
    m: Map<Seq<char>, SpecStateChange>,
    ps: Seq<StateChangeProcessed>,
) -> Map<Seq<char>, SpecStateChange>
    decreases ps.len(),
{
    if ps.len() == 0 {
        m
    } else {
        let m2 = sc_marked(m, ps.drop_last());
        let id = ps.last().state_change_id@;
        if m2.contains_key(id) {
            m2.insert(
                id,
                SpecStateChange { processed_at: Some(ps.last().processed_at), ..m2[id] },
            )
        } else {
            m2
        }
    }
}

/// The task column after a batch of tasks is written.
pub open spec fn tasks_put(
    m: Map<Seq<char>, crate::model::SpecTask>,
    ts: Seq<Task>,
) -> Map<Seq<char>, crate::model::SpecTask>
    decreases ts.len(),
{
    if ts.len() == 0 {
        m
    } else {
        tasks_put(m, ts.drop_last()).insert(ts.last().id@, ts.last()@)
    }
}

/// The content column after a batch of content metadata is written.
pub open spec fn contents_put(
    m: Map<Seq<char>, crate::model::SpecContentMetadata>,
    cs: Seq<ContentMetadata>,
) -> Map<Seq<char>, crate::model::SpecContentMetadata>
    decreases cs.len(),
{
    if cs.len() == 0 {
        m
    } else {
        contents_put(m, cs.drop_last()).insert(cs.last().id@, cs.last()@)
    }
}

/// The assignment column after a list of `(task, executor)` pairs,
/// one pair at a time: each task id joins its executor's set.
pub open spec fn assign_fold(
    m: Map<Seq<char>, Set<Seq<char>>>,
    asg: Seq<(String, String)>,
) -> Map<Seq<char>, Set<Seq<char>>>
    decreases asg.len(),
{
    if asg.len() == 0 {
        m
    } else {
        let m2 = assign_fold(m, asg.drop_last());
        let e = asg.last().1@;
        m2.insert(e, set_at(m2, e).insert(asg.last().0@))
    }
}

/// The record that merging starts from: the persisted one, or an
/// empty mapping for this content id.
pub open spec fn mapping_at(m: Map<Seq<char>, SpecMapping>, c: Seq<char>) -> SpecMapping {
    if m.contains_key(c) {
        m[c]
    } else {
        SpecMapping {
            content_id: c,
            extraction_policy_names: Set::empty(),
            time_of_policy_completion: Map::empty(),
        }
    }
}

/// A mapping extended by another: names are unioned, and for
/// completion times the later write wins per key.
pub open spec fn merge_mapping_spec(base: SpecMapping, add: SpecMapping) -> SpecMapping {
    SpecMapping {
        content_id: base.content_id,
        extraction_policy_names: base.extraction_policy_names.union(add.extraction_policy_names),
        time_of_policy_completion: base.time_of_policy_completion.union_prefer_right(
            add.time_of_policy_completion,
        ),
    }
}

/// The applied-policies column after a batch of mappings: every read
/// sees the column as it stood before the batch, and the writes land
/// left to right.
pub open spec fn mappings_merged(
    orig: Map<Seq<char>, SpecMapping>,
    ms: Seq<ContentExtractionPolicyMapping>,
) -> Map<Seq<char>, SpecMapping>
    decreases ms.len(),
{
    if ms.len() == 0 {
        orig
    } else {
        let merged = merge_mapping_spec(mapping_at(orig, ms.last().content_id@), ms.last()@);
        mappings_merged(orig, ms.drop_last()).insert(merged.content_id, merged)
    }
}

/// What one payload does to the forward index, or the error it
/// surfaces.
pub open spec fn payload_res(s: SpecStore, p: RequestPayload) -> Result<
    SpecStore,
    StateMachineError,
> {
    match p {
        RequestPayload::CreateIndex { index, namespace, id } => Ok(
            SpecStore { index_table: s.index_table.insert(id@, index@), ..s },
        ),
        RequestPayload::CreateTasks { tasks } => Ok(
            SpecStore { tasks: tasks_put(s.tasks, tasks@), ..s },
        ),
        RequestPayload::AssignTask { assignments } => Ok(
            SpecStore { task_assignments: assign_fold(s.task_assignments, assignments@), ..s },
        ),
        RequestPayload::UpdateTask { task, mark_finished, executor_id, content_metadata } => {
            let s1 = SpecStore { tasks: s.tasks.insert(task.id@, task@), ..s };
            let s2 = if mark_finished && executor_id is Some {
                let e = executor_id->0@;
                SpecStore {
                    task_assignments: s1.task_assignments.insert(
                        e,
                        set_at(s1.task_assignments, e).remove(task.id@),
                    ),
                    ..s1
                }
            } else {
                s1
            };
            Ok(SpecStore { content_table: contents_put(s2.content_table, content_metadata@), ..s2 })
        },
        RequestPayload::RegisterExecutor { addr, executor_id, extractor, ts_secs } => Ok(
            SpecStore {
                executors: s.executors.insert(
                    executor_id@,
                    SpecExecutorMetadata {
                        id: executor_id@,
                        last_seen: ts_secs,
                        addr: addr@,
                        extractor: extractor@,
                    },
                ),
                extractors: s.extractors.insert(extractor.name@, extractor@),
                ..s
            },
        ),
        RequestPayload::RemoveExecutor { executor_id } => {
            if s.executors.contains_key(executor_id@) {
                Ok(
                    SpecStore {
                        executors: s.executors.remove(executor_id@),
                        task_assignments: s.task_assignments.remove(executor_id@),
                        ..s
                    },
                )
            } else {
                Err(StateMachineError::NotFound)
            }
        },
        RequestPayload::CreateContent { content_metadata } => Ok(
            SpecStore { content_table: contents_put(s.content_table, content_metadata@), ..s },
        ),
        RequestPayload::CreateExtractionPolicy {
            extraction_policy,
            updated_structured_data_schema,
            new_structured_data_schema,
        } => {
            let m1 = match updated_structured_data_schema {
                Some(u) => s.structured_data_schemas.insert(u.id@, u@),
                None => s.structured_data_schemas,
            };
            Ok(
                SpecStore {
                    extraction_policies: s.extraction_policies.insert(
                        extraction_policy.id@,
                        extraction_policy@,
                    ),
                    structured_data_schemas: m1.insert(
                        new_structured_data_schema.id@,
                        new_structured_data_schema@,
                    ),
                    ..s
                },
            )
        },
        RequestPayload::SetContentExtractionPolicyMappings { content_extraction_policy_mappings } => Ok(
            SpecStore {
                policies_applied: mappings_merged(
                    s.policies_applied,
                    content_extraction_policy_mappings@,
                ),
                ..s
            },
        ),
        RequestPayload::MarkExtractionPolicyAppliedOnContent {
            content_id,
            extraction_policy_name,
            policy_completion_time,
        } => {
            if !s.policies_applied.contains_key(content_id@) {
                Err(StateMachineError::DatabaseError)
            } else if !s.policies_applied[content_id@].extraction_policy_names.contains(
                extraction_policy_name@,
            ) {
                Err(StateMachineError::PolicyNotRegistered)
            } else {
                let old_m = s.policies_applied[content_id@];
                Ok(
                    SpecStore {
                        policies_applied: s.policies_applied.insert(
                            content_id@,
                            SpecMapping {
                                time_of_policy_completion:
                                    old_m.time_of_policy_completion.insert(
                                    extraction_policy_name@,
                                    policy_completion_time,
                                ),
                                ..old_m
                            },
                        ),
                        ..s
                    },
                )
            }
        },
        RequestPayload::CreateNamespace { name, structured_data_schema } => Ok(
            SpecStore {
                namespaces: s.namespaces.insert(name@, name@),
                structured_data_schemas: s.structured_data_schemas.insert(
                    structured_data_schema.id@,
                    structured_data_schema@,
                ),
                ..s
            },
        ),
        RequestPayload::MarkStateChangesProcessed { state_changes } => {
            if !sc_mark_ok(s.state_changes, state_changes@) {
                Err(StateMachineError::NotFound)
            } else {
                Ok(SpecStore { state_changes: sc_marked(s.state_changes, state_changes@), ..s })
            }
        },
        RequestPayload::Noop => Ok(s),
    }
}

/// What one whole request does to the forward index: the store that a
/// successful commit leaves, or the error that aborts the
/// transaction.
pub open spec fn forward_res(s: SpecStore, req: StateMachineUpdateRequest) -> Result<
    SpecStore,
    StateMachineError,
> {
    let s1 = SpecStore {
        state_changes: sc_with_new(s.state_changes, req.new_state_changes@),
        ..s
    };
    if !sc_mark_ok(s1.state_changes, req.state_changes_processed@) {
        Err(StateMachineError::NotFound)
    } else {
        let s2 = SpecStore {
            state_changes: sc_marked(s1.state_changes, req.state_changes_processed@),
            ..s1
        };
        payload_res(s2, req.payload)
    }
}

// ---------------------------------------------------------------
// The meaning of a committed request on the reverse indexes.
// ---------------------------------------------------------------

/// What the nine reverse indexes hold.
pub ghost struct SpecIndexes {
    pub unassigned_tasks: Set<Seq<char>>,
    pub unprocessed_state_changes: Set<Seq<char>>,
    pub content_namespace_table: Map<Seq<char>, Set<Seq<char>>>,
    pub extraction_policies_table: Map<Seq<char>, Set<Seq<char>>>,
    pub extractor_executors_table: Map<Seq<char>, Set<Seq<char>>>,
    pub namespace_index_table: Map<Seq<char>, Set<Seq<char>>>,
    pub unfinished_tasks_by_extractor: Map<Seq<char>, Set<Seq<char>>>,
    pub executor_running_task_count: Map<Seq<char>, u64>,
    pub schemas_by_namespace: Map<Seq<char>, Set<Seq<char>>>,
}

/// A table of sets with one more member under a key.
pub open spec fn table_with(
    m: Map<Seq<char>, Set<Seq<char>>>,
    k: Seq<char>,
    v: Seq<char>,
) -> Map<Seq<char>, Set<Seq<char>>> {
    m.insert(k, set_at(m, k).insert(v))
}

/// A table of sets with one member dropped under a key; the key
/// itself stays, as an empty set if need be.
pub open spec fn table_without(
    m: Map<Seq<char>, Set<Seq<char>>>,
    k: Seq<char>,
    v: Seq<char>,
) -> Map<Seq<char>, Set<Seq<char>>> {
    m.insert(k, set_at(m, k).remove(v))
}

/// The unprocessed set after the new changes of a request are noted.
pub open spec fn ids_inserted(u: Set<Seq<char>>, cs: Seq<StateChange>) -> Set<Seq<char>>
    decreases cs.len(),
{
    if cs.len() == 0 {
        u
    } else {
        ids_inserted(u, cs.drop_last()).insert(cs.last().id@)
    }
}

/// The unprocessed set after the processed entries of a request are
/// noted.
pub open spec fn ids_removed(u: Set<Seq<char>>, ps: Seq<StateChangeProcessed>) -> Set<Seq<char>>
    decreases ps.len(),
{
    if ps.len() == 0 {
        u
    } else {
        ids_removed(u, ps.drop_last()).remove(ps.last().state_change_id@)
    }
}

/// The state-change bookkeeping every request performs on the
/// reverse indexes.
pub open spec fn indexes_step_changes(
    ix: SpecIndexes,
    req: StateMachineUpdateRequest,
) -> SpecIndexes {
    SpecIndexes {
        unprocessed_state_changes: ids_removed(
            ids_inserted(ix.unprocessed_state_changes, req.new_state_changes@),
            req.state_changes_processed@,
        ),
        ..ix
    }
}

/// The reverse indexes after a batch of created tasks.
pub open spec fn create_tasks_idx(ix: SpecIndexes, ts: Seq<Task>) -> SpecIndexes
    decreases ts.len(),
{
    if ts.len() == 0 {
        ix
    } else {
        let i2 = create_tasks_idx(ix, ts.drop_last());
        SpecIndexes {
            unassigned_tasks: i2.unassigned_tasks.insert(ts.last().id@),
            unfinished_tasks_by_extractor: table_with(
                i2.unfinished_tasks_by_extractor,
                ts.last().extractor@,
                ts.last().id@,
            ),
            ..i2
        }
    }
}

/// The unassigned set after every task of an assignment list left it.
pub open spec fn unassign_fold(u: Set<Seq<char>>, asg: Seq<(String, String)>) -> Set<Seq<char>>
    decreases asg.len(),
{
    if asg.len() == 0 {
        u
    } else {
        unassign_fold(u, asg.drop_last()).remove(asg.last().0@)
    }
}

/// The running counts after an assignment list: each named executor's
/// count is read back from its committed assignment set, so a task
/// assigned twice is counted once.
pub open spec fn counts_fold(
    c: Map<Seq<char>, u64>,
    committed: Map<Seq<char>, Set<Seq<char>>>,
    asg: Seq<(String, String)>,
) -> Map<Seq<char>, u64>
    decreases asg.len(),
{
    if asg.len() == 0 {
        c
    } else {
        counts_fold(c, committed, asg.drop_last()).insert(
            asg.last().1@,
            set_at(committed, asg.last().1@).len() as u64,
        )
    }
}

/// The namespace-to-content table after a batch of content metadata.
pub open spec fn contents_idx(
    m: Map<Seq<char>, Set<Seq<char>>>,
    cs: Seq<ContentMetadata>,
) -> Map<Seq<char>, Set<Seq<char>>>
    decreases cs.len(),
{
    if cs.len() == 0 {
        m
    } else {
        table_with(contents_idx(m, cs.drop_last()), cs.last().namespace@, cs.last().id@)
    }
}

/// A running count one lower, held at zero; a missing executor is
/// created at zero, as the live path does.
pub open spec fn dec_count(c: Map<Seq<char>, u64>, e: Seq<char>) -> Map<Seq<char>, u64> {
    if count_at(c, e) > 0 {
        c.insert(e, (count_at(c, e) - 1) as u64)
    } else {
        c.insert(e, 0)
    }
}

/// What a committed request does to the reverse indexes, given the
/// committed store.  `RemoveExecutor` performs its own bespoke step
/// in the dispatcher and leaves nothing for this function's payload
/// switch.
pub open spec fn indexes_after(
    ix: SpecIndexes,
    committed: SpecStore,
    req: StateMachineUpdateRequest,
) -> SpecIndexes {
    let i1 = indexes_step_changes(ix, req);
    match req.payload {
        RequestPayload::RegisterExecutor { addr, executor_id, extractor, ts_secs } => SpecIndexes {
            extractor_executors_table: table_with(
                i1.extractor_executors_table,
                extractor.name@,
                executor_id@,
            ),
            executor_running_task_count: i1.executor_running_task_count.insert(executor_id@, 0),
            ..i1
        },
        RequestPayload::CreateTasks { tasks } => create_tasks_idx(i1, tasks@),
        RequestPayload::AssignTask { assignments } => SpecIndexes {
            unassigned_tasks: unassign_fold(i1.unassigned_tasks, assignments@),
            executor_running_task_count: counts_fold(
                i1.executor_running_task_count,
                committed.task_assignments,
                assignments@,
            ),
            ..i1
        },
        RequestPayload::CreateContent { content_metadata } => SpecIndexes {
            content_namespace_table: contents_idx(i1.content_namespace_table, content_metadata@),
            ..i1
        },
        RequestPayload::CreateExtractionPolicy {
            extraction_policy,
            updated_structured_data_schema,
            new_structured_data_schema,
        } => {
            let t1 = table_with(
                i1.extraction_policies_table,
                extraction_policy.namespace@,
                extraction_policy.id@,
            );
            let sb1 = match updated_structured_data_schema {
                Some(u) => table_with(i1.schemas_by_namespace, u.namespace@, u.id@),
                None => i1.schemas_by_namespace,
            };
            SpecIndexes {
                extraction_policies_table: t1,
                schemas_by_namespace: table_with(
                    sb1,
                    new_structured_data_schema.namespace@,
                    new_structured_data_schema.id@,
                ),
                ..i1
            }
        },
        RequestPayload::CreateNamespace { name, structured_data_schema } => SpecIndexes {
            schemas_by_namespace: table_with(
                i1.schemas_by_namespace,
                structured_data_schema.namespace@,
                structured_data_schema.id@,
            ),
            ..i1
        },
        RequestPayload::CreateIndex { index, namespace, id } => SpecIndexes {
            namespace_index_table: table_with(i1.namespace_index_table, namespace@, id@),
            ..i1
        },
        RequestPayload::UpdateTask { task, mark_finished, executor_id, content_metadata } => {
            let i2 = if mark_finished {
                let i3 = SpecIndexes {
                    unassigned_tasks: i1.unassigned_tasks.remove(task.id@),
                    unfinished_tasks_by_extractor: table_without(
                        i1.unfinished_tasks_by_extractor,
                        task.extractor@,
                        task.id@,
                    ),
                    ..i1
                };
                if executor_id is Some {
                    SpecIndexes {
                        executor_running_task_count: dec_count(
                            i3.executor_running_task_count,
                            executor_id->0@,
                        ),
                        ..i3
                    }
                } else {
                    i3
                }
            } else {
                i1
            };
            SpecIndexes {
                content_namespace_table: contents_idx(i2.content_namespace_table, content_metadata@),
                ..i2
            }
        },
        RequestPayload::MarkStateChangesProcessed { state_changes } => SpecIndexes {
            unprocessed_state_changes: ids_removed(i1.unprocessed_state_changes, state_changes@),
            ..i1
        },
        _ => i1,
    }
}

/// The bespoke reverse step of `RemoveExecutor`: the executor leaves
/// its extractor's set, its freed tasks return to the unassigned set,
/// and its running count disappears.
pub open spec fn remove_executor_idx(
    ix: SpecIndexes,
    prior: SpecStore,
    req: StateMachineUpdateRequest,
    executor_id: Seq<char>,
) -> SpecIndexes {
    let i1 = indexes_step_changes(ix, req);
    SpecIndexes {
        extractor_executors_table: table_without(
            i1.extractor_executors_table,
            prior.executors[executor_id].extractor.name,
            executor_id,
        ),
        unassigned_tasks: i1.unassigned_tasks.union(set_at(prior.task_assignments, executor_id)),
        executor_running_task_count: i1.executor_running_task_count.remove(executor_id),
        ..i1
    }
}

/// The reverse indexes of the state machine.
pub struct IndexifyState {
    /// The tasks that are currently unassigned.
    pub unassigned_tasks: StringSet,
    /// State changes that have not been processed yet.
    pub unprocessed_state_changes: StringSet,
    /// Namespace to content ids.
    pub content_namespace_table: KvList<StringSet>,
    /// Namespace to extraction policy ids.
    pub extraction_policies_table: KvList<StringSet>,
    /// Extractor name to executor ids.
    pub extractor_executors_table: KvList<StringSet>,
    /// Namespace to index ids.
    pub namespace_index_table: KvList<StringSet>,
    /// Tasks that are currently unfinished, by extractor; a finished
    /// task leaves its set.
    pub unfinished_tasks_by_extractor: KvList<StringSet>,
    /// Number of tasks currently running on each executor.
    pub executor_running_task_count: KvList<u64>,
    /// Namespace to schema ids.
    pub schemas_by_namespace: KvList<StringSet>,
}

impl View for IndexifyState {
    type V = SpecIndexes;

    open spec fn view(&self) -> SpecIndexes {
        SpecIndexes {
            unassigned_tasks: self.unassigned_tasks@,
            unprocessed_state_changes: self.unprocessed_state_changes@,
            content_namespace_table: self.content_namespace_table@,
            extraction_policies_table: self.extraction_policies_table@,
            extractor_executors_table: self.extractor_executors_table@,
            namespace_index_table: self.namespace_index_table@,
            unfinished_tasks_by_extractor: self.unfinished_tasks_by_extractor@,
            executor_running_task_count: self.executor_running_task_count@,
            schemas_by_namespace: self.schemas_by_namespace@,
        }
    }
}

/// The reverse indexes that every fresh replica starts from.
pub open spec fn empty_indexes() -> SpecIndexes {
    SpecIndexes {
        unassigned_tasks: Set::empty(),
        unprocessed_state_changes: Set::empty(),
        content_namespace_table: Map::empty(),
        extraction_policies_table: Map::empty(),
        extractor_executors_table: Map::empty(),
        namespace_index_table: Map::empty(),
        unfinished_tasks_by_extractor: Map::empty(),
        executor_running_task_count: Map::empty(),
        schemas_by_namespace: Map::empty(),
    }
}

impl IndexifyState {
    pub open spec fn inv(&self) -> bool {
        &&& self.unassigned_tasks.wf()
        &&& self.unprocessed_state_changes.wf()
        &&& self.content_namespace_table.inv()
        &&& self.extraction_policies_table.inv()
        &&& self.extractor_executors_table.inv()
        &&& self.namespace_index_table.inv()
        &&& self.unfinished_tasks_by_extractor.inv()
        &&& self.executor_running_task_count.inv()
        &&& self.schemas_by_namespace.inv()
    }

    /// Empty reverse indexes.
    pub fn new() -> (r: IndexifyState)
        ensures
            r.inv(),
            r@ == empty_indexes(),
    {
        IndexifyState {
            unassigned_tasks: StringSet::new(),
            unprocessed_state_changes: StringSet::new(),
            content_namespace_table: KvList::new(),
            extraction_policies_table: KvList::new(),
            extractor_executors_table: KvList::new(),
            namespace_index_table: KvList::new(),
            unfinished_tasks_by_extractor: KvList::new(),
            executor_running_task_count: KvList::new(),
            schemas_by_namespace: KvList::new(),
        }
    }
}

/// Put one more member into the set under a key of a table.
pub fn table_insert(tbl: &mut KvList<StringSet>, key: &String, member: &String)
    requires
        old(tbl).inv(),
    ensures
        final(tbl).inv(),
        final(tbl)@ == table_with(old(tbl)@, key@, member@),
{
    let mut s = match tbl.get(key) {
        Some(v) => v.duplicate(),
        None => StringSet::new(),
    };
    s.insert(member.clone());
    tbl.put(key.clone(), s);
}

/// Drop one member from the set under a key of a table; the key
/// stays, holding whatever is left.
pub fn table_remove(tbl: &mut KvList<StringSet>, key: &String, member: &String)
    requires
        old(tbl).inv(),
    ensures
        final(tbl).inv(),
        final(tbl)@ == table_without(old(tbl)@, key@, member@),
{
    let mut s = match tbl.get(key) {
        Some(v) => v.duplicate(),
        None => StringSet::new(),
    };
    s.remove(member);
    tbl.put(key.clone(), s);
}

// ---------------------------------------------------------------
// Forward-index writers.
// ---------------------------------------------------------------

proof fn lemma_take_step<T>(s: Seq<T>, i: int)
    requires
        0 <= i < s.len(),
    ensures
        s.take(i + 1).drop_last() == s.take(i),
        s.take(i + 1).last() == s[i],
{
    assert(s.take(i + 1).drop_last() =~= s.take(i));
}

proof fn lemma_sc_mark_ok_take(
    m: Map<Seq<char>, SpecStateChange>,
    ps: Seq<StateChangeProcessed>,
    i: int,
)
    requires
        sc_mark_ok(m, ps),
        0 <= i <= ps.len(),
    ensures
        sc_mark_ok(m, ps.take(i)),
    decreases ps.len(),
{
    if i == ps.len() {
        assert(ps.take(i) =~= ps);
    } else if ps.len() > 0 {
        lemma_sc_mark_ok_take(m, ps.drop_last(), i);
        assert(ps.take(i) =~= ps.drop_last().take(i));
    }
}

/// Extend one mapping by another: names are unioned, completion
/// times merged with the later write winning per key.
#[verifier::loop_isolation(false)]
fn merge_mapping_into(
    base: &mut ContentExtractionPolicyMapping,
    add: &ContentExtractionPolicyMapping,
)
    requires
        old(base).inv(),
    ensures
        final(base).inv(),
        final(base)@ == merge_mapping_spec(old(base)@, add@),
{
    base.extraction_policy_names.union_with(&add.extraction_policy_names);
    proof {
        add.time_of_policy_completion.lemma_view_is_map_of();
    }
    let n = add.time_of_policy_completion.len();
    for k in 0..n
        invariant
            n == add.time_of_policy_completion.kseq().len(),
            base.content_id@ == old(base).content_id@,
            base.extraction_policy_names.wf(),
            base.extraction_policy_names@ == old(base)@.extraction_policy_names.union(
                add@.extraction_policy_names,
            ),
            base.time_of_policy_completion.inv(),
            base.time_of_policy_completion@
                == old(base)@.time_of_policy_completion.union_prefer_right(
                crate::kv::map_of(add.time_of_policy_completion.kseq().take(k as int)),
            ),
    {
        let e = add.time_of_policy_completion.entry_at(k);
        base.time_of_policy_completion.put(e.0.clone(), e.1);
        proof {
            lemma_take_step(add.time_of_policy_completion.kseq(), k as int);
            assert(base.time_of_policy_completion@
                =~= old(base)@.time_of_policy_completion.union_prefer_right(
                crate::kv::map_of(add.time_of_policy_completion.kseq().take(k + 1)),
            ));
        }
    }
    proof {
        assert(add.time_of_policy_completion.kseq().take(n as int)
            =~= add.time_of_policy_completion.kseq());
    }
}

impl IndexifyState {
    /// Persist every new state change of the request.
    #[verifier::loop_isolation(false)]
    fn set_new_state_changes(&self, txn: &mut Txn, state_changes: &Vec<StateChange>)
        requires
            old(txn).cols.inv(),
        ensures
            final(txn).cols.inv(),
            final(txn).cols@ == (SpecStore {
                state_changes: sc_with_new(old(txn).cols@.state_changes, state_changes@),
                ..old(txn).cols@
            }),
    {
        let n = state_changes.len();
        for i in 0..n
            invariant
                n == state_changes@.len(),
                txn.cols.inv(),
                txn.cols@ == (SpecStore {
                    state_changes: sc_with_new(
                        old(txn).cols@.state_changes,
                        state_changes@.take(i as int),
                    ),
                    ..old(txn).cols@
                }),
        {
            let change = &state_changes[i];
            txn.cols.state_changes.put(change.id.clone(), change.deep_clone());
            proof {
                lemma_take_step(state_changes@, i as int);
            }
        }
        proof {
            assert(state_changes@.take(n as int) =~= state_changes@);
        }
    }

    /// Overwrite `processed_at` of each named change, by
    /// read-modify-write; an absent change id aborts with `NotFound`.
    #[verifier::loop_isolation(false)]
    fn set_processed_state_changes(
        &self,
        txn: &mut Txn,
        state_changes: &Vec<StateChangeProcessed>,
    ) -> (r: Result<(), StateMachineError>)
        requires
            old(txn).cols.inv(),
        ensures
            final(txn).cols.inv(),
            match r {
                Ok(_) => sc_mark_ok(old(txn).cols@.state_changes, state_changes@) && final(txn).cols@ == (SpecStore {
                    state_changes: sc_marked(old(txn).cols@.state_changes, state_changes@),
                    ..old(txn).cols@
                }),
                Err(e) => e == StateMachineError::NotFound && !sc_mark_ok(
                    old(txn).cols@.state_changes,
                    state_changes@,
                ),
            },
    {
        let n = state_changes.len();
        for i in 0..n
            invariant
                n == state_changes@.len(),
                txn.cols.inv(),
                sc_mark_ok(old(txn).cols@.state_changes, state_changes@.take(i as int)),
                txn.cols@ == (SpecStore {
                    state_changes: sc_marked(
                        old(txn).cols@.state_changes,
                        state_changes@.take(i as int),
                    ),
                    ..old(txn).cols@
                }),
        {
            let change = &state_changes[i];
            proof {
                lemma_take_step(state_changes@, i as int);
            }
            match txn.cols.state_changes.get(&change.state_change_id) {
                Some(stored) => {
                    let mut updated = stored.deep_clone();
                    updated.processed_at = Some(change.processed_at);
                    txn.cols.state_changes.put(change.state_change_id.clone(), updated);
                },
                None => {
                    proof {
                        if sc_mark_ok(old(txn).cols@.state_changes, state_changes@) {
                            lemma_sc_mark_ok_take(
                                old(txn).cols@.state_changes,
                                state_changes@,
                                i + 1,
                            );
                        }
                    }
                    return Err(StateMachineError::NotFound);
                },
            }
        }
        proof {
            assert(state_changes@.take(n as int) =~= state_changes@);
        }
        Ok(())
    }

    /// Persist one index descriptor under its id.
    fn set_index(&self, txn: &mut Txn, index: &IndexDescriptor, id: &String)
        requires
            old(txn).cols.inv(),
        ensures
            final(txn).cols.inv(),
            final(txn).cols@ == (SpecStore {
                index_table: old(txn).cols@.index_table.insert(id@, index@),
                ..old(txn).cols@
            }),
    {
        txn.cols.index_table.put(id.clone(), index.deep_clone());
    }

    /// Read one task back out of the transaction.
    fn _get_task(&self, txn: &Txn, task_id: &String) -> (r: Result<Task, StateMachineError>)
        requires
            txn.cols.inv(),
        ensures
            match r {
                Ok(t) => txn.cols@.tasks.contains_key(task_id@) && t@ == txn.cols@.tasks[task_id@],
                Err(e) => e == StateMachineError::NotFound && !txn.cols@.tasks.contains_key(
                    task_id@,
                ),
            },
    {
        match txn.cols.tasks.get(task_id) {
            Some(t) => Ok(t.deep_clone()),
            None => Err(StateMachineError::NotFound),
        }
    }

    /// Persist a batch of tasks, each under its id.
    #[verifier::loop_isolation(false)]
    fn set_tasks(&self, txn: &mut Txn, tasks: &Vec<Task>)
        requires
            old(txn).cols.inv(),
        ensures
            final(txn).cols.inv(),
            final(txn).cols@ == (SpecStore {
                tasks: tasks_put(old(txn).cols@.tasks, tasks@),
                ..old(txn).cols@
            }),
    {
        let n = tasks.len();
        for i in 0..n
            invariant
                n == tasks@.len(),
                txn.cols.inv(),
                txn.cols@ == (SpecStore {
                    tasks: tasks_put(old(txn).cols@.tasks, tasks@.take(i as int)),
                    ..old(txn).cols@
                }),
        {
            let task = &tasks[i];
            txn.cols.tasks.put(task.id.clone(), task.deep_clone());
            proof {
                lemma_take_step(tasks@, i as int);
            }
        }
        proof {
            assert(tasks@.take(n as int) =~= tasks@);
        }
    }

    /// Overwrite one already-created task.
    fn update_tasks(&self, txn: &mut Txn, task: &Task)
        requires
            old(txn).cols.inv(),
        ensures
            final(txn).cols.inv(),
            final(txn).cols@ == (SpecStore {
                tasks: old(txn).cols@.tasks.insert(task.id@, task@),
                ..old(txn).cols@
            }),
    {
        txn.cols.tasks.put(task.id.clone(), task.deep_clone());
    }

    /// The assignment set of one executor; an executor with no entry
    /// has the empty set.
    fn get_task_assignments_for_executor(&self, txn: &Txn, executor_id: &String) -> (r: StringSet)
        requires
            txn.cols.inv(),
        ensures
            r.wf(),
            r@ == set_at(txn.cols@.task_assignments, executor_id@),
    {
        match txn.cols.task_assignments.get(executor_id) {
            Some(v) => v.duplicate(),
            None => StringSet::new(),
        }
    }

    /// Write one executor's assignment set; the caller unions, this
    /// only stores.
    fn set_task_assignments(&self, txn: &mut Txn, executor_id: &String, task_ids: StringSet)
        requires
            old(txn).cols.inv(),
            task_ids.wf(),
        ensures
            final(txn).cols.inv(),
            final(txn).cols@ == (SpecStore {
                task_assignments: old(txn).cols@.task_assignments.insert(executor_id@, task_ids@),
                ..old(txn).cols@
            }),
    {
        txn.cols.task_assignments.put(executor_id.clone(), task_ids);
    }

    /// Return the prior assignment set of one executor and delete its
    /// entry, in the same transaction.
    fn delete_task_assignments_for_executor(&self, txn: &mut Txn, executor_id: &String) -> (r:
        StringSet)
        requires
            old(txn).cols.inv(),
        ensures
            final(txn).cols.inv(),
            r.wf(),
            r@ == set_at(old(txn).cols@.task_assignments, executor_id@),
            final(txn).cols@ == (SpecStore {
                task_assignments: old(txn).cols@.task_assignments.remove(executor_id@),
                ..old(txn).cols@
            }),
    {
        let prior = self.get_task_assignments_for_executor(txn, executor_id);
        txn.cols.task_assignments.remove(executor_id);
        prior
    }

    /// Persist a batch of content metadata, each under its id.
    #[verifier::loop_isolation(false)]
    fn set_content(&self, txn: &mut Txn, contents_vec: &Vec<ContentMetadata>)
        requires
            old(txn).cols.inv(),
        ensures
            final(txn).cols.inv(),
            final(txn).cols@ == (SpecStore {
                content_table: contents_put(old(txn).cols@.content_table, contents_vec@),
                ..old(txn).cols@
            }),
    {
        let n = contents_vec.len();
        for i in 0..n
            invariant
                n == contents_vec@.len(),
                txn.cols.inv(),
                txn.cols@ == (SpecStore {
                    content_table: contents_put(
                        old(txn).cols@.content_table,
                        contents_vec@.take(i as int),
                    ),
                    ..old(txn).cols@
                }),
        {
            let content = &contents_vec[i];
            txn.cols.content_table.put(content.id.clone(), content.deep_clone());
            proof {
                lemma_take_step(contents_vec@, i as int);
            }
        }
        proof {
            assert(contents_vec@.take(n as int) =~= contents_vec@);
        }
    }

    /// Persist one executor record, built from its parts.
    fn set_executor(
        &self,
        txn: &mut Txn,
        addr: String,
        executor_id: &String,
        extractor: &ExtractorDescription,
        ts_secs: u64,
    )
        requires
            old(txn).cols.inv(),
        ensures
            final(txn).cols.inv(),
            final(txn).cols@ == (SpecStore {
                executors: old(txn).cols@.executors.insert(
                    executor_id@,
                    SpecExecutorMetadata {
                        id: executor_id@,
                        last_seen: ts_secs,
                        addr: addr@,
                        extractor: extractor@,
                    },
                ),
                ..old(txn).cols@
            }),
    {
        let record = ExecutorMetadata {
            id: executor_id.clone(),
            last_seen: ts_secs,
            addr,
            extractor: extractor.deep_clone(),
        };
        txn.cols.executors.put(executor_id.clone(), record);
    }

    /// Read one executor record and delete it, in the same
    /// transaction; an absent executor aborts with `NotFound`.
    fn delete_executor(&self, txn: &mut Txn, executor_id: &String) -> (r: Result<
        ExecutorMetadata,
        StateMachineError,
    >)
        requires
            old(txn).cols.inv(),
        ensures
            final(txn).cols.inv(),
            match r {
                Ok(meta) => old(txn).cols@.executors.contains_key(executor_id@) && meta@ == old(txn).cols@.executors[executor_id@] && final(txn).cols@ == (SpecStore {
                    executors: old(txn).cols@.executors.remove(executor_id@),
                    ..old(txn).cols@
                }),
                Err(e) => e == StateMachineError::NotFound && !old(txn).cols@.executors.contains_key(executor_id@) && final(txn).cols@ == old(txn).cols@,
            },
    {
        let meta = match txn.cols.executors.get(executor_id) {
            Some(m) => m.deep_clone(),
            None => {
                return Err(StateMachineError::NotFound);
            },
        };
        txn.cols.executors.remove(executor_id);
        Ok(meta)
    }

    /// Upsert one extractor descriptor under its name.
    fn set_extractor(&self, txn: &mut Txn, extractor: &ExtractorDescription)
        requires
            old(txn).cols.inv(),
        ensures
            final(txn).cols.inv(),
            final(txn).cols@ == (SpecStore {
                extractors: old(txn).cols@.extractors.insert(extractor.name@, extractor@),
                ..old(txn).cols@
            }),
    {
        txn.cols.extractors.put(extractor.name.clone(), extractor.deep_clone());
    }

    /// Persist one extraction policy, then upsert its schemas: the
    /// updated one if present, then the new one.
    fn set_extraction_policy(
        &self,
        txn: &mut Txn,
        extraction_policy: &ExtractionPolicy,
        updated_structured_data_schema: &Option<StructuredDataSchema>,
        new_structured_data_schema: &StructuredDataSchema,
    )
        requires
            old(txn).cols.inv(),
        ensures
            final(txn).cols.inv(),
            final(txn).cols@ == (SpecStore {
                extraction_policies: old(txn).cols@.extraction_policies.insert(
                    extraction_policy.id@,
                    extraction_policy@,
                ),
                structured_data_schemas: (match updated_structured_data_schema {
                    Some(u) => old(txn).cols@.structured_data_schemas.insert(u.id@, u@),
                    None => old(txn).cols@.structured_data_schemas,
                }).insert(new_structured_data_schema.id@, new_structured_data_schema@),
                ..old(txn).cols@
            }),
    {
        txn.cols.extraction_policies.put(
            extraction_policy.id.clone(),
            extraction_policy.deep_clone(),
        );
        if let Some(schema) = updated_structured_data_schema {
            self.set_schema(txn, schema);
        }
        self.set_schema(txn, new_structured_data_schema);
    }

    /// Persist the namespace marker, then its initial schema.
    fn set_namespace(&self, txn: &mut Txn, namespace: &String, schema: &StructuredDataSchema)
        requires
            old(txn).cols.inv(),
        ensures
            final(txn).cols.inv(),
            final(txn).cols@ == (SpecStore {
                namespaces: old(txn).cols@.namespaces.insert(namespace@, namespace@),
                structured_data_schemas: old(txn).cols@.structured_data_schemas.insert(
                    schema.id@,
                    schema@,
                ),
                ..old(txn).cols@
            }),
    {
        txn.cols.namespaces.put(namespace.clone(), namespace.clone());
        self.set_schema(txn, schema);
    }

    /// Merge-write a batch of applied-policies mappings: every read
    /// sees the column as it stood before the batch; names are
    /// unioned and completion times merged, later writes winning.
    #[verifier::loop_isolation(false)]
    fn set_content_policies_applied_on_content(
        &self,
        txn: &mut Txn,
        mappings: &Vec<ContentExtractionPolicyMapping>,
    )
        requires
            old(txn).cols.inv(),
            forall|i: int| 0 <= i < mappings@.len() ==> (#[trigger] mappings@[i]).inv(),
        ensures
            final(txn).cols.inv(),
            final(txn).cols@ == (SpecStore {
                policies_applied: mappings_merged(old(txn).cols@.policies_applied, mappings@),
                ..old(txn).cols@
            }),
    {
        let n = mappings.len();
        let mut updated: Vec<ContentExtractionPolicyMapping> = Vec::new();
        for i in 0..n
            invariant
                n == mappings@.len(),
                updated@.len() == i,
                *txn == *old(txn),
                forall|j: int|
                    0 <= j < i ==> (#[trigger] updated@[j])@ == merge_mapping_spec(
                        mapping_at(old(txn).cols@.policies_applied, mappings@[j].content_id@),
                        mappings@[j]@,
                    ) && updated@[j].inv(),
        {
            let m = &mappings[i];
            let mut base = match txn.cols.policies_applied.get(&m.content_id) {
                Some(v) => v.deep_clone(),
                None => ContentExtractionPolicyMapping {
                    content_id: m.content_id.clone(),
                    extraction_policy_names: StringSet::new(),
                    time_of_policy_completion: KvList::new(),
                },
            };
            merge_mapping_into(&mut base, m);
            updated.push(base);
        }
        for j in 0..n
            invariant
                n == mappings@.len(),
                n == updated@.len(),
                txn.cols.inv(),
                forall|k: int|
                    0 <= k < n ==> (#[trigger] updated@[k])@ == merge_mapping_spec(
                        mapping_at(old(txn).cols@.policies_applied, mappings@[k].content_id@),
                        mappings@[k]@,
                    ) && updated@[k].inv(),
                txn.cols@ == (SpecStore {
                    policies_applied: mappings_merged(
                        old(txn).cols@.policies_applied,
                        mappings@.take(j as int),
                    ),
                    ..old(txn).cols@
                }),
        {
            let u = &updated[j];
            txn.cols.policies_applied.put(u.content_id.clone(), u.deep_clone());
            proof {
                lemma_take_step(mappings@, j as int);
            }
        }
        proof {
            assert(mappings@.take(n as int) =~= mappings@);
        }
    }

    /// Record when one policy finished on one piece of content.  The
    /// content must have a mapping and the policy must already be
    /// registered in it.
    pub fn mark_extraction_policy_applied_on_content(
        &self,
        txn: &mut Txn,
        content_id: &String,
        extraction_policy_name: &String,
        policy_completion_time: u64,
    ) -> (r: Result<(), StateMachineError>)
        requires
            old(txn).cols.inv(),
        ensures
            final(txn).cols.inv(),
            match r {
                Ok(_) => old(txn).cols@.policies_applied.contains_key(content_id@) && old(
                    txn,
                ).cols@.policies_applied[content_id@].extraction_policy_names.contains(
                    extraction_policy_name@,
                ) && final(txn).cols@ == (SpecStore {
                    policies_applied: old(txn).cols@.policies_applied.insert(
                        content_id@,
                        SpecMapping {
                            time_of_policy_completion: old(
                                txn,
                            ).cols@.policies_applied[content_id@].time_of_policy_completion.insert(
                                extraction_policy_name@,
                                policy_completion_time,
                            ),
                            ..old(txn).cols@.policies_applied[content_id@]
                        },
                    ),
                    ..old(txn).cols@
                }),
                Err(e) => final(txn).cols@ == old(txn).cols@ && ((e
                    == StateMachineError::DatabaseError && !old(
                    txn,
                ).cols@.policies_applied.contains_key(content_id@)) || (e
                    == StateMachineError::PolicyNotRegistered && old(
                    txn,
                ).cols@.policies_applied.contains_key(content_id@) && !old(
                    txn,
                ).cols@.policies_applied[content_id@].extraction_policy_names.contains(
                    extraction_policy_name@,
                ))),
            },
    {
        let mut updated = match txn.cols.policies_applied.get(content_id) {
            Some(v) => v.deep_clone(),
            None => {
                return Err(StateMachineError::DatabaseError);
            },
        };
        if !updated.extraction_policy_names.contains(extraction_policy_name) {
            return Err(StateMachineError::PolicyNotRegistered);
        }
        updated.time_of_policy_completion.put(
            extraction_policy_name.clone(),
            policy_completion_time,
        );
        txn.cols.policies_applied.put(content_id.clone(), updated);
        Ok(())
    }

    /// Upsert one schema under its id.
    fn set_schema(&self, txn: &mut Txn, schema: &StructuredDataSchema)
        requires
            old(txn).cols.inv(),
        ensures
            final(txn).cols.inv(),
            final(txn).cols@ == (SpecStore {
                structured_data_schemas: old(txn).cols@.structured_data_schemas.insert(
                    schema.id@,
                    schema@,
                ),
                ..old(txn).cols@
            }),
    {
        txn.cols.structured_data_schemas.put(schema.id.clone(), schema.deep_clone());
    }
}

// ---------------------------------------------------------------
// The reverse-index side and the dispatcher.
// ---------------------------------------------------------------

/// The container well-formedness a request's payload must carry.
pub open spec fn request_inv(req: StateMachineUpdateRequest) -> bool {
    match req.payload {
        RequestPayload::SetContentExtractionPolicyMappings { content_extraction_policy_mappings } =>
            forall|i: int|
                0 <= i < content_extraction_policy_mappings@.len() ==> (
                #[trigger] content_extraction_policy_mappings@[i]).inv(),
        _ => true,
    }
}

/// Which reverse indexes a successful request leaves, given the store
/// before and after its commit.
pub open spec fn dispatched_indexes(
    ix: SpecIndexes,
    prior: SpecStore,
    committed: SpecStore,
    req: StateMachineUpdateRequest,
) -> SpecIndexes {
    match req.payload {
        RequestPayload::RemoveExecutor { executor_id } => remove_executor_idx(
            ix,
            prior,
            req,
            executor_id@,
        ),
        _ => indexes_after(ix, committed, req),
    }
}

impl IndexifyState {
    /// Note one consumed state change in the reverse indexes.
    pub fn mark_state_changes_processed(
        &mut self,
        state_change: &StateChangeProcessed,
        _processed_at: u64,
    )
        requires
            old(self).inv(),
        ensures
            final(self).inv(),
            final(self)@ == (SpecIndexes {
                unprocessed_state_changes: old(self)@.unprocessed_state_changes.remove(
                    state_change.state_change_id@,
                ),
                ..old(self)@
            }),
    {
        self.unprocessed_state_changes.remove(&state_change.state_change_id);
    }

    /// Note one schema in its namespace's set.
    fn update_schema_reverse_idx(&mut self, schema: &StructuredDataSchema)
        requires
            old(self).inv(),
        ensures
            final(self).inv(),
            final(self)@ == (SpecIndexes {
                schemas_by_namespace: table_with(
                    old(self)@.schemas_by_namespace,
                    schema.namespace@,
                    schema.id@,
                ),
                ..old(self)@
            }),
    {
        table_insert(&mut self.schemas_by_namespace, &schema.namespace, &schema.id);
    }

    /// The state-change bookkeeping of one committed request: new
    /// changes become unprocessed, processed ones leave the set.
    #[verifier::loop_isolation(false)]
    fn note_state_changes(
        &mut self,
        new_changes: &Vec<StateChange>,
        processed: &Vec<StateChangeProcessed>,
    )
        requires
            old(self).inv(),
        ensures
            final(self).inv(),
            final(self)@ == (SpecIndexes {
                unprocessed_state_changes: ids_removed(
                    ids_inserted(old(self)@.unprocessed_state_changes, new_changes@),
                    processed@,
                ),
                ..old(self)@
            }),
    {
        let n = new_changes.len();
        for i in 0..n
            invariant
                n == new_changes@.len(),
                self.inv(),
                self@ == (SpecIndexes {
                    unprocessed_state_changes: ids_inserted(
                        old(self)@.unprocessed_state_changes,
                        new_changes@.take(i as int),
                    ),
                    ..old(self)@
                }),
        {
            self.unprocessed_state_changes.insert(new_changes[i].id.clone());
            proof {
                lemma_take_step(new_changes@, i as int);
            }
        }
        proof {
            assert(new_changes@.take(n as int) =~= new_changes@);
        }
        let m = processed.len();
        for i in 0..m
            invariant
                m == processed@.len(),
                self.inv(),
                self@ == (SpecIndexes {
                    unprocessed_state_changes: ids_removed(
                        ids_inserted(old(self)@.unprocessed_state_changes, new_changes@),
                        processed@.take(i as int),
                    ),
                    ..old(self)@
                }),
        {
            let p = &processed[i];
            self.mark_state_changes_processed(p, p.processed_at);
            proof {
                lemma_take_step(processed@, i as int);
            }
        }
        proof {
            assert(processed@.take(m as int) =~= processed@);
        }
    }

    /// Mutate the reverse indexes for one committed request, reading
    /// the committed store where a count must be re-derived.  Called
    /// exactly once per commit, except for `RemoveExecutor`, whose
    /// bespoke step lives in the dispatcher.
    #[verifier::loop_isolation(false)]
    #[verifier::rlimit(100)]
    pub fn apply(&mut self, request: &StateMachineUpdateRequest, db: &ColumnStore)
        requires
            old(self).inv(),
            db.inv(),
        ensures
            final(self).inv(),
            final(self)@ == indexes_after(old(self)@, db@, *request),
    {
        self.note_state_changes(&request.new_state_changes, &request.state_changes_processed);
        let ghost i1 = indexes_step_changes(old(self)@, *request);
        match &request.payload {
            RequestPayload::RegisterExecutor { addr: _, executor_id, extractor, ts_secs: _ } => {
                table_insert(&mut self.extractor_executors_table, &extractor.name, executor_id);
                self.executor_running_task_count.put(executor_id.clone(), 0);
            },
            RequestPayload::CreateTasks { tasks } => {
                let n = tasks.len();
                for i in 0..n
                    invariant
                        n == tasks@.len(),
                        self.inv(),
                        self@ == create_tasks_idx(i1, tasks@.take(i as int)),
                {
                    let task = &tasks[i];
                    self.unassigned_tasks.insert(task.id.clone());
                    table_insert(&mut self.unfinished_tasks_by_extractor, &task.extractor, &task.id);
                    proof {
                        lemma_take_step(tasks@, i as int);
                    }
                }
                proof {
                    assert(tasks@.take(n as int) =~= tasks@);
                }
            },
            RequestPayload::AssignTask { assignments } => {
                let n = assignments.len();
                for i in 0..n
                    invariant
                        n == assignments@.len(),
                        self.inv(),
                        self@ == (SpecIndexes {
                            unassigned_tasks: unassign_fold(
                                i1.unassigned_tasks,
                                assignments@.take(i as int),
                            ),
                            ..i1
                        }),
                {
                    self.unassigned_tasks.remove(&assignments[i].0);
                    proof {
                        lemma_take_step(assignments@, i as int);
                    }
                }
                proof {
                    assert(assignments@.take(n as int) =~= assignments@);
                }
                for i in 0..n
                    invariant
                        n == assignments@.len(),
                        self.inv(),
                        self@ == (SpecIndexes {
                            unassigned_tasks: unassign_fold(i1.unassigned_tasks, assignments@),
                            executor_running_task_count: counts_fold(
                                i1.executor_running_task_count,
                                db@.task_assignments,
                                assignments@.take(i as int),
                            ),
                            ..i1
                        }),
                {
                    let pair = &assignments[i];
                    let c: usize = match db.task_assignments.get(&pair.1) {
                        Some(v) => v.count(),
                        None => 0,
                    };
                    self.executor_running_task_count.put(pair.1.clone(), c as u64);
                    proof {
                        lemma_take_step(assignments@, i as int);
                        assert(c as u64 == set_at(db@.task_assignments, pair.1@).len() as u64);
                    }
                }
                proof {
                    assert(assignments@.take(n as int) =~= assignments@);
                }
            },
            RequestPayload::CreateContent { content_metadata } => {
                let n = content_metadata.len();
                for i in 0..n
                    invariant
                        n == content_metadata@.len(),
                        self.inv(),
                        self@ == (SpecIndexes {
                            content_namespace_table: contents_idx(
                                i1.content_namespace_table,
                                content_metadata@.take(i as int),
                            ),
                            ..i1
                        }),
                {
                    let content = &content_metadata[i];
                    table_insert(&mut self.content_namespace_table, &content.namespace, &content.id);
                    proof {
                        lemma_take_step(content_metadata@, i as int);
                    }
                }
                proof {
                    assert(content_metadata@.take(n as int) =~= content_metadata@);
                }
            },
            RequestPayload::CreateExtractionPolicy {
                extraction_policy,
                updated_structured_data_schema,
                new_structured_data_schema,
            } => {
                table_insert(
                    &mut self.extraction_policies_table,
                    &extraction_policy.namespace,
                    &extraction_policy.id,
                );
                if let Some(schema) = updated_structured_data_schema {
                    self.update_schema_reverse_idx(schema);
                }
                self.update_schema_reverse_idx(new_structured_data_schema);
            },
            RequestPayload::CreateNamespace { name: _, structured_data_schema } => {
                self.update_schema_reverse_idx(structured_data_schema);
            },
            RequestPayload::CreateIndex { index: _, namespace, id } => {
                table_insert(&mut self.namespace_index_table, namespace, id);
            },
            RequestPayload::UpdateTask { task, mark_finished, executor_id, content_metadata } => {
                if *mark_finished {
                    self.unassigned_tasks.remove(&task.id);
                    table_remove(&mut self.unfinished_tasks_by_extractor, &task.extractor, &task.id);
                    if let Some(executor) = executor_id {
                        let cur: u64 = match self.executor_running_task_count.get(executor) {
                            Some(v) => *v,
                            None => 0,
                        };
                        let lowered: u64 = if cur > 0 {
                            cur - 1
                        } else {
                            0
                        };
                        self.executor_running_task_count.put(executor.clone(), lowered);
                    }
                }
                let ghost i2 = (if *mark_finished {
                    let i3 = SpecIndexes {
                        unassigned_tasks: i1.unassigned_tasks.remove(task.id@),
                        unfinished_tasks_by_extractor: table_without(
                            i1.unfinished_tasks_by_extractor,
                            task.extractor@,
                            task.id@,
                        ),
                        ..i1
                    };
                    match executor_id {
                        Some(e) => SpecIndexes {
                            executor_running_task_count: dec_count(
                                i3.executor_running_task_count,
                                e@,
                            ),
                            ..i3
                        },
                        None => i3,
                    }
                } else {
                    i1
                });
                let n = content_metadata.len();
                for i in 0..n
                    invariant
                        n == content_metadata@.len(),
                        self.inv(),
                        self@ == (SpecIndexes {
                            content_namespace_table: contents_idx(
                                i2.content_namespace_table,
                                content_metadata@.take(i as int),
                            ),
                            ..i2
                        }),
                {
                    let content = &content_metadata[i];
                    table_insert(&mut self.content_namespace_table, &content.namespace, &content.id);
                    proof {
                        lemma_take_step(content_metadata@, i as int);
                    }
                }
                proof {
                    assert(content_metadata@.take(n as int) =~= content_metadata@);
                }
            },
            RequestPayload::MarkStateChangesProcessed { state_changes } => {
                let n = state_changes.len();
                for i in 0..n
                    invariant
                        n == state_changes@.len(),
                        self.inv(),
                        self@ == (SpecIndexes {
                            unprocessed_state_changes: ids_removed(
                                i1.unprocessed_state_changes,
                                state_changes@.take(i as int),
                            ),
                            ..i1
                        }),
                {
                    let p = &state_changes[i];
                    self.mark_state_changes_processed(p, p.processed_at);
                    proof {
                        lemma_take_step(state_changes@, i as int);
                    }
                }
                proof {
                    assert(state_changes@.take(n as int) =~= state_changes@);
                }
            },
            RequestPayload::RemoveExecutor { .. } => {},
            RequestPayload::SetContentExtractionPolicyMappings { .. } => {},
            RequestPayload::MarkExtractionPolicyAppliedOnContent { .. } => {},
            RequestPayload::Noop => {},
        }
    }

    /// Apply one request: persist its forward-index writes in one
    /// transaction, commit, then mutate the reverse indexes.  On any
    /// error the transaction is dropped and neither the store nor the
    /// indexes change.
    #[verifier::rlimit(100)]
    pub fn apply_state_machine_updates(
        &mut self,
        request: StateMachineUpdateRequest,
        db: &mut ColumnStore,
    ) -> (r: Result<(), StateMachineError>)
        requires
            old(self).inv(),
            old(db).inv(),
            request_inv(request),
        ensures
            final(self).inv(),
            final(db).inv(),
            match r {
                Ok(_) => forward_res(old(db)@, request) is Ok && final(db)@ == forward_res(
                    old(db)@,
                    request,
                )->Ok_0 && final(self)@ == dispatched_indexes(
                    old(self)@,
                    old(db)@,
                    final(db)@,
                    request,
                ),
                Err(e) => forward_res(old(db)@, request) == Result::<
                    SpecStore,
                    StateMachineError,
                >::Err(e) && final(db)@ == old(db)@ && final(self)@ == old(self)@,
            },
    {
        let mut txn = Txn::begin(db);

        self.set_new_state_changes(&mut txn, &request.new_state_changes);
        match self.set_processed_state_changes(&mut txn, &request.state_changes_processed) {
            Ok(_) => {},
            Err(e) => {
                return Err(e);
            },
        }

        match &request.payload {
            RequestPayload::CreateIndex { index, namespace: _, id } => {
                self.set_index(&mut txn, index, id);
            },
            RequestPayload::CreateTasks { tasks } => {
                self.set_tasks(&mut txn, tasks);
            },
            RequestPayload::AssignTask { assignments } => {
                let ghost pre = txn.cols@;
                let n = assignments.len();
                for i in 0..n
                    invariant
                        n == assignments@.len(),
                        txn.cols.inv(),
                        txn.cols@ == (SpecStore {
                            task_assignments: assign_fold(
                                pre.task_assignments,
                                assignments@.take(i as int),
                            ),
                            ..pre
                        }),
                {
                    let pair = &assignments[i];
                    let mut existing = self.get_task_assignments_for_executor(&txn, &pair.1);
                    existing.insert(pair.0.clone());
                    self.set_task_assignments(&mut txn, &pair.1, existing);
                    proof {
                        lemma_take_step(assignments@, i as int);
                    }
                }
                proof {
                    assert(assignments@.take(n as int) =~= assignments@);
                }
            },
            RequestPayload::UpdateTask { task, mark_finished, executor_id, content_metadata } => {
                self.update_tasks(&mut txn, task);
                if *mark_finished {
                    if let Some(executor) = executor_id {
                        let mut existing = self.get_task_assignments_for_executor(&txn, executor);
                        existing.remove(&task.id);
                        self.set_task_assignments(&mut txn, executor, existing);
                    }
                }
                self.set_content(&mut txn, content_metadata);
            },
            RequestPayload::RegisterExecutor { addr, executor_id, extractor, ts_secs } => {
                self.set_executor(&mut txn, addr.clone(), executor_id, extractor, *ts_secs);
                self.set_extractor(&mut txn, extractor);
            },
            RequestPayload::RemoveExecutor { executor_id } => {
                let executor_meta = match self.delete_executor(&mut txn, executor_id) {
                    Ok(m) => m,
                    Err(e) => {
                        return Err(e);
                    },
                };
                let task_ids = self.delete_task_assignments_for_executor(&mut txn, executor_id);
                txn.commit(db);
                self.note_state_changes(
                    &request.new_state_changes,
                    &request.state_changes_processed,
                );
                table_remove(
                    &mut self.extractor_executors_table,
                    &executor_meta.extractor.name,
                    executor_id,
                );
                self.unassigned_tasks.union_with(&task_ids);
                self.executor_running_task_count.remove(executor_id);
                return Ok(());
            },
            RequestPayload::CreateContent { content_metadata } => {
                self.set_content(&mut txn, content_metadata);
            },
            RequestPayload::CreateExtractionPolicy {
                extraction_policy,
                updated_structured_data_schema,
                new_structured_data_schema,
            } => {
                self.set_extraction_policy(
                    &mut txn,
                    extraction_policy,
                    updated_structured_data_schema,
                    new_structured_data_schema,
                );
            },
            RequestPayload::SetContentExtractionPolicyMappings {
                content_extraction_policy_mappings,
            } => {
                self.set_content_policies_applied_on_content(
                    &mut txn,
                    content_extraction_policy_mappings,
                );
            },
            RequestPayload::MarkExtractionPolicyAppliedOnContent {
                content_id,
                extraction_policy_name,
                policy_completion_time,
            } => {
                match self.mark_extraction_policy_applied_on_content(
                    &mut txn,
                    content_id,
                    extraction_policy_name,
                    *policy_completion_time,
                ) {
                    Ok(_) => {},
                    Err(e) => {
                        return Err(e);
                    },
                }
            },
            RequestPayload::CreateNamespace { name, structured_data_schema } => {
                self.set_namespace(&mut txn, name, structured_data_schema);
            },
            RequestPayload::MarkStateChangesProcessed { state_changes } => {
                match self.set_processed_state_changes(&mut txn, state_changes) {
                    Ok(_) => {},
                    Err(e) => {
                        return Err(e);
                    },
                }
            },
            RequestPayload::Noop => {},
        }

        txn.commit(db);
        self.apply(&request, db);
        Ok(())
    }
}

} // verus!
