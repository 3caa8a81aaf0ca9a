use state_store::codec::Atom;
use state_store::codec::decode_assignment_set;
use state_store::codec::decode_atoms;
use state_store::codec::decode_mapping;
use state_store::codec::decode_schema;
use state_store::codec::decode_content_metadata;
use state_store::codec::decode_executor_metadata;
use state_store::codec::decode_extraction_policy;
use state_store::codec::decode_extractor_description;
use state_store::codec::decode_index_descriptor;
use state_store::codec::decode_namespace;
use state_store::codec::decode_state_change;
use state_store::codec::decode_task;
use state_store::codec::encode_assignment_set;
use state_store::codec::encode_atoms;
use state_store::codec::encode_content_metadata;
use state_store::codec::encode_executor_metadata;
use state_store::codec::encode_extraction_policy;
use state_store::codec::encode_extractor_description;
use state_store::codec::encode_index_descriptor;
use state_store::codec::encode_namespace;
use state_store::codec::encode_mapping;
use state_store::codec::encode_schema;
use state_store::codec::encode_state_change;
use state_store::codec::encode_task;
use state_store::kv::KvList;
use state_store::kv::StringSet;
use state_store::model::ContentExtractionPolicyMapping;
use state_store::model::ContentMetadata;
use state_store::model::ExecutorMetadata;
use state_store::model::ExtractionPolicy;
use state_store::model::ExtractorDescription;
use state_store::model::IndexDescriptor;
use state_store::model::StateChange;
use state_store::model::StateChangeProcessed;
use state_store::model::StateMachineError;
use state_store::model::StructuredDataSchema;
use state_store::model::Task;
use state_store::model::TaskOutcome;
use state_store::rebuild::rebuild;
use state_store::requests::RequestPayload;
use state_store::requests::StateMachineUpdateRequest;
use state_store::state::IndexifyState;
use state_store::store::ColumnStore;

fn s(x: &str) -> String {
    x.to_string()
}

fn bare_request(payload: RequestPayload) -> StateMachineUpdateRequest {
    StateMachineUpdateRequest {
        new_state_changes: Vec::new(),
        state_changes_processed: Vec::new(),
        payload,
    }
}

fn extractor_x() -> ExtractorDescription {
    ExtractorDescription { name: s("X"), description: s("extracts") }
}

fn task(id: &str, outcome: TaskOutcome) -> Task {
    Task {
        id: s(id),
        extractor: s("X"),
        namespace: s("ns"),
        content_id: s("C0"),
        outcome,
    }
}

/// Runs the register / create / assign / update / remove story and
/// checks each step's persisted and derived state.
fn run_story(ix: &mut IndexifyState, db: &mut ColumnStore) {
    // register one executor
    let r = ix.apply_state_machine_updates(
        bare_request(RequestPayload::RegisterExecutor {
            addr: s("1.2.3.4:9000"),
            executor_id: s("E1"),
            extractor: extractor_x(),
            ts_secs: 100,
        }),
        db,
    );
    assert!(r.is_ok());
    let meta = db.executors.get(&s("E1")).expect("executor persisted");
    assert_eq!(meta.last_seen, 100);
    assert_eq!(meta.addr, s("1.2.3.4:9000"));
    assert!(ix.extractor_executors_table.get(&s("X")).unwrap().contains(&s("E1")));
    assert_eq!(*ix.executor_running_task_count.get(&s("E1")).unwrap(), 0);

    // create two tasks
    let r = ix.apply_state_machine_updates(
        bare_request(RequestPayload::CreateTasks {
            tasks: vec![task("T1", TaskOutcome::Unknown), task("T2", TaskOutcome::Unknown)],
        }),
        db,
    );
    assert!(r.is_ok());
    assert!(ix.unassigned_tasks.contains(&s("T1")));
    assert!(ix.unassigned_tasks.contains(&s("T2")));
    let unfinished = ix.unfinished_tasks_by_extractor.get(&s("X")).unwrap();
    assert!(unfinished.contains(&s("T1")) && unfinished.contains(&s("T2")));

    // assign both tasks to the executor
    let r = ix.apply_state_machine_updates(
        bare_request(RequestPayload::AssignTask {
            assignments: vec![(s("T1"), s("E1")), (s("T2"), s("E1"))],
        }),
        db,
    );
    assert!(r.is_ok());
    let assigned = db.task_assignments.get(&s("E1")).unwrap();
    assert!(assigned.contains(&s("T1")) && assigned.contains(&s("T2")));
    assert_eq!(assigned.count(), 2);
    assert_eq!(ix.unassigned_tasks.count(), 0);
    assert_eq!(*ix.executor_running_task_count.get(&s("E1")).unwrap(), 2);

    // finish the first task, attaching one piece of content
    let r = ix.apply_state_machine_updates(
        bare_request(RequestPayload::UpdateTask {
            task: task("T1", TaskOutcome::Success),
            mark_finished: true,
            executor_id: Some(s("E1")),
            content_metadata: vec![ContentMetadata {
                id: s("C1"),
                namespace: s("ns"),
                parent_id: None,
            }],
        }),
        db,
    );
    assert!(r.is_ok());
    let assigned = db.task_assignments.get(&s("E1")).unwrap();
    assert!(!assigned.contains(&s("T1")) && assigned.contains(&s("T2")));
    let unfinished = ix.unfinished_tasks_by_extractor.get(&s("X")).unwrap();
    assert!(!unfinished.contains(&s("T1")) && unfinished.contains(&s("T2")));
    assert_eq!(*ix.executor_running_task_count.get(&s("E1")).unwrap(), 1);
    assert!(ix.content_namespace_table.get(&s("ns")).unwrap().contains(&s("C1")));
}

#[test]
fn executor_and_task_lifecycle() {
    let mut ix = IndexifyState::new();
    let mut db = ColumnStore::new();
    run_story(&mut ix, &mut db);

    // remove the executor: its remaining task is freed
    let r = ix.apply_state_machine_updates(
        bare_request(RequestPayload::RemoveExecutor { executor_id: s("E1") }),
        &mut db,
    );
    assert!(r.is_ok());
    assert!(db.executors.get(&s("E1")).is_none());
    assert!(db.task_assignments.get(&s("E1")).is_none());
    assert!(ix.unassigned_tasks.contains(&s("T2")));
    assert!(!ix.unassigned_tasks.contains(&s("T1")));
    let execs = ix.extractor_executors_table.get(&s("X")).unwrap();
    assert_eq!(execs.count(), 0);
    assert!(!ix.executor_running_task_count.contains_key(&s("E1")));
}

#[test]
fn namespace_and_policy_reverse_indexes() {
    let mut ix = IndexifyState::new();
    let mut db = ColumnStore::new();
    let r = ix.apply_state_machine_updates(
        bare_request(RequestPayload::CreateNamespace {
            name: s("ns2"),
            structured_data_schema: StructuredDataSchema {
                id: s("S1"),
                namespace: s("ns2"),
                columns: vec![s("a")],
            },
        }),
        &mut db,
    );
    assert!(r.is_ok());
    let r = ix.apply_state_machine_updates(
        bare_request(RequestPayload::CreateExtractionPolicy {
            extraction_policy: ExtractionPolicy {
                id: s("P1"),
                namespace: s("ns2"),
                name: s("policy-one"),
                extractor: s("X"),
            },
            updated_structured_data_schema: None,
            new_structured_data_schema: StructuredDataSchema {
                id: s("S2"),
                namespace: s("ns2"),
                columns: vec![s("b")],
            },
        }),
        &mut db,
    );
    assert!(r.is_ok());
    let schemas = ix.schemas_by_namespace.get(&s("ns2")).unwrap();
    assert!(schemas.contains(&s("S1")) && schemas.contains(&s("S2")));
    assert_eq!(schemas.count(), 2);
    let policies = ix.extraction_policies_table.get(&s("ns2")).unwrap();
    assert!(policies.contains(&s("P1")));
    assert_eq!(policies.count(), 1);
    assert!(db.namespaces.get(&s("ns2")).is_some());
    assert!(db.structured_data_schemas.get(&s("S1")).is_some());
    assert!(db.structured_data_schemas.get(&s("S2")).is_some());
}

#[test]
fn assign_task_twice_counts_once() {
    let mut ix = IndexifyState::new();
    let mut db = ColumnStore::new();
    let r = ix.apply_state_machine_updates(
        bare_request(RequestPayload::RegisterExecutor {
            addr: s("a:1"),
            executor_id: s("E1"),
            extractor: extractor_x(),
            ts_secs: 1,
        }),
        &mut db,
    );
    assert!(r.is_ok());
    let r = ix.apply_state_machine_updates(
        bare_request(RequestPayload::CreateTasks { tasks: vec![task("T1", TaskOutcome::Unknown)] }),
        &mut db,
    );
    assert!(r.is_ok());
    for _ in 0..2 {
        let r = ix.apply_state_machine_updates(
            bare_request(RequestPayload::AssignTask { assignments: vec![(s("T1"), s("E1"))] }),
            &mut db,
        );
        assert!(r.is_ok());
    }
    let assigned = db.task_assignments.get(&s("E1")).unwrap();
    assert_eq!(assigned.count(), 1);
    assert!(assigned.contains(&s("T1")));
    assert_eq!(*ix.executor_running_task_count.get(&s("E1")).unwrap(), 1);
}

#[test]
fn state_changes_tracked_and_marked() {
    let mut ix = IndexifyState::new();
    let mut db = ColumnStore::new();
    let req = StateMachineUpdateRequest {
        new_state_changes: vec![StateChange {
            id: s("SC1"),
            kind: s("task-created"),
            payload: s("T1"),
            created_at: 7,
            processed_at: None,
        }],
        state_changes_processed: Vec::new(),
        payload: RequestPayload::Noop,
    };
    assert!(ix.apply_state_machine_updates(req, &mut db).is_ok());
    assert!(ix.unprocessed_state_changes.contains(&s("SC1")));
    assert!(db.state_changes.get(&s("SC1")).unwrap().processed_at.is_none());

    let req = StateMachineUpdateRequest {
        new_state_changes: Vec::new(),
        state_changes_processed: vec![StateChangeProcessed {
            state_change_id: s("SC1"),
            processed_at: 9,
        }],
        payload: RequestPayload::Noop,
    };
    assert!(ix.apply_state_machine_updates(req, &mut db).is_ok());
    assert!(!ix.unprocessed_state_changes.contains(&s("SC1")));
    assert_eq!(db.state_changes.get(&s("SC1")).unwrap().processed_at, Some(9));
}

#[test]
fn missing_state_change_fails_and_changes_nothing() {
    let mut ix = IndexifyState::new();
    let mut db = ColumnStore::new();
    let req = StateMachineUpdateRequest {
        new_state_changes: Vec::new(),
        state_changes_processed: vec![StateChangeProcessed {
            state_change_id: s("ghostly"),
            processed_at: 3,
        }],
        payload: RequestPayload::Noop,
    };
    let r = ix.apply_state_machine_updates(req, &mut db);
    assert_eq!(r, Err(StateMachineError::NotFound));
    assert_eq!(db.state_changes.len(), 0);
    assert_eq!(ix.unprocessed_state_changes.count(), 0);
}

#[test]
fn remove_missing_executor_fails() {
    let mut ix = IndexifyState::new();
    let mut db = ColumnStore::new();
    let r = ix.apply_state_machine_updates(
        bare_request(RequestPayload::RemoveExecutor { executor_id: s("E9") }),
        &mut db,
    );
    assert_eq!(r, Err(StateMachineError::NotFound));
}

#[test]
fn policy_completion_needs_registration() {
    let mut ix = IndexifyState::new();
    let mut db = ColumnStore::new();

    // no mapping at all: the failure is a database error
    let r = ix.apply_state_machine_updates(
        bare_request(RequestPayload::MarkExtractionPolicyAppliedOnContent {
            content_id: s("C1"),
            extraction_policy_name: s("P1"),
            policy_completion_time: 5,
        }),
        &mut db,
    );
    assert_eq!(r, Err(StateMachineError::DatabaseError));

    // register a different policy on the content
    let mut names = StringSet::new();
    names.insert(s("Pother"));
    let mapping = ContentExtractionPolicyMapping {
        content_id: s("C1"),
        extraction_policy_names: names,
        time_of_policy_completion: KvList::new(),
    };
    let r = ix.apply_state_machine_updates(
        bare_request(RequestPayload::SetContentExtractionPolicyMappings {
            content_extraction_policy_mappings: vec![mapping],
        }),
        &mut db,
    );
    assert!(r.is_ok());
    let r = ix.apply_state_machine_updates(
        bare_request(RequestPayload::MarkExtractionPolicyAppliedOnContent {
            content_id: s("C1"),
            extraction_policy_name: s("P1"),
            policy_completion_time: 5,
        }),
        &mut db,
    );
    assert_eq!(r, Err(StateMachineError::PolicyNotRegistered));

    // the registered policy itself succeeds
    let r = ix.apply_state_machine_updates(
        bare_request(RequestPayload::MarkExtractionPolicyAppliedOnContent {
            content_id: s("C1"),
            extraction_policy_name: s("Pother"),
            policy_completion_time: 5,
        }),
        &mut db,
    );
    assert!(r.is_ok());
    let stored = db.policies_applied.get(&s("C1")).unwrap();
    assert_eq!(*stored.time_of_policy_completion.get(&s("Pother")).unwrap(), 5);
}

#[test]
fn rebuild_matches_live_indexes() {
    let mut ix = IndexifyState::new();
    let mut db = ColumnStore::new();
    run_story(&mut ix, &mut db);
    let rebuilt = rebuild(&db);
    assert_eq!(
        rebuilt.unassigned_tasks.contains(&s("T1")),
        ix.unassigned_tasks.contains(&s("T1"))
    );
    assert_eq!(
        rebuilt.unassigned_tasks.contains(&s("T2")),
        ix.unassigned_tasks.contains(&s("T2"))
    );
    let live = ix.unfinished_tasks_by_extractor.get(&s("X")).unwrap();
    let made = rebuilt.unfinished_tasks_by_extractor.get(&s("X")).unwrap();
    assert_eq!(live.contains(&s("T1")), made.contains(&s("T1")));
    assert_eq!(live.contains(&s("T2")), made.contains(&s("T2")));
    assert_eq!(
        *rebuilt.executor_running_task_count.get(&s("E1")).unwrap(),
        *ix.executor_running_task_count.get(&s("E1")).unwrap()
    );
    assert!(rebuilt.content_namespace_table.get(&s("ns")).unwrap().contains(&s("C1")));
}

#[test]
fn codec_round_trips() {
    let t = task("T1", TaskOutcome::Success);
    let bytes = encode_task(&t);
    let back = decode_task(&bytes).unwrap();
    assert_eq!(back.id, s("T1"));
    assert_eq!(back.outcome, TaskOutcome::Success);

    let c = StateChange {
        id: s("SC1"),
        kind: s("content-added"),
        payload: s("C1"),
        created_at: 42,
        processed_at: Some(43),
    };
    let back = decode_state_change(&encode_state_change(&c)).unwrap();
    assert_eq!(back.id, s("SC1"));
    assert_eq!(back.processed_at, Some(43));

    let e = ExecutorMetadata {
        id: s("E1"),
        last_seen: 100,
        addr: s("1.2.3.4:9000"),
        extractor: extractor_x(),
    };
    let back = decode_executor_metadata(&encode_executor_metadata(&e)).unwrap();
    assert_eq!(back.addr, s("1.2.3.4:9000"));
    assert_eq!(back.extractor.name, s("X"));

    let x = extractor_x();
    let back = decode_extractor_description(&encode_extractor_description(&x)).unwrap();
    assert_eq!(back.description, s("extracts"));

    let p = ExtractionPolicy {
        id: s("P1"),
        namespace: s("ns2"),
        name: s("policy-one"),
        extractor: s("X"),
    };
    let back = decode_extraction_policy(&encode_extraction_policy(&p)).unwrap();
    assert_eq!(back.namespace, s("ns2"));

    let cm = ContentMetadata { id: s("C1"), namespace: s("ns"), parent_id: Some(s("C0")) };
    let back = decode_content_metadata(&encode_content_metadata(&cm)).unwrap();
    assert_eq!(back.parent_id, Some(s("C0")));

    let ixd = IndexDescriptor { name: s("I1"), namespace: s("ns"), schema: s("S1") };
    let back = decode_index_descriptor(&encode_index_descriptor(&ixd)).unwrap();
    assert_eq!(back.name, s("I1"));

    let back = decode_namespace(&encode_namespace(&s("ns"))).unwrap();
    assert_eq!(back, s("ns"));
}

#[test]
fn codec_round_trips_collections() {
    let mut ss = StringSet::new();
    ss.insert(s("T1"));
    ss.insert(s("T2"));
    let back = decode_assignment_set(&encode_assignment_set(&ss)).unwrap();
    assert!(back.contains(&s("T1")) && back.contains(&s("T2")));
    assert_eq!(back.count(), 2);

    let schema = StructuredDataSchema {
        id: s("S1"),
        namespace: s("ns2"),
        columns: vec![s("a"), s("b"), s("a")],
    };
    let back = decode_schema(&encode_schema(&schema)).unwrap();
    assert_eq!(back.columns, vec![s("a"), s("b"), s("a")]);
    assert_eq!(back.namespace, s("ns2"));
}

#[test]
fn codec_round_trips_mapping() {
    let mut names = StringSet::new();
    names.insert(s("P1"));
    names.insert(s("P2"));
    let mut times = KvList::new();
    times.put(s("P1"), 11);
    let mapping = ContentExtractionPolicyMapping {
        content_id: s("C1"),
        extraction_policy_names: names,
        time_of_policy_completion: times,
    };
    let back = decode_mapping(&encode_mapping(&mapping)).unwrap();
    assert_eq!(back.content_id, s("C1"));
    assert!(back.extraction_policy_names.contains(&s("P1")));
    assert!(back.extraction_policy_names.contains(&s("P2")));
    assert_eq!(back.extraction_policy_names.count(), 2);
    assert_eq!(*back.time_of_policy_completion.get(&s("P1")).unwrap(), 11);
    assert!(back.time_of_policy_completion.get(&s("P2")).is_none());
}

#[test]
fn codec_rejects_repeated_entries() {
    // an applied-policies record naming one policy twice is malformed
    let atoms = vec![
        Atom::Text(s("C1")),
        Atom::Num(2),
        Atom::Text(s("P1")),
        Atom::Text(s("P1")),
        Atom::Num(0),
    ];
    let bytes = encode_atoms(&atoms);
    assert!(matches!(decode_mapping(&bytes), Err(StateMachineError::CodecError)));

    // an assignment record naming one task twice is malformed
    let atoms = vec![Atom::Num(2), Atom::Text(s("T1")), Atom::Text(s("T1"))];
    let bytes = encode_atoms(&atoms);
    assert!(matches!(decode_assignment_set(&bytes), Err(StateMachineError::CodecError)));
}

#[test]
fn codec_rejects_malformed_bytes() {
    let garbage: Vec<u8> = vec![9, 9, 9];
    assert!(matches!(decode_task(&garbage), Err(StateMachineError::CodecError)));
    assert!(decode_atoms(&garbage).is_err());

    // a valid namespace record is not a task record
    let ns_bytes = encode_namespace(&s("ns"));
    assert!(matches!(decode_task(&ns_bytes), Err(StateMachineError::CodecError)));

    // trailing bytes are refused
    let mut bytes = encode_namespace(&s("ns"));
    bytes.push(0);
    assert_eq!(decode_namespace(&bytes), Err(StateMachineError::CodecError));
}
