//! Re-deriving the reverse indexes from the persisted forward index.
//!
//! After a crash the in-memory indexes are gone; `rebuild` walks the
//! committed columns and produces indexes that are consistent with
//! them.  Since consistency pins every membership and every count,
//! the rebuilt indexes agree with whatever the live apply path had
//! built — `lemma_consistent_agree` says so.

use vstd::prelude::*;

use crate::kv::KvList;
use crate::kv::Stored;
use crate::kv::StringSet;
use crate::laws::assigned;
use crate::laws::consistent;
use crate::model::TaskOutcome;
use crate::model::is_terminal;
use crate::state::IndexifyState;
use crate::state::SpecIndexes;
use crate::state::set_at;
use crate::state::table_insert;
use crate::store::ColumnStore;
use crate::store::SpecStore;

verus! {

/// Whether an outcome is terminal, decided at run time.
pub fn outcome_is_terminal(o: TaskOutcome) -> (r: bool)
    ensures
        r == is_terminal(o),
{
    match o {
        TaskOutcome::Unknown => false,
        TaskOutcome::Success => true,
        TaskOutcome::Failed => true,
    }
}

/// Whether any executor's persisted assignment set contains the id.
#[verifier::loop_isolation(false)]
fn assigned_anywhere(db: &ColumnStore, t: &String) -> (r: bool)
    requires
        db.inv(),
    ensures
        r == assigned(db@, t@),
{
    proof {
        db.task_assignments.lemma_view();
    }
    let n = db.task_assignments.len();
    for j in 0..n
        invariant
            n == db.task_assignments.kseq().len(),
            forall|k: int|
                0 <= k < j ==> !(#[trigger] db.task_assignments.kseq()[k]).1@.contains(t@),
    {
        let entry = db.task_assignments.entry_at(j);
        if entry.1.contains(t) {
            proof {
                assert(db@.task_assignments[entry.0@] == entry.1@);
                assert(set_at(db@.task_assignments, entry.0@).contains(t@));
            }
            return true;
        }
    }
    proof {
        if assigned(db@, t@) {
            let e = choose|e: Seq<char>| #[trigger] set_at(db@.task_assignments, e).contains(t@);
            assert(db@.task_assignments.contains_key(e));
            let k = choose|k: int|
                0 <= k < db.task_assignments.kseq().len()
                    && #[trigger] db.task_assignments.kseq()[k].0@ == e;
            assert(db.task_assignments.kseq()[k].1@ == db@.task_assignments[e]);
        }
    }
    false
}

/// Derive all nine reverse indexes from the persisted records alone.
/// The result is consistent with the store, and so agrees with the
/// indexes the live apply path maintains.
#[verifier::loop_isolation(false)]
#[verifier::rlimit(100)]
pub fn rebuild(db: &ColumnStore) -> (r: IndexifyState)
    requires
        db.inv(),
    ensures
        r.inv(),
        consistent(db@, r@),
{
    let mut ix = IndexifyState::new();
    proof {
        db.state_changes.lemma_view();
        db.tasks.lemma_view();
        db.content_table.lemma_view();
        db.extraction_policies.lemma_view();
        db.executors.lemma_view();
        db.index_table.lemma_view();
        db.structured_data_schemas.lemma_view();
    }

    let n_sc = db.state_changes.len();
    for j in 0..n_sc
        invariant
            n_sc == db.state_changes.kseq().len(),
            ix.inv(),
            ix@ == (SpecIndexes {
                unprocessed_state_changes: ix@.unprocessed_state_changes,
                ..crate::state::empty_indexes()
            }),
            forall|c: Seq<char>|
                #[trigger] ix@.unprocessed_state_changes.contains(c) <==> (exists|k: int|
                    0 <= k < j && (#[trigger] db.state_changes.kseq()[k]).0@ == c
                        && db.state_changes.kseq()[k].1@.processed_at is None),
    {
        let entry = db.state_changes.entry_at(j);
        let none_yet = match entry.1.processed_at {
            Some(_) => false,
            None => true,
        };
        if none_yet {
            ix.unprocessed_state_changes.insert(entry.0.clone());
        }
        proof {
            assert forall|c: Seq<char>| #[trigger] ix@.unprocessed_state_changes.contains(c)
                implies (exists|k: int|
                0 <= k < j + 1 && (#[trigger] db.state_changes.kseq()[k]).0@ == c
                    && db.state_changes.kseq()[k].1@.processed_at is None) by {
                if none_yet && c == entry.0@ {
                    assert(db.state_changes.kseq()[j as int].0@ == c);
                } else {
                    let k = choose|k: int|
                        0 <= k < j && (#[trigger] db.state_changes.kseq()[k]).0@ == c
                            && db.state_changes.kseq()[k].1@.processed_at is None;
                }
            }
        }
    }
    proof {
        assert forall|c: Seq<char>| #[trigger] ix@.unprocessed_state_changes.contains(c) <==> (
        db@.state_changes.contains_key(c) && db@.state_changes[c].processed_at is None) by {
            if ix@.unprocessed_state_changes.contains(c) {
                let k = choose|k: int|
                    0 <= k < db.state_changes.kseq().len() && (#[trigger] db.state_changes.kseq()[k]).0@ == c && db.state_changes.kseq()[k].1@.processed_at is None;
            }
            if db@.state_changes.contains_key(c) {
                let k = choose|k: int|
                    0 <= k < db.state_changes.kseq().len()
                        && #[trigger] db.state_changes.kseq()[k].0@ == c;
                assert(db.state_changes.kseq()[k].1@ == db@.state_changes[c]);
            }
        }
    }

    let n_t = db.tasks.len();
    for j in 0..n_t
        invariant
            n_t == db.tasks.kseq().len(),
            ix.inv(),
            ix@ == (SpecIndexes {
                unprocessed_state_changes: ix@.unprocessed_state_changes,
                unassigned_tasks: ix@.unassigned_tasks,
                unfinished_tasks_by_extractor: ix@.unfinished_tasks_by_extractor,
                ..crate::state::empty_indexes()
            }),
            forall|c: Seq<char>|
                #[trigger] ix@.unprocessed_state_changes.contains(c) <==> (
                db@.state_changes.contains_key(c) && db@.state_changes[c].processed_at is None),
            forall|t: Seq<char>|
                #[trigger] ix@.unassigned_tasks.contains(t) <==> (exists|k: int|
                    0 <= k < j && (#[trigger] db.tasks.kseq()[k]).0@ == t && !is_terminal(
                        db.tasks.kseq()[k].1@.outcome,
                    ) && !assigned(db@, t)),
            forall|x: Seq<char>, t: Seq<char>|
                #[trigger] set_at(ix@.unfinished_tasks_by_extractor, x).contains(t) <==> (exists|
                    k: int,
                |
                    0 <= k < j && (#[trigger] db.tasks.kseq()[k]).0@ == t
                        && db.tasks.kseq()[k].1@.extractor == x && !is_terminal(
                        db.tasks.kseq()[k].1@.outcome,
                    )),
    {
        let entry = db.tasks.entry_at(j);
        let ghost pre_unf = ix@.unfinished_tasks_by_extractor;
        let ghost pre_un = ix@.unassigned_tasks;
        if !outcome_is_terminal(entry.1.outcome) {
            table_insert(&mut ix.unfinished_tasks_by_extractor, &entry.1.extractor, &entry.0);
            if !assigned_anywhere(db, &entry.0) {
                ix.unassigned_tasks.insert(entry.0.clone());
            }
        }
        proof {
            assert forall|t: Seq<char>|
                #[trigger] ix@.unassigned_tasks.contains(t) <==> (exists|k: int|
                    0 <= k < j + 1 && (#[trigger] db.tasks.kseq()[k]).0@ == t && !is_terminal(
                        db.tasks.kseq()[k].1@.outcome,
                    ) && !assigned(db@, t)) by {
                if ix@.unassigned_tasks.contains(t) {
                    if t == entry.0@ && !is_terminal(entry.1@.outcome) && !assigned(db@, t) {
                        assert(db.tasks.kseq()[j as int].0@ == t);
                    } else {
                        assert(pre_un.contains(t));
                        let k = choose|k: int|
                            0 <= k < j && (#[trigger] db.tasks.kseq()[k]).0@ == t && !is_terminal(
                                db.tasks.kseq()[k].1@.outcome,
                            ) && !assigned(db@, t);
                    }
                }
                if exists|k: int|
                    0 <= k < j + 1 && (#[trigger] db.tasks.kseq()[k]).0@ == t && !is_terminal(
                        db.tasks.kseq()[k].1@.outcome,
                    ) && !assigned(db@, t) {
                    let k = choose|k: int|
                        0 <= k < j + 1 && (#[trigger] db.tasks.kseq()[k]).0@ == t && !is_terminal(
                            db.tasks.kseq()[k].1@.outcome,
                        ) && !assigned(db@, t);
                    if k < j {
                        assert(pre_un.contains(t));
                        assert(ix@.unassigned_tasks.contains(t));
                    } else {
                        assert(!is_terminal(entry.1@.outcome) && !assigned(db@, entry.0@));
                        assert(ix@.unassigned_tasks.contains(entry.0@));
                    }
                }
            }
            assert forall|x: Seq<char>, t: Seq<char>|
                #[trigger] set_at(ix@.unfinished_tasks_by_extractor, x).contains(t) <==> (exists|
                    k: int,
                |
                    0 <= k < j + 1 && (#[trigger] db.tasks.kseq()[k]).0@ == t
                        && db.tasks.kseq()[k].1@.extractor == x && !is_terminal(
                        db.tasks.kseq()[k].1@.outcome,
                    )) by {
                if set_at(ix@.unfinished_tasks_by_extractor, x).contains(t) {
                    if t == entry.0@ && x == entry.1@.extractor && !is_terminal(
                        entry.1@.outcome,
                    ) {
                        assert(db.tasks.kseq()[j as int].0@ == t);
                    } else {
                        assert(set_at(pre_unf, x).contains(t));
                        let k = choose|k: int|
                            0 <= k < j && (#[trigger] db.tasks.kseq()[k]).0@ == t
                                && db.tasks.kseq()[k].1@.extractor == x && !is_terminal(
                                db.tasks.kseq()[k].1@.outcome,
                            );
                    }
                }
                if exists|k: int|
                    0 <= k < j + 1 && (#[trigger] db.tasks.kseq()[k]).0@ == t
                        && db.tasks.kseq()[k].1@.extractor == x && !is_terminal(
                        db.tasks.kseq()[k].1@.outcome,
                    ) {
                    let k = choose|k: int|
                        0 <= k < j + 1 && (#[trigger] db.tasks.kseq()[k]).0@ == t
                            && db.tasks.kseq()[k].1@.extractor == x && !is_terminal(
                            db.tasks.kseq()[k].1@.outcome,
                        );
                    if k < j {
                        assert(set_at(pre_unf, x).contains(t));
                        assert(set_at(ix@.unfinished_tasks_by_extractor, x).contains(t));
                    } else {
                        assert(set_at(
                            ix@.unfinished_tasks_by_extractor,
                            entry.1@.extractor,
                        ).contains(entry.0@));
                    }
                }
            }
        }
    }
    proof {
        assert forall|t: Seq<char>| #[trigger] ix@.unassigned_tasks.contains(t) <==> (
        db@.tasks.contains_key(t) && !is_terminal(db@.tasks[t].outcome) && !assigned(
            db@,
            t,
        )) by {
            if ix@.unassigned_tasks.contains(t) {
                let k = choose|k: int|
                    0 <= k < db.tasks.kseq().len() && (#[trigger] db.tasks.kseq()[k]).0@ == t
                        && !is_terminal(db.tasks.kseq()[k].1@.outcome) && !assigned(db@, t);
            }
            if db@.tasks.contains_key(t) {
                let k = choose|k: int|
                    0 <= k < db.tasks.kseq().len() && #[trigger] db.tasks.kseq()[k].0@ == t;
                assert(db.tasks.kseq()[k].1@ == db@.tasks[t]);
            }
        }
        assert forall|x: Seq<char>, t: Seq<char>| #[trigger] set_at(
            ix@.unfinished_tasks_by_extractor,
            x,
        ).contains(t) <==> (db@.tasks.contains_key(t) && db@.tasks[t].extractor == x
            && !is_terminal(db@.tasks[t].outcome)) by {
            if set_at(ix@.unfinished_tasks_by_extractor, x).contains(t) {
                let k = choose|k: int|
                    0 <= k < db.tasks.kseq().len() && (#[trigger] db.tasks.kseq()[k]).0@ == t
                        && db.tasks.kseq()[k].1@.extractor == x && !is_terminal(
                        db.tasks.kseq()[k].1@.outcome,
                    );
            }
            if db@.tasks.contains_key(t) {
                let k = choose|k: int|
                    0 <= k < db.tasks.kseq().len() && #[trigger] db.tasks.kseq()[k].0@ == t;
                assert(db.tasks.kseq()[k].1@ == db@.tasks[t]);
            }
        }
    }

    let mut content_tbl: KvList<StringSet> = KvList::new();
    let n_c = db.content_table.len();
    for j in 0..n_c
        invariant
            n_c == db.content_table.kseq().len(),
            content_tbl.inv(),
            forall|kk1: Seq<char>, kk2: Seq<char>|
                #[trigger] set_at(content_tbl@, kk1).contains(kk2) <==> (exists|k: int|
                    0 <= k < j && (#[trigger] db.content_table.kseq()[k]).0@ == kk2
                        && db.content_table.kseq()[k].1@.namespace == kk1),
    {
        let entry = db.content_table.entry_at(j);
        let ghost pre = content_tbl@;
        table_insert(&mut content_tbl, &entry.1.namespace, &entry.0);
        proof {
            assert forall|kk1: Seq<char>, kk2: Seq<char>|
                #[trigger] set_at(content_tbl@, kk1).contains(kk2) <==> (exists|k: int|
                    0 <= k < j + 1 && (#[trigger] db.content_table.kseq()[k]).0@ == kk2
                        && db.content_table.kseq()[k].1@.namespace == kk1) by {
                if set_at(content_tbl@, kk1).contains(kk2) {
                    if kk2 == entry.0@ && kk1 == entry.1@.namespace {
                        assert(db.content_table.kseq()[j as int].0@ == kk2);
                    } else {
                        assert(set_at(pre, kk1).contains(kk2));
                        let k = choose|k: int|
                            0 <= k < j && (#[trigger] db.content_table.kseq()[k]).0@ == kk2
                                && db.content_table.kseq()[k].1@.namespace == kk1;
                    }
                }
                if exists|k: int|
                    0 <= k < j + 1 && (#[trigger] db.content_table.kseq()[k]).0@ == kk2
                        && db.content_table.kseq()[k].1@.namespace == kk1 {
                    let k = choose|k: int|
                        0 <= k < j + 1 && (#[trigger] db.content_table.kseq()[k]).0@ == kk2
                            && db.content_table.kseq()[k].1@.namespace == kk1;
                    if k < j {
                        assert(set_at(pre, kk1).contains(kk2));
                        assert(set_at(content_tbl@, kk1).contains(kk2));
                    } else {
                        assert(set_at(content_tbl@, entry.1@.namespace).contains(entry.0@));
                    }
                }
            }
        }
    }
    proof {
        assert forall|ns: Seq<char>, c: Seq<char>| #[trigger] set_at(content_tbl@, ns).contains(c)
            <==> (db@.content_table.contains_key(c) && db@.content_table[c].namespace == ns) by {
            if set_at(content_tbl@, ns).contains(c) {
                let k = choose|k: int|
                    0 <= k < db.content_table.kseq().len() && (#[trigger] db.content_table.kseq()[k]).0@ == c && db.content_table.kseq()[k].1@.namespace == ns;
            }
            if db@.content_table.contains_key(c) {
                let k = choose|k: int|
                    0 <= k < db.content_table.kseq().len()
                        && #[trigger] db.content_table.kseq()[k].0@ == c;
                assert(db.content_table.kseq()[k].1@ == db@.content_table[c]);
            }
        }
    }
    ix.content_namespace_table = content_tbl;

    let mut policy_tbl: KvList<StringSet> = KvList::new();
    let n_p = db.extraction_policies.len();
    for j in 0..n_p
        invariant
            n_p == db.extraction_policies.kseq().len(),
            policy_tbl.inv(),
            forall|kk1: Seq<char>, kk2: Seq<char>|
                #[trigger] set_at(policy_tbl@, kk1).contains(kk2) <==> (exists|k: int|
                    0 <= k < j && (#[trigger] db.extraction_policies.kseq()[k]).0@ == kk2
                        && db.extraction_policies.kseq()[k].1@.namespace == kk1),
    {
        let entry = db.extraction_policies.entry_at(j);
        let ghost pre = policy_tbl@;
        table_insert(&mut policy_tbl, &entry.1.namespace, &entry.0);
        proof {
            assert forall|kk1: Seq<char>, kk2: Seq<char>|
                #[trigger] set_at(policy_tbl@, kk1).contains(kk2) <==> (exists|k: int|
                    0 <= k < j + 1 && (#[trigger] db.extraction_policies.kseq()[k]).0@ == kk2
                        && db.extraction_policies.kseq()[k].1@.namespace == kk1) by {
                if set_at(policy_tbl@, kk1).contains(kk2) {
                    if kk2 == entry.0@ && kk1 == entry.1@.namespace {
                        assert(db.extraction_policies.kseq()[j as int].0@ == kk2);
                    } else {
                        assert(set_at(pre, kk1).contains(kk2));
                        let k = choose|k: int|
                            0 <= k < j && (#[trigger] db.extraction_policies.kseq()[k]).0@ == kk2
                                && db.extraction_policies.kseq()[k].1@.namespace == kk1;
                    }
                }
                if exists|k: int|
                    0 <= k < j + 1 && (#[trigger] db.extraction_policies.kseq()[k]).0@ == kk2
                        && db.extraction_policies.kseq()[k].1@.namespace == kk1 {
                    let k = choose|k: int|
                        0 <= k < j + 1 && (#[trigger] db.extraction_policies.kseq()[k]).0@ == kk2
                            && db.extraction_policies.kseq()[k].1@.namespace == kk1;
                    if k < j {
                        assert(set_at(pre, kk1).contains(kk2));
                        assert(set_at(policy_tbl@, kk1).contains(kk2));
                    } else {
                        assert(set_at(policy_tbl@, entry.1@.namespace).contains(entry.0@));
                    }
                }
            }
        }
    }
    proof {
        assert forall|ns: Seq<char>, c: Seq<char>| #[trigger] set_at(policy_tbl@, ns).contains(c)
            <==> (db@.extraction_policies.contains_key(c) && db@.extraction_policies[c].namespace
            == ns) by {
            if set_at(policy_tbl@, ns).contains(c) {
                let k = choose|k: int|
                    0 <= k < db.extraction_policies.kseq().len() && (
                    #[trigger] db.extraction_policies.kseq()[k]).0@ == c
                        && db.extraction_policies.kseq()[k].1@.namespace == ns;
            }
            if db@.extraction_policies.contains_key(c) {
                let k = choose|k: int|
                    0 <= k < db.extraction_policies.kseq().len()
                        && #[trigger] db.extraction_policies.kseq()[k].0@ == c;
                assert(db.extraction_policies.kseq()[k].1@ == db@.extraction_policies[c]);
            }
        }
    }
    ix.extraction_policies_table = policy_tbl;

    let mut exec_tbl: KvList<StringSet> = KvList::new();
    let n_e = db.executors.len();
    for j in 0..n_e
        invariant
            n_e == db.executors.kseq().len(),
            exec_tbl.inv(),
            forall|kk1: Seq<char>, kk2: Seq<char>|
                #[trigger] set_at(exec_tbl@, kk1).contains(kk2) <==> (exists|k: int|
                    0 <= k < j && (#[trigger] db.executors.kseq()[k]).0@ == kk2
                        && db.executors.kseq()[k].1@.extractor.name == kk1),
    {
        let entry = db.executors.entry_at(j);
        let ghost pre = exec_tbl@;
        table_insert(&mut exec_tbl, &entry.1.extractor.name, &entry.0);
        proof {
            assert forall|kk1: Seq<char>, kk2: Seq<char>|
                #[trigger] set_at(exec_tbl@, kk1).contains(kk2) <==> (exists|k: int|
                    0 <= k < j + 1 && (#[trigger] db.executors.kseq()[k]).0@ == kk2
                        && db.executors.kseq()[k].1@.extractor.name == kk1) by {
                if set_at(exec_tbl@, kk1).contains(kk2) {
                    if kk2 == entry.0@ && kk1 == entry.1@.extractor.name {
                        assert(db.executors.kseq()[j as int].0@ == kk2);
                    } else {
                        assert(set_at(pre, kk1).contains(kk2));
                        let k = choose|k: int|
                            0 <= k < j && (#[trigger] db.executors.kseq()[k]).0@ == kk2
                                && db.executors.kseq()[k].1@.extractor.name == kk1;
                    }
                }
                if exists|k: int|
                    0 <= k < j + 1 && (#[trigger] db.executors.kseq()[k]).0@ == kk2
                        && db.executors.kseq()[k].1@.extractor.name == kk1 {
                    let k = choose|k: int|
                        0 <= k < j + 1 && (#[trigger] db.executors.kseq()[k]).0@ == kk2
                            && db.executors.kseq()[k].1@.extractor.name == kk1;
                    if k < j {
                        assert(set_at(pre, kk1).contains(kk2));
                        assert(set_at(exec_tbl@, kk1).contains(kk2));
                    } else {
                        assert(set_at(exec_tbl@, entry.1@.extractor.name).contains(entry.0@));
                    }
                }
            }
        }
    }
    proof {
        assert forall|x: Seq<char>, e: Seq<char>| #[trigger] set_at(exec_tbl@, x).contains(e) <==> (
        db@.executors.contains_key(e) && db@.executors[e].extractor.name == x) by {
            if set_at(exec_tbl@, x).contains(e) {
                let k = choose|k: int|
                    0 <= k < db.executors.kseq().len() && (#[trigger] db.executors.kseq()[k]).0@
                        == e && db.executors.kseq()[k].1@.extractor.name == x;
            }
            if db@.executors.contains_key(e) {
                let k = choose|k: int|
                    0 <= k < db.executors.kseq().len()
                        && #[trigger] db.executors.kseq()[k].0@ == e;
                assert(db.executors.kseq()[k].1@ == db@.executors[e]);
            }
        }
    }
    ix.extractor_executors_table = exec_tbl;

    let mut index_tbl: KvList<StringSet> = KvList::new();
    let n_i = db.index_table.len();
    for j in 0..n_i
        invariant
            n_i == db.index_table.kseq().len(),
            index_tbl.inv(),
            forall|kk1: Seq<char>, kk2: Seq<char>|
                #[trigger] set_at(index_tbl@, kk1).contains(kk2) <==> (exists|k: int|
                    0 <= k < j && (#[trigger] db.index_table.kseq()[k]).0@ == kk2
                        && db.index_table.kseq()[k].1@.namespace == kk1),
    {
        let entry = db.index_table.entry_at(j);
        let ghost pre = index_tbl@;
        table_insert(&mut index_tbl, &entry.1.namespace, &entry.0);
        proof {
            assert forall|kk1: Seq<char>, kk2: Seq<char>|
                #[trigger] set_at(index_tbl@, kk1).contains(kk2) <==> (exists|k: int|
                    0 <= k < j + 1 && (#[trigger] db.index_table.kseq()[k]).0@ == kk2
                        && db.index_table.kseq()[k].1@.namespace == kk1) by {
                if set_at(index_tbl@, kk1).contains(kk2) {
                    if kk2 == entry.0@ && kk1 == entry.1@.namespace {
                        assert(db.index_table.kseq()[j as int].0@ == kk2);
                    } else {
                        assert(set_at(pre, kk1).contains(kk2));
                        let k = choose|k: int|
                            0 <= k < j && (#[trigger] db.index_table.kseq()[k]).0@ == kk2
                                && db.index_table.kseq()[k].1@.namespace == kk1;
                    }
                }
                if exists|k: int|
                    0 <= k < j + 1 && (#[trigger] db.index_table.kseq()[k]).0@ == kk2
                        && db.index_table.kseq()[k].1@.namespace == kk1 {
                    let k = choose|k: int|
                        0 <= k < j + 1 && (#[trigger] db.index_table.kseq()[k]).0@ == kk2
                            && db.index_table.kseq()[k].1@.namespace == kk1;
                    if k < j {
                        assert(set_at(pre, kk1).contains(kk2));
                        assert(set_at(index_tbl@, kk1).contains(kk2));
                    } else {
                        assert(set_at(index_tbl@, entry.1@.namespace).contains(entry.0@));
                    }
                }
            }
        }
    }
    proof {
        assert forall|ns: Seq<char>, c: Seq<char>| #[trigger] set_at(index_tbl@, ns).contains(c)
            <==> (db@.index_table.contains_key(c) && db@.index_table[c].namespace == ns) by {
            if set_at(index_tbl@, ns).contains(c) {
                let k = choose|k: int|
                    0 <= k < db.index_table.kseq().len() && (#[trigger] db.index_table.kseq()[k]).0@ == c && db.index_table.kseq()[k].1@.namespace == ns;
            }
            if db@.index_table.contains_key(c) {
                let k = choose|k: int|
                    0 <= k < db.index_table.kseq().len()
                        && #[trigger] db.index_table.kseq()[k].0@ == c;
                assert(db.index_table.kseq()[k].1@ == db@.index_table[c]);
            }
        }
    }
    ix.namespace_index_table = index_tbl;

    let mut schema_tbl: KvList<StringSet> = KvList::new();
    let n_s = db.structured_data_schemas.len();
    for j in 0..n_s
        invariant
            n_s == db.structured_data_schemas.kseq().len(),
            schema_tbl.inv(),
            forall|kk1: Seq<char>, kk2: Seq<char>|
                #[trigger] set_at(schema_tbl@, kk1).contains(kk2) <==> (exists|k: int|
                    0 <= k < j && (#[trigger] db.structured_data_schemas.kseq()[k]).0@ == kk2
                        && db.structured_data_schemas.kseq()[k].1@.namespace == kk1),
    {
        let entry = db.structured_data_schemas.entry_at(j);
        let ghost pre = schema_tbl@;
        table_insert(&mut schema_tbl, &entry.1.namespace, &entry.0);
        proof {
            assert forall|kk1: Seq<char>, kk2: Seq<char>|
                #[trigger] set_at(schema_tbl@, kk1).contains(kk2) <==> (exists|k: int|
                    0 <= k < j + 1 && (#[trigger] db.structured_data_schemas.kseq()[k]).0@ == kk2
                        && db.structured_data_schemas.kseq()[k].1@.namespace == kk1) by {
                if set_at(schema_tbl@, kk1).contains(kk2) {
                    if kk2 == entry.0@ && kk1 == entry.1@.namespace {
                        assert(db.structured_data_schemas.kseq()[j as int].0@ == kk2);
                    } else {
                        assert(set_at(pre, kk1).contains(kk2));
                        let k = choose|k: int|
                            0 <= k < j && (#[trigger] db.structured_data_schemas.kseq()[k]).0@ == kk2
                                && db.structured_data_schemas.kseq()[k].1@.namespace == kk1;
                    }
                }
                if exists|k: int|
                    0 <= k < j + 1 && (#[trigger] db.structured_data_schemas.kseq()[k]).0@ == kk2
                        && db.structured_data_schemas.kseq()[k].1@.namespace == kk1 {
                    let k = choose|k: int|
                        0 <= k < j + 1 && (#[trigger] db.structured_data_schemas.kseq()[k]).0@ == kk2
                            && db.structured_data_schemas.kseq()[k].1@.namespace == kk1;
                    if k < j {
                        assert(set_at(pre, kk1).contains(kk2));
                        assert(set_at(schema_tbl@, kk1).contains(kk2));
                    } else {
                        assert(set_at(schema_tbl@, entry.1@.namespace).contains(entry.0@));
                    }
                }
            }
        }
    }
    proof {
        assert forall|ns: Seq<char>, c: Seq<char>| #[trigger] set_at(schema_tbl@, ns).contains(c)
            <==> (db@.structured_data_schemas.contains_key(c)
            && db@.structured_data_schemas[c].namespace == ns) by {
            if set_at(schema_tbl@, ns).contains(c) {
                let k = choose|k: int|
                    0 <= k < db.structured_data_schemas.kseq().len() && (
                    #[trigger] db.structured_data_schemas.kseq()[k]).0@ == c
                        && db.structured_data_schemas.kseq()[k].1@.namespace == ns;
            }
            if db@.structured_data_schemas.contains_key(c) {
                let k = choose|k: int|
                    0 <= k < db.structured_data_schemas.kseq().len()
                        && #[trigger] db.structured_data_schemas.kseq()[k].0@ == c;
                assert(db.structured_data_schemas.kseq()[k].1@ == db@.structured_data_schemas[c]);
            }
        }
    }
    ix.schemas_by_namespace = schema_tbl;

    let mut counts: KvList<u64> = KvList::new();
    let n_x = db.executors.len();
    for j in 0..n_x
        invariant
            n_x == db.executors.kseq().len(),
            counts.inv(),
            forall|e: Seq<char>|
                #[trigger] counts@.contains_key(e) <==> (exists|k: int|
                    0 <= k < j && (#[trigger] db.executors.kseq()[k]).0@ == e),
            forall|e: Seq<char>|
                #[trigger] counts@.contains_key(e) ==> counts@[e] == set_at(
                    db@.task_assignments,
                    e,
                ).len() as u64,
    {
        let entry = db.executors.entry_at(j);
        let c: usize = match db.task_assignments.get(&entry.0) {
            Some(v) => v.count(),
            None => 0,
        };
        counts.put(entry.0.clone(), c as u64);
        proof {
            assert(c as u64 == set_at(db@.task_assignments, entry.0@).len() as u64);
            assert forall|e: Seq<char>| #[trigger] counts@.contains_key(e) implies (exists|k: int|
                0 <= k < j + 1 && (#[trigger] db.executors.kseq()[k]).0@ == e) by {
                if e == entry.0@ {
                    assert(db.executors.kseq()[j as int].0@ == e);
                } else {
                    let k = choose|k: int|
                        0 <= k < j && (#[trigger] db.executors.kseq()[k]).0@ == e;
                }
            }
        }
    }
    proof {
        assert(counts@.dom() =~= db@.executors.dom()) by {
            assert forall|e: Seq<char>| #[trigger] counts@.dom().contains(e)
                <==> db@.executors.dom().contains(e) by {
                if counts@.contains_key(e) {
                    let k = choose|k: int|
                        0 <= k < db.executors.kseq().len()
                            && (#[trigger] db.executors.kseq()[k]).0@ == e;
                }
                if db@.executors.contains_key(e) {
                    let k = choose|k: int|
                        0 <= k < db.executors.kseq().len()
                            && #[trigger] db.executors.kseq()[k].0@ == e;
                }
            }
        }
    }
    ix.executor_running_task_count = counts;

    ix
}

/// Two index states consistent with one store agree on every
/// membership and every count.
pub proof fn lemma_consistent_agree(s: SpecStore, a: SpecIndexes, b: SpecIndexes)
    requires
        consistent(s, a),
        consistent(s, b),
    ensures
        a.unassigned_tasks == b.unassigned_tasks,
        a.unprocessed_state_changes == b.unprocessed_state_changes,
        forall|ns: Seq<char>| #[trigger] set_at(a.content_namespace_table, ns) == set_at(
            b.content_namespace_table,
            ns,
        ),
        forall|ns: Seq<char>| #[trigger] set_at(a.extraction_policies_table, ns) == set_at(
            b.extraction_policies_table,
            ns,
        ),
        forall|x: Seq<char>| #[trigger] set_at(a.extractor_executors_table, x) == set_at(
            b.extractor_executors_table,
            x,
        ),
        forall|ns: Seq<char>| #[trigger] set_at(a.namespace_index_table, ns) == set_at(
            b.namespace_index_table,
            ns,
        ),
        forall|x: Seq<char>| #[trigger] set_at(a.unfinished_tasks_by_extractor, x) == set_at(
            b.unfinished_tasks_by_extractor,
            x,
        ),
        a.executor_running_task_count == b.executor_running_task_count,
        forall|ns: Seq<char>| #[trigger] set_at(a.schemas_by_namespace, ns) == set_at(
            b.schemas_by_namespace,
            ns,
        ),
{
    assert(a.unassigned_tasks =~= b.unassigned_tasks);
    assert(a.unprocessed_state_changes =~= b.unprocessed_state_changes);
    assert forall|ns: Seq<char>| #[trigger] set_at(a.content_namespace_table, ns) == set_at(
        b.content_namespace_table,
        ns,
    ) by {
        assert(set_at(a.content_namespace_table, ns) =~= set_at(b.content_namespace_table, ns));
    }
    assert forall|ns: Seq<char>| #[trigger] set_at(a.extraction_policies_table, ns) == set_at(
        b.extraction_policies_table,
        ns,
    ) by {
        assert(set_at(a.extraction_policies_table, ns) =~= set_at(
            b.extraction_policies_table,
            ns,
        ));
    }
    assert forall|x: Seq<char>| #[trigger] set_at(a.extractor_executors_table, x) == set_at(
        b.extractor_executors_table,
        x,
    ) by {
        assert(set_at(a.extractor_executors_table, x) =~= set_at(b.extractor_executors_table, x));
    }
    assert forall|ns: Seq<char>| #[trigger] set_at(a.namespace_index_table, ns) == set_at(
        b.namespace_index_table,
        ns,
    ) by {
        assert(set_at(a.namespace_index_table, ns) =~= set_at(b.namespace_index_table, ns));
    }
    assert forall|x: Seq<char>| #[trigger] set_at(a.unfinished_tasks_by_extractor, x) == set_at(
        b.unfinished_tasks_by_extractor,
        x,
    ) by {
        assert(set_at(a.unfinished_tasks_by_extractor, x) =~= set_at(
            b.unfinished_tasks_by_extractor,
            x,
        ));
    }
    assert(a.executor_running_task_count =~= b.executor_running_task_count);
    assert forall|ns: Seq<char>| #[trigger] set_at(a.schemas_by_namespace, ns) == set_at(
        b.schemas_by_namespace,
        ns,
    ) by {
        assert(set_at(a.schemas_by_namespace, ns) =~= set_at(b.schemas_by_namespace, ns));
    }
}

} // verus!
