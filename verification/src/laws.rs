//! The laws that tie the two index sides together.
//!
//! `consistent` says that the nine reverse indexes hold exactly what
//! the forward index implies; `store_wf` says what the forward index
//! itself keeps true of assignments.  Both hold of the empty state,
//! and `lemma_dispatch_preserves_consistency` carries them across any
//! admissible committed request, so they hold after any sequence of
//! such requests.

use vstd::prelude::*;

use crate::model::ContentMetadata;
use crate::model::SpecStateChange;
use crate::model::StateChange;
use crate::model::StateChangeProcessed;
use crate::model::Task;
use crate::model::is_terminal;
use crate::requests::RequestPayload;
use crate::requests::StateMachineUpdateRequest;
use crate::state::SpecIndexes;
use crate::state::assign_fold;
use crate::state::contents_idx;
use crate::state::contents_put;
use crate::state::counts_fold;
use crate::state::count_at;
use crate::state::create_tasks_idx;
use crate::state::dispatched_indexes;
use crate::state::forward_res;
use crate::state::ids_inserted;
use crate::state::ids_removed;
use crate::state::indexes_step_changes;
use crate::state::remove_executor_idx;
use crate::state::sc_mark_ok;
use crate::state::sc_marked;
use crate::state::sc_with_new;
use crate::state::set_at;
use crate::state::table_without;
use crate::state::tasks_put;
use crate::state::unassign_fold;
use crate::store::SpecStore;
use crate::store::empty_store;
use crate::state::empty_indexes;

verus! {

/// Whether some executor's persisted assignment set contains the id.
pub open spec fn assigned(s: SpecStore, t: Seq<char>) -> bool {
    exists|e: Seq<char>| #[trigger] set_at(s.task_assignments, e).contains(t)
}

/// What the forward index keeps true of assignments: every assigned
/// task exists and is unfinished, a task sits in at most one
/// executor's set, and every assignment key names a live executor.
pub open spec fn store_wf(s: SpecStore) -> bool {
    &&& forall|e: Seq<char>, t: Seq<char>|
        #[trigger] set_at(s.task_assignments, e).contains(t) ==> s.tasks.contains_key(t)
            && !is_terminal(s.tasks[t].outcome)
    &&& forall|e1: Seq<char>, e2: Seq<char>, t: Seq<char>|
        #[trigger] set_at(s.task_assignments, e1).contains(t) && #[trigger] set_at(
            s.task_assignments,
            e2,
        ).contains(t) ==> e1 == e2
    &&& forall|e: Seq<char>|
        #[trigger] s.task_assignments.contains_key(e) ==> s.executors.contains_key(e)
}

/// The reverse indexes hold exactly what the forward index implies.
pub open spec fn consistent(s: SpecStore, ix: SpecIndexes) -> bool {
    // a task is unassigned exactly when it exists, is unfinished, and
    // no executor holds it
    &&& forall|t: Seq<char>|
        #[trigger] ix.unassigned_tasks.contains(t) <==> (s.tasks.contains_key(t) && !is_terminal(
            s.tasks[t].outcome,
        ) && !assigned(s, t))
    // a change is unprocessed exactly when its persisted record has
    // no processed time
    &&& forall|c: Seq<char>|
        #[trigger] ix.unprocessed_state_changes.contains(c) <==> (s.state_changes.contains_key(c)
            && s.state_changes[c].processed_at is None)
    &&& forall|ns: Seq<char>, c: Seq<char>|
        #[trigger] set_at(ix.content_namespace_table, ns).contains(c) <==> (
        s.content_table.contains_key(c) && s.content_table[c].namespace == ns)
    &&& forall|ns: Seq<char>, p: Seq<char>|
        #[trigger] set_at(ix.extraction_policies_table, ns).contains(p) <==> (
        s.extraction_policies.contains_key(p) && s.extraction_policies[p].namespace == ns)
    &&& forall|x: Seq<char>, e: Seq<char>|
        #[trigger] set_at(ix.extractor_executors_table, x).contains(e) <==> (
        s.executors.contains_key(e) && s.executors[e].extractor.name == x)
    &&& forall|ns: Seq<char>, i: Seq<char>|
        #[trigger] set_at(ix.namespace_index_table, ns).contains(i) <==> (
        s.index_table.contains_key(i) && s.index_table[i].namespace == ns)
    &&& forall|x: Seq<char>, t: Seq<char>|
        #[trigger] set_at(ix.unfinished_tasks_by_extractor, x).contains(t) <==> (
        s.tasks.contains_key(t) && s.tasks[t].extractor == x && !is_terminal(s.tasks[t].outcome))
    &&& ix.executor_running_task_count.dom() == s.executors.dom()
    &&& forall|e: Seq<char>|
        #[trigger] ix.executor_running_task_count.contains_key(e)
            ==> ix.executor_running_task_count[e] == set_at(s.task_assignments, e).len() as u64
    &&& forall|ns: Seq<char>, c: Seq<char>|
        #[trigger] set_at(ix.schemas_by_namespace, ns).contains(c) <==> (
        s.structured_data_schemas.contains_key(c) && s.structured_data_schemas[c].namespace == ns)
}

/// A fresh replica is consistent: empty store, empty indexes.
pub proof fn lemma_empty_consistent()
    ensures
        store_wf(empty_store()),
        consistent(empty_store(), empty_indexes()),
{
    assert(empty_indexes().executor_running_task_count.dom() =~= empty_store().executors.dom());
}

/// Every task id is in exactly one place: the unassigned set, some
/// executor's assignment set, or — only once its outcome is terminal —
/// neither.
pub proof fn lemma_task_partition(s: SpecStore, ix: SpecIndexes, t: Seq<char>)
    requires
        store_wf(s),
        consistent(s, ix),
        s.tasks.contains_key(t),
    ensures
        !is_terminal(s.tasks[t].outcome) ==> (ix.unassigned_tasks.contains(t) <==> !assigned(s, t)),
        is_terminal(s.tasks[t].outcome) ==> !ix.unassigned_tasks.contains(t) && !assigned(s, t),
{
    if is_terminal(s.tasks[t].outcome) {
        if assigned(s, t) {
            let e = choose|e: Seq<char>| #[trigger] set_at(s.task_assignments, e).contains(t);
            assert(!is_terminal(s.tasks[t].outcome));
        }
    }
}

/// Every executor's running count equals the size of its persisted
/// assignment set.
pub proof fn lemma_running_count_matches(s: SpecStore, ix: SpecIndexes, e: Seq<char>)
    requires
        consistent(s, ix),
        s.executors.contains_key(e),
    ensures
        ix.executor_running_task_count.contains_key(e),
        ix.executor_running_task_count[e] == set_at(s.task_assignments, e).len() as u64,
{
    assert(ix.executor_running_task_count.dom().contains(e));
}

/// The unprocessed set is exactly the set of persisted changes whose
/// record carries no processed time.
pub proof fn lemma_unprocessed_matches(s: SpecStore, ix: SpecIndexes, c: Seq<char>)
    requires
        consistent(s, ix),
    ensures
        ix.unprocessed_state_changes.contains(c) <==> (s.state_changes.contains_key(c)
            && s.state_changes[c].processed_at is None),
{
}

// ---------------------------------------------------------------
// Pointwise characterizations of the folds.
// ---------------------------------------------------------------

pub open spec fn has_change_id(cs: Seq<StateChange>, x: Seq<char>) -> bool {
    exists|i: int| 0 <= i < cs.len() && (#[trigger] cs[i]).id@ == x
}

pub open spec fn has_ps_id(ps: Seq<StateChangeProcessed>, x: Seq<char>) -> bool {
    exists|i: int| 0 <= i < ps.len() && (#[trigger] ps[i]).state_change_id@ == x
}

pub open spec fn has_task_id(ts: Seq<Task>, t: Seq<char>) -> bool {
    exists|i: int| 0 <= i < ts.len() && (#[trigger] ts[i]).id@ == t
}

pub open spec fn has_task_pair(ts: Seq<Task>, t: Seq<char>, x: Seq<char>) -> bool {
    exists|i: int| 0 <= i < ts.len() && (#[trigger] ts[i]).id@ == t && ts[i].extractor@ == x
}

pub open spec fn has_content_id(cs: Seq<ContentMetadata>, c: Seq<char>) -> bool {
    exists|i: int| 0 <= i < cs.len() && (#[trigger] cs[i]).id@ == c
}

pub open spec fn has_content_pair(cs: Seq<ContentMetadata>, c: Seq<char>, ns: Seq<char>) -> bool {
    exists|i: int| 0 <= i < cs.len() && (#[trigger] cs[i]).id@ == c && cs[i].namespace@ == ns
}

pub open spec fn has_asg_task(asg: Seq<(String, String)>, t: Seq<char>) -> bool {
    exists|i: int| 0 <= i < asg.len() && (#[trigger] asg[i]).0@ == t
}

pub open spec fn has_asg_pair(asg: Seq<(String, String)>, t: Seq<char>, e: Seq<char>) -> bool {
    exists|i: int| 0 <= i < asg.len() && (#[trigger] asg[i]).0@ == t && asg[i].1@ == e
}

pub open spec fn has_asg_exec(asg: Seq<(String, String)>, e: Seq<char>) -> bool {
    exists|i: int| 0 <= i < asg.len() && (#[trigger] asg[i]).1@ == e
}

proof fn lemma_ids_inserted(u: Set<Seq<char>>, cs: Seq<StateChange>, x: Seq<char>)
    ensures
        ids_inserted(u, cs).contains(x) <==> (u.contains(x) || has_change_id(cs, x)),
    decreases cs.len(),
{
    if cs.len() > 0 {
        lemma_ids_inserted(u, cs.drop_last(), x);
        if cs.last().id@ == x {
            assert(cs[cs.len() - 1].id@ == x);
        } else if has_change_id(cs, x) {
            let i = choose|i: int| 0 <= i < cs.len() && (#[trigger] cs[i]).id@ == x;
            assert(cs.drop_last()[i].id@ == x);
        } else if has_change_id(cs.drop_last(), x) {
            let i = choose|i: int|
                0 <= i < cs.drop_last().len() && (#[trigger] cs.drop_last()[i]).id@ == x;
            assert(cs[i].id@ == x);
        }
    }
}

proof fn lemma_ids_removed(u: Set<Seq<char>>, ps: Seq<StateChangeProcessed>, x: Seq<char>)
    ensures
        ids_removed(u, ps).contains(x) <==> (u.contains(x) && !has_ps_id(ps, x)),
    decreases ps.len(),
{
    if ps.len() > 0 {
        lemma_ids_removed(u, ps.drop_last(), x);
        if ps.last().state_change_id@ == x {
            assert(ps[ps.len() - 1].state_change_id@ == x);
        } else if has_ps_id(ps, x) {
            let i = choose|i: int| 0 <= i < ps.len() && (#[trigger] ps[i]).state_change_id@ == x;
            assert(ps.drop_last()[i].state_change_id@ == x);
        } else if has_ps_id(ps.drop_last(), x) {
            let i = choose|i: int|
                0 <= i < ps.drop_last().len() && (#[trigger] ps.drop_last()[i]).state_change_id@ == x;
            assert(ps[i].state_change_id@ == x);
        }
    }
}

proof fn lemma_sc_with_new(m: Map<Seq<char>, SpecStateChange>, cs: Seq<StateChange>, c: Seq<char>)
    ensures
        sc_with_new(m, cs).contains_key(c) <==> (m.contains_key(c) || has_change_id(cs, c)),
        !has_change_id(cs, c) && m.contains_key(c) ==> sc_with_new(m, cs)[c] == m[c],
        has_change_id(cs, c) ==> exists|i: int|
            0 <= i < cs.len() && (#[trigger] cs[i]).id@ == c && sc_with_new(m, cs)[c] == cs[i]@,
    decreases cs.len(),
{
    if cs.len() > 0 {
        lemma_sc_with_new(m, cs.drop_last(), c);
        if cs.last().id@ == c {
            assert(cs[cs.len() - 1].id@ == c && sc_with_new(m, cs)[c] == cs[cs.len() - 1]@);
        } else {
            if has_change_id(cs, c) {
                let i = choose|i: int| 0 <= i < cs.len() && (#[trigger] cs[i]).id@ == c;
                assert(cs.drop_last()[i].id@ == c);
                let j = choose|j: int|
                    0 <= j < cs.drop_last().len() && (#[trigger] cs.drop_last()[j]).id@ == c
                        && sc_with_new(m, cs.drop_last())[c] == cs.drop_last()[j]@;
                assert(cs[j].id@ == c && sc_with_new(m, cs)[c] == cs[j]@);
            } else if has_change_id(cs.drop_last(), c) {
                let i = choose|i: int|
                    0 <= i < cs.drop_last().len() && (#[trigger] cs.drop_last()[i]).id@ == c;
                assert(cs[i].id@ == c);
            }
        }
    }
}

proof fn lemma_sc_marked(m: Map<Seq<char>, SpecStateChange>, ps: Seq<StateChangeProcessed>, c: Seq<char>)
    ensures
        sc_marked(m, ps).contains_key(c) <==> m.contains_key(c),
        !has_ps_id(ps, c) && m.contains_key(c) ==> sc_marked(m, ps)[c] == m[c],
        has_ps_id(ps, c) && m.contains_key(c) ==> sc_marked(m, ps)[c].processed_at is Some,
    decreases ps.len(),
{
    if ps.len() > 0 {
        lemma_sc_marked(m, ps.drop_last(), c);
        if ps.last().state_change_id@ == c {
            assert(ps[ps.len() - 1].state_change_id@ == c);
        } else {
            if has_ps_id(ps, c) {
                let i = choose|i: int|
                    0 <= i < ps.len() && (#[trigger] ps[i]).state_change_id@ == c;
                assert(ps.drop_last()[i].state_change_id@ == c);
            } else if has_ps_id(ps.drop_last(), c) {
                let i = choose|i: int|
                    0 <= i < ps.drop_last().len() && (#[trigger] ps.drop_last()[i]).state_change_id@ == c;
                assert(ps[i].state_change_id@ == c);
            }
        }
    }
}

proof fn lemma_tasks_put(m: Map<Seq<char>, crate::model::SpecTask>, ts: Seq<Task>, t: Seq<char>)
    ensures
        tasks_put(m, ts).contains_key(t) <==> (m.contains_key(t) || has_task_id(ts, t)),
        !has_task_id(ts, t) && m.contains_key(t) ==> tasks_put(m, ts)[t] == m[t],
        has_task_id(ts, t) ==> exists|i: int|
            0 <= i < ts.len() && (#[trigger] ts[i]).id@ == t && tasks_put(m, ts)[t] == ts[i]@,
    decreases ts.len(),
{
    if ts.len() > 0 {
        lemma_tasks_put(m, ts.drop_last(), t);
        if ts.last().id@ == t {
            assert(ts[ts.len() - 1].id@ == t && tasks_put(m, ts)[t] == ts[ts.len() - 1]@);
        } else {
            if has_task_id(ts, t) {
                let i = choose|i: int| 0 <= i < ts.len() && (#[trigger] ts[i]).id@ == t;
                assert(ts.drop_last()[i].id@ == t);
                let j = choose|j: int|
                    0 <= j < ts.drop_last().len() && (#[trigger] ts.drop_last()[j]).id@ == t
                        && tasks_put(m, ts.drop_last())[t] == ts.drop_last()[j]@;
                assert(ts[j].id@ == t && tasks_put(m, ts)[t] == ts[j]@);
            } else if has_task_id(ts.drop_last(), t) {
                let i = choose|i: int|
                    0 <= i < ts.drop_last().len() && (#[trigger] ts.drop_last()[i]).id@ == t;
                assert(ts[i].id@ == t);
            }
        }
    }
}

proof fn lemma_contents_put(
    m: Map<Seq<char>, crate::model::SpecContentMetadata>,
    cs: Seq<ContentMetadata>,
    c: Seq<char>,
)
    ensures
        contents_put(m, cs).contains_key(c) <==> (m.contains_key(c) || has_content_id(cs, c)),
        !has_content_id(cs, c) && m.contains_key(c) ==> contents_put(m, cs)[c] == m[c],
        has_content_id(cs, c) ==> exists|i: int|
            0 <= i < cs.len() && (#[trigger] cs[i]).id@ == c && contents_put(m, cs)[c] == cs[i]@,
    decreases cs.len(),
{
    if cs.len() > 0 {
        lemma_contents_put(m, cs.drop_last(), c);
        if cs.last().id@ == c {
            assert(cs[cs.len() - 1].id@ == c && contents_put(m, cs)[c] == cs[cs.len() - 1]@);
        } else {
            if has_content_id(cs, c) {
                let i = choose|i: int| 0 <= i < cs.len() && (#[trigger] cs[i]).id@ == c;
                assert(cs.drop_last()[i].id@ == c);
                let j = choose|j: int|
                    0 <= j < cs.drop_last().len() && (#[trigger] cs.drop_last()[j]).id@ == c
                        && contents_put(m, cs.drop_last())[c] == cs.drop_last()[j]@;
                assert(cs[j].id@ == c && contents_put(m, cs)[c] == cs[j]@);
            } else if has_content_id(cs.drop_last(), c) {
                let i = choose|i: int|
                    0 <= i < cs.drop_last().len() && (#[trigger] cs.drop_last()[i]).id@ == c;
                assert(cs[i].id@ == c);
            }
        }
    }
}

proof fn lemma_create_tasks_idx(ix: SpecIndexes, ts: Seq<Task>, t: Seq<char>, x: Seq<char>)
    ensures
        create_tasks_idx(ix, ts) == (SpecIndexes {
            unassigned_tasks: create_tasks_idx(ix, ts).unassigned_tasks,
            unfinished_tasks_by_extractor: create_tasks_idx(ix, ts).unfinished_tasks_by_extractor,
            ..ix
        }),
        create_tasks_idx(ix, ts).unassigned_tasks.contains(t) <==> (ix.unassigned_tasks.contains(t)
            || has_task_id(ts, t)),
        set_at(create_tasks_idx(ix, ts).unfinished_tasks_by_extractor, x).contains(t) <==> (set_at(
            ix.unfinished_tasks_by_extractor,
            x,
        ).contains(t) || has_task_pair(ts, t, x)),
    decreases ts.len(),
{
    if ts.len() > 0 {
        lemma_create_tasks_idx(ix, ts.drop_last(), t, x);
        if ts.last().id@ == t {
            assert(ts[ts.len() - 1].id@ == t);
            if ts.last().extractor@ == x {
                assert(has_task_pair(ts, t, x));
            }
        }
        if has_task_id(ts, t) && !(ts.last().id@ == t) {
            let i = choose|i: int| 0 <= i < ts.len() && (#[trigger] ts[i]).id@ == t;
            assert(ts.drop_last()[i].id@ == t);
        }
        if has_task_id(ts.drop_last(), t) {
            let i = choose|i: int|
                0 <= i < ts.drop_last().len() && (#[trigger] ts.drop_last()[i]).id@ == t;
            assert(ts[i].id@ == t);
        }
        if has_task_pair(ts, t, x) && !(ts.last().id@ == t && ts.last().extractor@ == x) {
            let i = choose|i: int|
                0 <= i < ts.len() && (#[trigger] ts[i]).id@ == t && ts[i].extractor@ == x;
            assert(ts.drop_last()[i].id@ == t && ts.drop_last()[i].extractor@ == x);
        }
        if has_task_pair(ts.drop_last(), t, x) {
            let i = choose|i: int|
                0 <= i < ts.drop_last().len() && (#[trigger] ts.drop_last()[i]).id@ == t
                    && ts.drop_last()[i].extractor@ == x;
            assert(ts[i].id@ == t && ts[i].extractor@ == x);
        }
    }
}

proof fn lemma_contents_idx(
    m: Map<Seq<char>, Set<Seq<char>>>,
    cs: Seq<ContentMetadata>,
    ns: Seq<char>,
    c: Seq<char>,
)
    ensures
        set_at(contents_idx(m, cs), ns).contains(c) <==> (set_at(m, ns).contains(c)
            || has_content_pair(cs, c, ns)),
    decreases cs.len(),
{
    if cs.len() > 0 {
        lemma_contents_idx(m, cs.drop_last(), ns, c);
        if cs.last().id@ == c && cs.last().namespace@ == ns {
            assert(cs[cs.len() - 1].id@ == c && cs[cs.len() - 1].namespace@ == ns);
        }
        if has_content_pair(cs, c, ns) && !(cs.last().id@ == c && cs.last().namespace@ == ns) {
            let i = choose|i: int|
                0 <= i < cs.len() && (#[trigger] cs[i]).id@ == c && cs[i].namespace@ == ns;
            assert(cs.drop_last()[i].id@ == c && cs.drop_last()[i].namespace@ == ns);
        }
        if has_content_pair(cs.drop_last(), c, ns) {
            let i = choose|i: int|
                0 <= i < cs.drop_last().len() && (#[trigger] cs.drop_last()[i]).id@ == c
                    && cs.drop_last()[i].namespace@ == ns;
            assert(cs[i].id@ == c && cs[i].namespace@ == ns);
        }
    }
}

proof fn lemma_unassign_fold(u: Set<Seq<char>>, asg: Seq<(String, String)>, t: Seq<char>)
    ensures
        unassign_fold(u, asg).contains(t) <==> (u.contains(t) && !has_asg_task(asg, t)),
    decreases asg.len(),
{
    if asg.len() > 0 {
        lemma_unassign_fold(u, asg.drop_last(), t);
        if asg.last().0@ == t {
            assert(asg[asg.len() - 1].0@ == t);
        } else if has_asg_task(asg, t) {
            let i = choose|i: int| 0 <= i < asg.len() && (#[trigger] asg[i]).0@ == t;
            assert(asg.drop_last()[i].0@ == t);
        } else if has_asg_task(asg.drop_last(), t) {
            let i = choose|i: int|
                0 <= i < asg.drop_last().len() && (#[trigger] asg.drop_last()[i]).0@ == t;
            assert(asg[i].0@ == t);
        }
    }
}

proof fn lemma_assign_fold(
    m: Map<Seq<char>, Set<Seq<char>>>,
    asg: Seq<(String, String)>,
    e: Seq<char>,
    t: Seq<char>,
)
    ensures
        assign_fold(m, asg).contains_key(e) <==> (m.contains_key(e) || has_asg_exec(asg, e)),
        set_at(assign_fold(m, asg), e).contains(t) <==> (set_at(m, e).contains(t) || has_asg_pair(
            asg,
            t,
            e,
        )),
    decreases asg.len(),
{
    if asg.len() > 0 {
        lemma_assign_fold(m, asg.drop_last(), e, t);
        if asg.last().1@ == e {
            assert(asg[asg.len() - 1].1@ == e);
            if asg.last().0@ == t {
                assert(has_asg_pair(asg, t, e));
            }
        }
        if has_asg_exec(asg, e) && asg.last().1@ != e {
            let i = choose|i: int| 0 <= i < asg.len() && (#[trigger] asg[i]).1@ == e;
            assert(asg.drop_last()[i].1@ == e);
        }
        if has_asg_exec(asg.drop_last(), e) {
            let i = choose|i: int|
                0 <= i < asg.drop_last().len() && (#[trigger] asg.drop_last()[i]).1@ == e;
            assert(asg[i].1@ == e);
        }
        if has_asg_pair(asg, t, e) && !(asg.last().0@ == t && asg.last().1@ == e) {
            let i = choose|i: int|
                0 <= i < asg.len() && (#[trigger] asg[i]).0@ == t && asg[i].1@ == e;
            assert(asg.drop_last()[i].0@ == t && asg.drop_last()[i].1@ == e);
        }
        if has_asg_pair(asg.drop_last(), t, e) {
            let i = choose|i: int|
                0 <= i < asg.drop_last().len() && (#[trigger] asg.drop_last()[i]).0@ == t
                    && asg.drop_last()[i].1@ == e;
            assert(asg[i].0@ == t && asg[i].1@ == e);
        }
    }
}

proof fn lemma_counts_fold(
    c: Map<Seq<char>, u64>,
    committed: Map<Seq<char>, Set<Seq<char>>>,
    asg: Seq<(String, String)>,
    e: Seq<char>,
)
    ensures
        counts_fold(c, committed, asg).contains_key(e) <==> (c.contains_key(e) || has_asg_exec(
            asg,
            e,
        )),
        has_asg_exec(asg, e) ==> counts_fold(c, committed, asg)[e] == set_at(committed, e).len()
            as u64,
        !has_asg_exec(asg, e) && c.contains_key(e) ==> counts_fold(c, committed, asg)[e] == c[e],
    decreases asg.len(),
{
    if asg.len() > 0 {
        lemma_counts_fold(c, committed, asg.drop_last(), e);
        if asg.last().1@ == e {
            assert(asg[asg.len() - 1].1@ == e);
        } else if has_asg_exec(asg, e) {
            let i = choose|i: int| 0 <= i < asg.len() && (#[trigger] asg[i]).1@ == e;
            assert(asg.drop_last()[i].1@ == e);
        } else if has_asg_exec(asg.drop_last(), e) {
            let i = choose|i: int|
                0 <= i < asg.drop_last().len() && (#[trigger] asg.drop_last()[i]).1@ == e;
            assert(asg[i].1@ == e);
        }
    }
}

// ---------------------------------------------------------------
// Preservation: consistency survives every admissible commit.
// ---------------------------------------------------------------

/// Batch coherence for content metadata: an id already persisted
/// keeps its namespace, and one id never names two namespaces in one
/// batch.
pub open spec fn contents_admissible(s: SpecStore, cs: Seq<ContentMetadata>) -> bool {
    &&& forall|i: int|
        0 <= i < cs.len() ==> (s.content_table.contains_key((#[trigger] cs[i]).id@)
            ==> s.content_table[cs[i].id@].namespace == cs[i].namespace@)
    &&& forall|i: int, j: int|
        0 <= i < cs.len() && 0 <= j < cs.len() && (#[trigger] cs[i]).id@ == (
        #[trigger] cs[j]).id@ ==> cs[i].namespace@ == cs[j].namespace@
}

/// The requests under which the reverse indexes can stay consistent:
/// ids are fresh where a creation implies so, updates name the task's
/// real executor, and a re-used id keeps its namespace.
pub open spec fn payload_admissible(s: SpecStore, p: RequestPayload) -> bool {
    match p {
        RequestPayload::CreateTasks { tasks } => (forall|i: int|
            0 <= i < tasks@.len() ==> !s.tasks.contains_key((#[trigger] tasks@[i]).id@)
                && !is_terminal(tasks@[i].outcome)) && (forall|i: int, j: int|
            0 <= i < j < tasks@.len() ==> (#[trigger] tasks@[i]).id@ != (
            #[trigger] tasks@[j]).id@),
        RequestPayload::AssignTask { assignments } => (forall|i: int|
            0 <= i < assignments@.len() ==> {
                &&& s.tasks.contains_key((#[trigger] assignments@[i]).0@)
                &&& !is_terminal(s.tasks[assignments@[i].0@].outcome)
                &&& s.executors.contains_key(assignments@[i].1@)
                &&& forall|e2: Seq<char>|
                    #[trigger] set_at(s.task_assignments, e2).contains(assignments@[i].0@)
                        ==> e2 == assignments@[i].1@
            }) && (forall|i: int, j: int|
            0 <= i < assignments@.len() && 0 <= j < assignments@.len() && (
            #[trigger] assignments@[i]).0@ == (#[trigger] assignments@[j]).0@
                ==> assignments@[i].1@ == assignments@[j].1@),
        RequestPayload::UpdateTask { task, mark_finished, executor_id, content_metadata } => {
            &&& s.tasks.contains_key(task.id@)
            &&& s.tasks[task.id@].extractor == task.extractor@
            &&& mark_finished == is_terminal(task.outcome)
            &&& !mark_finished ==> !is_terminal(s.tasks[task.id@].outcome)
            &&& match executor_id {
                Some(x) => mark_finished && set_at(s.task_assignments, x@).contains(task.id@)
                    && set_at(s.task_assignments, x@).len() <= u64::MAX,
                None => !mark_finished || !assigned(s, task.id@),
            }
            &&& contents_admissible(s, content_metadata@)
        },
        RequestPayload::RegisterExecutor { executor_id, .. } => !s.executors.contains_key(
            executor_id@,
        ),
        RequestPayload::CreateContent { content_metadata } => contents_admissible(
            s,
            content_metadata@,
        ),
        RequestPayload::CreateExtractionPolicy {
            extraction_policy,
            updated_structured_data_schema,
            new_structured_data_schema,
        } => {
            &&& (s.extraction_policies.contains_key(extraction_policy.id@)
                ==> s.extraction_policies[extraction_policy.id@].namespace
                == extraction_policy.namespace@)
            &&& (s.structured_data_schemas.contains_key(new_structured_data_schema.id@)
                ==> s.structured_data_schemas[new_structured_data_schema.id@].namespace
                == new_structured_data_schema.namespace@)
            &&& match updated_structured_data_schema {
                Some(u) => (s.structured_data_schemas.contains_key(u.id@)
                    ==> s.structured_data_schemas[u.id@].namespace == u.namespace@) && (u.id@
                    == new_structured_data_schema.id@ ==> u.namespace@
                    == new_structured_data_schema.namespace@),
                None => true,
            }
        },
        RequestPayload::CreateNamespace { name, structured_data_schema } =>
            s.structured_data_schemas.contains_key(structured_data_schema.id@)
                ==> s.structured_data_schemas[structured_data_schema.id@].namespace
                == structured_data_schema.namespace@,
        RequestPayload::CreateIndex { index, namespace, id } => index.namespace@ == namespace@ && (
        s.index_table.contains_key(id@) ==> s.index_table[id@].namespace == namespace@),
        _ => true,
    }
}

/// An admissible request: every new change arrives unprocessed, and
/// its payload respects the store it lands on.  The reverse rules
/// themselves accept a wider class, but outside this class they can
/// contradict the forward index, so no consistency law can hold of
/// it: re-creating a task id that is still assigned would re-enter
/// it into the unassigned set; re-registering a live executor would
/// zero a nonzero running count; finishing a task under a different
/// extractor name than its record's would leave it in the wrong
/// unfinished set; re-creating a content id under a new namespace
/// would leave the id in the old namespace's set.
pub open spec fn admissible(s: SpecStore, req: StateMachineUpdateRequest) -> bool {
    &&& forall|i: int|
        0 <= i < req.new_state_changes@.len() ==> (
        #[trigger] req.new_state_changes@[i]).processed_at is None
    &&& payload_admissible(s, req.payload)
}

proof fn lemma_assign_fold_finite(
    m: Map<Seq<char>, Set<Seq<char>>>,
    asg: Seq<(String, String)>,
    e: Seq<char>,
)
    requires
        forall|e2: Seq<char>| (#[trigger] set_at(m, e2)).finite(),
    ensures
        set_at(assign_fold(m, asg), e).finite(),
    decreases asg.len(),
{
    if asg.len() > 0 {
        lemma_assign_fold_finite(m, asg.drop_last(), e);
        assert forall|e2: Seq<char>| (#[trigger] set_at(
            assign_fold(m, asg.drop_last()),
            e2,
        )).finite() by {
            lemma_assign_fold_finite(m, asg.drop_last(), e2);
        }
    }
}

/// Consistency and store well-formedness survive any admissible
/// request that commits.  Together with `lemma_empty_consistent`
/// this carries the consistency laws — the task partition, the
/// running counts, the unprocessed set — across every admissible
/// sequence from a fresh replica.
#[verifier::rlimit(100)]
pub proof fn lemma_dispatch_preserves_consistency(
    s: SpecStore,
    ix: SpecIndexes,
    req: StateMachineUpdateRequest,
    committed: SpecStore,
)
    requires
        store_wf(s),
        forall|e: Seq<char>| (#[trigger] set_at(s.task_assignments, e)).finite(),
        consistent(s, ix),
        admissible(s, req),
        forward_res(s, req) == Ok::<SpecStore, crate::model::StateMachineError>(committed),
    ensures
        store_wf(committed),
        forall|e: Seq<char>| (#[trigger] set_at(committed.task_assignments, e)).finite(),
        consistent(committed, dispatched_indexes(ix, s, committed, req)),
{
    let news = req.new_state_changes@;
    let ps = req.state_changes_processed@;
    let s1 = SpecStore { state_changes: sc_with_new(s.state_changes, news), ..s };
    let s2 = SpecStore { state_changes: sc_marked(s1.state_changes, ps), ..s1 };
    let i1 = indexes_step_changes(ix, req);
    assert(sc_mark_ok(s1.state_changes, ps));

    assert forall|c: Seq<char>| #[trigger] i1.unprocessed_state_changes.contains(c) <==> (
    s2.state_changes.contains_key(c) && s2.state_changes[c].processed_at is None) by {
        lemma_ids_inserted(ix.unprocessed_state_changes, news, c);
        lemma_ids_removed(ids_inserted(ix.unprocessed_state_changes, news), ps, c);
        lemma_sc_with_new(s.state_changes, news, c);
        lemma_sc_marked(s1.state_changes, ps, c);
    }
    assert(consistent(s2, i1));
    assert(store_wf(s2));

    match req.payload {
        RequestPayload::CreateIndex { index, namespace, id } => {
            let fin = dispatched_indexes(ix, s, committed, req);
            assert forall|ns2: Seq<char>, i2: Seq<char>| #[trigger] set_at(
                fin.namespace_index_table,
                ns2,
            ).contains(i2) <==> (committed.index_table.contains_key(i2)
                && committed.index_table[i2].namespace == ns2) by {
                assert(set_at(ix.namespace_index_table, ns2).contains(i2) <==> (
                s.index_table.contains_key(i2) && s.index_table[i2].namespace == ns2));
            }
            assert(consistent(committed, fin));
        },
        RequestPayload::CreateTasks { tasks } => {
            let fin = dispatched_indexes(ix, s, committed, req);
            assert forall|t: Seq<char>| #[trigger] fin.unassigned_tasks.contains(t) <==> (
            committed.tasks.contains_key(t) && !is_terminal(committed.tasks[t].outcome)
                && !assigned(committed, t)) by {
                lemma_create_tasks_idx(i1, tasks@, t, t);
                lemma_tasks_put(s.tasks, tasks@, t);
                if has_task_id(tasks@, t) {
                    assert(!assigned(committed, t));
                }
            }
            assert forall|x: Seq<char>, t: Seq<char>| #[trigger] set_at(
                fin.unfinished_tasks_by_extractor,
                x,
            ).contains(t) <==> (committed.tasks.contains_key(t) && committed.tasks[t].extractor
                == x && !is_terminal(committed.tasks[t].outcome)) by {
                lemma_create_tasks_idx(i1, tasks@, t, x);
                lemma_tasks_put(s.tasks, tasks@, t);
                if has_task_pair(tasks@, t, x) {
                    let i = choose|i: int|
                        0 <= i < tasks@.len() && (#[trigger] tasks@[i]).id@ == t
                            && tasks@[i].extractor@ == x;
                    let j = choose|j: int|
                        0 <= j < tasks@.len() && (#[trigger] tasks@[j]).id@ == t && tasks_put(
                            s.tasks,
                            tasks@,
                        )[t] == tasks@[j]@;
                    assert(i == j);
                } else if has_task_id(tasks@, t) && committed.tasks[t].extractor == x {
                    let j = choose|j: int|
                        0 <= j < tasks@.len() && (#[trigger] tasks@[j]).id@ == t && tasks_put(
                            s.tasks,
                            tasks@,
                        )[t] == tasks@[j]@;
                    assert(has_task_pair(tasks@, t, x));
                }
            }
            assert forall|e: Seq<char>, t: Seq<char>| #[trigger] set_at(
                committed.task_assignments,
                e,
            ).contains(t) implies committed.tasks.contains_key(t) && !is_terminal(
                committed.tasks[t].outcome,
            ) by {
                lemma_tasks_put(s.tasks, tasks@, t);
            }
            assert(fin == create_tasks_idx(i1, tasks@));
            lemma_create_tasks_idx(i1, tasks@, Seq::empty(), Seq::empty());
            assert(consistent(committed, fin));
            assert(store_wf(committed));
        },
        RequestPayload::AssignTask { assignments } => {
            let asg = assignments@;
            let fin = dispatched_indexes(ix, s, committed, req);
            assert forall|e: Seq<char>| (#[trigger] set_at(
                committed.task_assignments,
                e,
            )).finite() by {
                lemma_assign_fold_finite(s.task_assignments, asg, e);
            }
            assert forall|e: Seq<char>, t: Seq<char>| #[trigger] set_at(
                committed.task_assignments,
                e,
            ).contains(t) implies committed.tasks.contains_key(t) && !is_terminal(
                committed.tasks[t].outcome,
            ) by {
                lemma_assign_fold(s.task_assignments, asg, e, t);
            }
            assert forall|e1: Seq<char>, e2: Seq<char>, t: Seq<char>|
                #[trigger] set_at(committed.task_assignments, e1).contains(t) && #[trigger] set_at(
                    committed.task_assignments,
                    e2,
                ).contains(t) implies e1 == e2 by {
                lemma_assign_fold(s.task_assignments, asg, e1, t);
                lemma_assign_fold(s.task_assignments, asg, e2, t);
                if has_asg_pair(asg, t, e1) && has_asg_pair(asg, t, e2) {
                    let i = choose|i: int|
                        0 <= i < asg.len() && (#[trigger] asg[i]).0@ == t && asg[i].1@ == e1;
                    let j = choose|j: int|
                        0 <= j < asg.len() && (#[trigger] asg[j]).0@ == t && asg[j].1@ == e2;
                    assert(asg[i].1@ == asg[j].1@);
                } else if has_asg_pair(asg, t, e1) {
                    let i = choose|i: int|
                        0 <= i < asg.len() && (#[trigger] asg[i]).0@ == t && asg[i].1@ == e1;
                    assert(set_at(s.task_assignments, e2).contains(t));
                } else if has_asg_pair(asg, t, e2) {
                    let j = choose|j: int|
                        0 <= j < asg.len() && (#[trigger] asg[j]).0@ == t && asg[j].1@ == e2;
                    assert(set_at(s.task_assignments, e1).contains(t));
                }
            }
            assert forall|e: Seq<char>|
                #[trigger] committed.task_assignments.contains_key(
                    e,
                ) implies committed.executors.contains_key(e) by {
                lemma_assign_fold(s.task_assignments, asg, e, e);
                if has_asg_exec(asg, e) {
                    let i = choose|i: int| 0 <= i < asg.len() && (#[trigger] asg[i]).1@ == e;
                }
            }
            assert forall|t: Seq<char>| #[trigger] fin.unassigned_tasks.contains(t) <==> (
            committed.tasks.contains_key(t) && !is_terminal(committed.tasks[t].outcome)
                && !assigned(committed, t)) by {
                lemma_unassign_fold(i1.unassigned_tasks, asg, t);
                if has_asg_task(asg, t) {
                    let i = choose|i: int| 0 <= i < asg.len() && (#[trigger] asg[i]).0@ == t;
                    let e = asg[i].1@;
                    lemma_assign_fold(s.task_assignments, asg, e, t);
                    assert(has_asg_pair(asg, t, e));
                    assert(set_at(committed.task_assignments, e).contains(t));
                    assert(assigned(committed, t));
                } else {
                    if assigned(committed, t) {
                        let e = choose|e: Seq<char>| #[trigger] set_at(
                            committed.task_assignments,
                            e,
                        ).contains(t);
                        lemma_assign_fold(s.task_assignments, asg, e, t);
                        if has_asg_pair(asg, t, e) {
                            let i = choose|i: int|
                                0 <= i < asg.len() && (#[trigger] asg[i]).0@ == t && asg[i].1@
                                    == e;
                        }
                        assert(set_at(s.task_assignments, e).contains(t));
                        assert(assigned(s, t));
                    }
                    if assigned(s, t) {
                        let e = choose|e: Seq<char>| #[trigger] set_at(
                            s.task_assignments,
                            e,
                        ).contains(t);
                        lemma_assign_fold(s.task_assignments, asg, e, t);
                        assert(set_at(committed.task_assignments, e).contains(t));
                        assert(assigned(committed, t));
                    }
                }
            }
            assert(fin.executor_running_task_count.dom() =~= committed.executors.dom()) by {
                assert forall|e: Seq<char>| #[trigger] fin.executor_running_task_count.dom().contains(
                    e,
                ) <==> committed.executors.dom().contains(e) by {
                    lemma_counts_fold(i1.executor_running_task_count, committed.task_assignments, asg, e);
                    if has_asg_exec(asg, e) {
                        let i = choose|i: int| 0 <= i < asg.len() && (#[trigger] asg[i]).1@ == e;
                    }
                }
            }
            assert forall|e: Seq<char>| #[trigger] fin.executor_running_task_count.contains_key(
                e,
            ) implies fin.executor_running_task_count[e] == set_at(
                committed.task_assignments,
                e,
            ).len() as u64 by {
                lemma_counts_fold(i1.executor_running_task_count, committed.task_assignments, asg, e);
                if !has_asg_exec(asg, e) {
                    assert(set_at(committed.task_assignments, e) =~= set_at(
                        s.task_assignments,
                        e,
                    )) by {
                        assert forall|t: Seq<char>| #[trigger] set_at(
                            committed.task_assignments,
                            e,
                        ).contains(t) <==> set_at(s.task_assignments, e).contains(t) by {
                            lemma_assign_fold(s.task_assignments, asg, e, t);
                            if has_asg_pair(asg, t, e) {
                                let i = choose|i: int|
                                    0 <= i < asg.len() && (#[trigger] asg[i]).0@ == t && asg[i].1@
                                        == e;
                            }
                        }
                    }
                }
            }
            assert(consistent(committed, fin));
            assert(store_wf(committed));
        },
        RequestPayload::UpdateTask { task, mark_finished, executor_id, content_metadata } => {
            let fin = dispatched_indexes(ix, s, committed, req);
            let tid = task.id@;
            let cm = content_metadata@;
            let i2 = (if mark_finished {
                let i3 = SpecIndexes {
                    unassigned_tasks: i1.unassigned_tasks.remove(tid),
                    unfinished_tasks_by_extractor: table_without(
                        i1.unfinished_tasks_by_extractor,
                        task.extractor@,
                        tid,
                    ),
                    ..i1
                };
                match executor_id {
                    Some(x) => SpecIndexes {
                        executor_running_task_count: crate::state::dec_count(
                            i3.executor_running_task_count,
                            x@,
                        ),
                        ..i3
                    },
                    None => i3,
                }
            } else {
                i1
            });
            let s3 = SpecStore { tasks: s2.tasks.insert(tid, task@), ..s2 };
            let s4 = (if mark_finished && executor_id is Some {
                let x = executor_id->0@;
                SpecStore {
                    task_assignments: s3.task_assignments.insert(
                        x,
                        set_at(s3.task_assignments, x).remove(tid),
                    ),
                    ..s3
                }
            } else {
                s3
            });
            assert(committed == SpecStore { content_table: contents_put(s4.content_table, cm), ..s4 });
            assert forall|e: Seq<char>| (#[trigger] set_at(
                committed.task_assignments,
                e,
            )).finite() by {
                assert(set_at(s.task_assignments, e).finite());
            }
            // assignments membership is the old one, minus the finished task
            assert forall|e: Seq<char>, t: Seq<char>| #[trigger] set_at(
                committed.task_assignments,
                e,
            ).contains(t) implies set_at(s.task_assignments, e).contains(t) && !(mark_finished
                && t == tid) by {}
            assert(store_wf(committed));
            // the unassigned set
            assert forall|t: Seq<char>| #[trigger] fin.unassigned_tasks.contains(t) <==> (
            committed.tasks.contains_key(t) && !is_terminal(committed.tasks[t].outcome)
                && !assigned(committed, t)) by {
                lemma_contents_put(s4.content_table, cm, t);
                if t == tid {
                    if mark_finished {
                        assert(!fin.unassigned_tasks.contains(t));
                    } else {
                        assert(!is_terminal(s.tasks[tid].outcome));
                        assert(assigned(committed, t) <==> assigned(s, t)) by {
                            if assigned(committed, t) {
                                let e = choose|e: Seq<char>| #[trigger] set_at(
                                    committed.task_assignments,
                                    e,
                                ).contains(t);
                                assert(set_at(s.task_assignments, e).contains(t));
                            }
                            if assigned(s, t) {
                                let e = choose|e: Seq<char>| #[trigger] set_at(
                                    s.task_assignments,
                                    e,
                                ).contains(t);
                                assert(set_at(committed.task_assignments, e).contains(t));
                            }
                        }
                    }
                } else {
                    assert(assigned(committed, t) <==> assigned(s, t)) by {
                        if assigned(committed, t) {
                            let e = choose|e: Seq<char>| #[trigger] set_at(
                                committed.task_assignments,
                                e,
                            ).contains(t);
                            assert(set_at(s.task_assignments, e).contains(t));
                        }
                        if assigned(s, t) {
                            let e = choose|e: Seq<char>| #[trigger] set_at(
                                s.task_assignments,
                                e,
                            ).contains(t);
                            assert(set_at(committed.task_assignments, e).contains(t));
                        }
                    }
                }
            }
            // the unfinished table
            assert forall|x: Seq<char>, t: Seq<char>| #[trigger] set_at(
                fin.unfinished_tasks_by_extractor,
                x,
            ).contains(t) <==> (committed.tasks.contains_key(t) && committed.tasks[t].extractor
                == x && !is_terminal(committed.tasks[t].outcome)) by {
                assert(set_at(ix.unfinished_tasks_by_extractor, x).contains(t) <==> (
                s.tasks.contains_key(t) && s.tasks[t].extractor == x && !is_terminal(
                    s.tasks[t].outcome,
                )));
            }
            // the running counts
            if mark_finished && executor_id is Some {
                let x = executor_id->0@;
                assert(set_at(s.task_assignments, x).contains(tid));
                assert(s.task_assignments.contains_key(x));
                assert(s.executors.contains_key(x));
                assert(ix.executor_running_task_count.contains_key(x));
                assert(set_at(s.task_assignments, x).finite());
                vstd::set::axiom_set_remove_len(set_at(s.task_assignments, x), tid);
                assert(set_at(s.task_assignments, x).remove(tid).len() == set_at(
                    s.task_assignments,
                    x,
                ).len() - 1);
                assert(fin.executor_running_task_count.dom() =~= committed.executors.dom());
                assert forall|e: Seq<char>| #[trigger] fin.executor_running_task_count.contains_key(
                    e,
                ) implies fin.executor_running_task_count[e] == set_at(
                    committed.task_assignments,
                    e,
                ).len() as u64 by {
                    if e == x {
                        assert(set_at(s.task_assignments, x).len() >= 1);
                        assert(ix.executor_running_task_count[x] == set_at(
                            s.task_assignments,
                            x,
                        ).len() as u64);
                        assert(count_at(i1.executor_running_task_count, x) > 0);
                    } else {
                        assert(set_at(committed.task_assignments, e) == set_at(
                            s.task_assignments,
                            e,
                        ));
                    }
                }
            }
            // the namespace table over the written content
            assert forall|ns: Seq<char>, c: Seq<char>| #[trigger] set_at(
                fin.content_namespace_table,
                ns,
            ).contains(c) <==> (committed.content_table.contains_key(c)
                && committed.content_table[c].namespace == ns) by {
                lemma_contents_idx(i2.content_namespace_table, cm, ns, c);
                lemma_contents_put(s4.content_table, cm, c);
                if has_content_id(cm, c) {
                    let j = choose|j: int|
                        0 <= j < cm.len() && (#[trigger] cm[j]).id@ == c && contents_put(
                            s4.content_table,
                            cm,
                        )[c] == cm[j]@;
                    if has_content_pair(cm, c, ns) {
                        let i = choose|i: int|
                            0 <= i < cm.len() && (#[trigger] cm[i]).id@ == c && cm[i].namespace@
                                == ns;
                        assert(cm[i].namespace@ == cm[j].namespace@);
                    }
                    if committed.content_table[c].namespace == ns {
                        assert(has_content_pair(cm, c, ns));
                    }
                }
            }
            assert(consistent(committed, fin));
        },
        RequestPayload::RegisterExecutor { addr, executor_id, extractor, ts_secs } => {
            let fin = dispatched_indexes(ix, s, committed, req);
            let e0 = executor_id@;
            assert(!s.task_assignments.contains_key(e0));
            assert(set_at(committed.task_assignments, e0) =~= Set::<Seq<char>>::empty());
            assert forall|x: Seq<char>, e: Seq<char>| #[trigger] set_at(
                fin.extractor_executors_table,
                x,
            ).contains(e) <==> (committed.executors.contains_key(e)
                && committed.executors[e].extractor.name == x) by {
                assert(set_at(ix.extractor_executors_table, x).contains(e) <==> (
                s.executors.contains_key(e) && s.executors[e].extractor.name == x));
            }
            assert(fin.executor_running_task_count.dom() =~= committed.executors.dom());
            assert forall|e: Seq<char>| #[trigger] fin.executor_running_task_count.contains_key(
                e,
            ) implies fin.executor_running_task_count[e] == set_at(
                committed.task_assignments,
                e,
            ).len() as u64 by {
                if e == e0 {
                    assert(set_at(committed.task_assignments, e0).len() == 0);
                }
            }
            assert(consistent(committed, fin));
            assert(store_wf(committed));
        },
        RequestPayload::RemoveExecutor { executor_id } => {
            let fin = dispatched_indexes(ix, s, committed, req);
            let e0 = executor_id@;
            assert(fin == remove_executor_idx(ix, s, req, e0));
            let freed = set_at(s.task_assignments, e0);
            assert forall|t: Seq<char>| #[trigger] fin.unassigned_tasks.contains(t) <==> (
            committed.tasks.contains_key(t) && !is_terminal(committed.tasks[t].outcome)
                && !assigned(committed, t)) by {
                if freed.contains(t) {
                    assert(s.tasks.contains_key(t) && !is_terminal(s.tasks[t].outcome));
                    assert(!assigned(committed, t)) by {
                        if assigned(committed, t) {
                            let e = choose|e: Seq<char>| #[trigger] set_at(
                                committed.task_assignments,
                                e,
                            ).contains(t);
                            assert(set_at(s.task_assignments, e).contains(t));
                            assert(e == e0);
                        }
                    }
                } else {
                    assert(assigned(committed, t) <==> assigned(s, t)) by {
                        if assigned(committed, t) {
                            let e = choose|e: Seq<char>| #[trigger] set_at(
                                committed.task_assignments,
                                e,
                            ).contains(t);
                            assert(set_at(s.task_assignments, e).contains(t));
                        }
                        if assigned(s, t) {
                            let e = choose|e: Seq<char>| #[trigger] set_at(
                                s.task_assignments,
                                e,
                            ).contains(t);
                            assert(e != e0);
                            assert(set_at(committed.task_assignments, e).contains(t));
                        }
                    }
                }
            }
            assert forall|x: Seq<char>, e: Seq<char>| #[trigger] set_at(
                fin.extractor_executors_table,
                x,
            ).contains(e) <==> (committed.executors.contains_key(e)
                && committed.executors[e].extractor.name == x) by {
                assert(set_at(ix.extractor_executors_table, x).contains(e) <==> (
                s.executors.contains_key(e) && s.executors[e].extractor.name == x));
            }
            assert(fin.executor_running_task_count.dom() =~= committed.executors.dom());
            assert forall|e: Seq<char>| #[trigger] fin.executor_running_task_count.contains_key(
                e,
            ) implies fin.executor_running_task_count[e] == set_at(
                committed.task_assignments,
                e,
            ).len() as u64 by {
                assert(e != e0);
                assert(set_at(committed.task_assignments, e) == set_at(s.task_assignments, e));
            }
            assert forall|e: Seq<char>| (#[trigger] set_at(
                committed.task_assignments,
                e,
            )).finite() by {
                assert(set_at(committed.task_assignments, e) == set_at(s.task_assignments, e)
                    || set_at(committed.task_assignments, e) == Set::<Seq<char>>::empty());
            }
            assert(consistent(committed, fin));
            assert(store_wf(committed));
        },
        RequestPayload::CreateContent { content_metadata } => {
            let fin = dispatched_indexes(ix, s, committed, req);
            let cm = content_metadata@;
            assert forall|ns: Seq<char>, c: Seq<char>| #[trigger] set_at(
                fin.content_namespace_table,
                ns,
            ).contains(c) <==> (committed.content_table.contains_key(c)
                && committed.content_table[c].namespace == ns) by {
                lemma_contents_idx(i1.content_namespace_table, cm, ns, c);
                lemma_contents_put(s.content_table, cm, c);
                if has_content_id(cm, c) {
                    let j = choose|j: int|
                        0 <= j < cm.len() && (#[trigger] cm[j]).id@ == c && contents_put(
                            s.content_table,
                            cm,
                        )[c] == cm[j]@;
                    if has_content_pair(cm, c, ns) {
                        let i = choose|i: int|
                            0 <= i < cm.len() && (#[trigger] cm[i]).id@ == c && cm[i].namespace@
                                == ns;
                        assert(cm[i].namespace@ == cm[j].namespace@);
                    }
                    if committed.content_table[c].namespace == ns {
                        assert(has_content_pair(cm, c, ns));
                    }
                }
            }
            assert(consistent(committed, fin));
        },
        RequestPayload::CreateExtractionPolicy {
            extraction_policy,
            updated_structured_data_schema,
            new_structured_data_schema,
        } => {
            let fin = dispatched_indexes(ix, s, committed, req);
            assert forall|ns: Seq<char>, p: Seq<char>| #[trigger] set_at(
                fin.extraction_policies_table,
                ns,
            ).contains(p) <==> (committed.extraction_policies.contains_key(p)
                && committed.extraction_policies[p].namespace == ns) by {
                assert(set_at(ix.extraction_policies_table, ns).contains(p) <==> (
                s.extraction_policies.contains_key(p) && s.extraction_policies[p].namespace
                    == ns));
            }
            assert forall|ns: Seq<char>, c: Seq<char>| #[trigger] set_at(
                fin.schemas_by_namespace,
                ns,
            ).contains(c) <==> (committed.structured_data_schemas.contains_key(c)
                && committed.structured_data_schemas[c].namespace == ns) by {
                assert(set_at(ix.schemas_by_namespace, ns).contains(c) <==> (
                s.structured_data_schemas.contains_key(c)
                    && s.structured_data_schemas[c].namespace == ns));
            }
            assert(consistent(committed, fin));
        },
        RequestPayload::CreateNamespace { name, structured_data_schema } => {
            let fin = dispatched_indexes(ix, s, committed, req);
            assert forall|ns: Seq<char>, c: Seq<char>| #[trigger] set_at(
                fin.schemas_by_namespace,
                ns,
            ).contains(c) <==> (committed.structured_data_schemas.contains_key(c)
                && committed.structured_data_schemas[c].namespace == ns) by {
                assert(set_at(ix.schemas_by_namespace, ns).contains(c) <==> (
                s.structured_data_schemas.contains_key(c)
                    && s.structured_data_schemas[c].namespace == ns));
            }
            assert(consistent(committed, fin));
        },
        RequestPayload::SetContentExtractionPolicyMappings { .. } => {
            let fin = dispatched_indexes(ix, s, committed, req);
            assert(consistent(committed, fin));
        },
        RequestPayload::MarkExtractionPolicyAppliedOnContent { .. } => {
            let fin = dispatched_indexes(ix, s, committed, req);
            assert(consistent(committed, fin));
        },
        RequestPayload::MarkStateChangesProcessed { state_changes } => {
            let fin = dispatched_indexes(ix, s, committed, req);
            let sc = state_changes@;
            assert forall|c: Seq<char>| #[trigger] fin.unprocessed_state_changes.contains(c) <==> (
            committed.state_changes.contains_key(c) && committed.state_changes[c].processed_at
                is None) by {
                lemma_ids_removed(i1.unprocessed_state_changes, sc, c);
                lemma_sc_marked(s2.state_changes, sc, c);
            }
            assert(consistent(committed, fin));
        },
        RequestPayload::Noop => {
            let fin = dispatched_indexes(ix, s, committed, req);
            assert(consistent(committed, fin));
        },
    }
}

// ---------------------------------------------------------------
// Idempotence of assignment.
// ---------------------------------------------------------------

/// Writing the same assignment list twice leaves every executor's
/// persisted set as after one write, and the running counts — which
/// are re-derived from the committed sets, so a task id counts once
/// however often it is named — likewise.
pub proof fn lemma_assign_task_idempotent(
    m: Map<Seq<char>, Set<Seq<char>>>,
    c: Map<Seq<char>, u64>,
    asg: Seq<(String, String)>,
)
    ensures
        assign_fold(assign_fold(m, asg), asg) =~~= assign_fold(m, asg),
        counts_fold(
            counts_fold(c, assign_fold(m, asg), asg),
            assign_fold(assign_fold(m, asg), asg),
            asg,
        ) =~~= counts_fold(c, assign_fold(m, asg), asg),
{
    let once = assign_fold(m, asg);
    let twice = assign_fold(once, asg);
    assert forall|e: Seq<char>|
        #[trigger] twice.contains_key(e) <==> once.contains_key(e) by {
        lemma_assign_fold(m, asg, e, e);
        lemma_assign_fold(once, asg, e, e);
    }
    assert forall|e: Seq<char>| #[trigger] twice.contains_key(e) implies twice[e] =~= once[e] by {
        assert forall|t: Seq<char>|
            #[trigger] twice[e].contains(t) <==> once[e].contains(t) by {
            lemma_assign_fold(m, asg, e, t);
            lemma_assign_fold(once, asg, e, t);
            assert(set_at(twice, e) == twice[e]);
            assert(set_at(once, e) == once[e]);
        }
    }
    assert(twice =~~= once);
    let c1 = counts_fold(c, once, asg);
    let c2 = counts_fold(c1, twice, asg);
    assert forall|e: Seq<char>|
        #[trigger] c2.contains_key(e) <==> c1.contains_key(e) by {
        lemma_counts_fold(c, once, asg, e);
        lemma_counts_fold(c1, twice, asg, e);
    }
    assert forall|e: Seq<char>| #[trigger] c2.contains_key(e) implies c2[e] == c1[e] by {
        lemma_counts_fold(c, once, asg, e);
        lemma_counts_fold(c1, twice, asg, e);
        if has_asg_exec(asg, e) {
            assert(set_at(twice, e) =~= set_at(once, e));
        }
    }
    assert(c2 =~~= c1);
}

/// The same, stated of the dispatcher's own meaning: committing one
/// and the same assignment request twice leaves the store and the
/// scheduling indexes exactly as the first commit did.
pub proof fn lemma_assign_request_idempotent(
    s: SpecStore,
    ix: SpecIndexes,
    req: StateMachineUpdateRequest,
)
    requires
        req.new_state_changes@.len() == 0,
        req.state_changes_processed@.len() == 0,
        req.payload matches RequestPayload::AssignTask { .. },
    ensures
        forward_res(s, req) is Ok,
        forward_res(forward_res(s, req)->Ok_0, req) is Ok,
        ({
            let s1 = forward_res(s, req)->Ok_0;
            let s2 = forward_res(s1, req)->Ok_0;
            let i1 = dispatched_indexes(ix, s, s1, req);
            let i2 = dispatched_indexes(i1, s1, s2, req);
            &&& s2 == s1
            &&& i2.executor_running_task_count == i1.executor_running_task_count
            &&& i2.unassigned_tasks == i1.unassigned_tasks
        }),
{
    match req.payload {
        RequestPayload::AssignTask { assignments } => {
            let asg = assignments@;
            let s1 = forward_res(s, req)->Ok_0;
            let s2 = forward_res(s1, req)->Ok_0;
            assert(s1 == SpecStore {
                task_assignments: assign_fold(s.task_assignments, asg),
                ..s
            });
            assert(s2 == SpecStore {
                task_assignments: assign_fold(assign_fold(s.task_assignments, asg), asg),
                ..s
            });
            let i1 = dispatched_indexes(ix, s, s1, req);
            let i2 = dispatched_indexes(i1, s1, s2, req);
            lemma_assign_task_idempotent(
                s.task_assignments,
                ix.executor_running_task_count,
                asg,
            );
            assert(s2.task_assignments == s1.task_assignments);
            assert(s2 == s1);
            assert(i1.executor_running_task_count == counts_fold(
                ix.executor_running_task_count,
                s1.task_assignments,
                asg,
            ));
            assert(i2.executor_running_task_count == counts_fold(
                i1.executor_running_task_count,
                s2.task_assignments,
                asg,
            ));
            assert(i2.executor_running_task_count == i1.executor_running_task_count);
            assert forall|t: Seq<char>|
                #[trigger] i2.unassigned_tasks.contains(t)
                    <==> i1.unassigned_tasks.contains(t) by {
                lemma_unassign_fold(ix.unassigned_tasks, asg, t);
                lemma_unassign_fold(i1.unassigned_tasks, asg, t);
            }
            assert(i2.unassigned_tasks =~= i1.unassigned_tasks);
        },
        _ => {},
    }
}

} // verus!
