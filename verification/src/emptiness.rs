//! When threads that share a ring are told that it is empty.
//!
//! A dequeue gives up when it finds the tail counter behind its position, or when the threshold has
//! been used up. The threshold is enough for a ring that is used by few threads: no more than a
//! quarter of the number of its slots.
use vstd::prelude::*;
use crate::access::{full_threshold, lemma_slots, Reply};
use crate::contents::Contents;
use crate::dequeue::{DequeueStage, LFRING_EMPTY};
use crate::enqueue::{EnqueueOp, EnqueueStage};
use crate::interleaving::{execution, lemma_start, lemma_step, moves_at, System, Task};
use crate::position::lemma_counter_small;

verus! {

/// Whether a dequeue has claimed a position and may still take one from the threshold for it.
pub open spec fn in_flight(task: Task) -> bool {
    match task {
        Task::Enqueue(..) => false,
        Task::Dequeue(op, _) => match op.stage {
            DequeueStage::ReadThreshold | DequeueStage::Claim => false,
            DequeueStage::Done { .. } => false,
            _ => true,
        },
    }
}

/// The threads whose dequeue is in flight.
pub open spec fn searching(s: System) -> Set<int> {
    Set::new(|id: int| s.tasks.dom().contains(id) && in_flight(s.tasks[id]))
}

/// Whether the position of every index that a finished enqueue has put in has been claimed by a
/// dequeue.
pub open spec fn drained(s: System) -> bool {
    forall|p: int| #[trigger] s.is_announced(p) ==> p < s.memory.head
}

/// Whether the threads are few enough for the threshold.
pub open spec fn few_threads(s: System) -> bool {
    0 <= s.threads && 4 * s.threads <= s.n()
}

/// What holds of the position that a thread has claimed last.
spec fn claim_ok(s: System, id: int, op: EnqueueOp) -> bool {
    let claimed = s.last_claim.dom().contains(id);
    let last = s.last_claim[id];
    match op.stage {
        EnqueueStage::ReadHead { tail } => claimed ==> last < tail,
        EnqueueStage::Claim => claimed ==> last < s.memory.head + s.n(),
        EnqueueStage::Load { tail } => claimed && last == tail,
        EnqueueStage::CheckHead { tail, .. } => claimed && last == tail,
        EnqueueStage::Write { tail, .. } => claimed && last == tail,
        EnqueueStage::ReadThreshold => claimed && s.is_written(last) && !op.nonempty,
        EnqueueStage::ResetThreshold => claimed && s.is_written(last) && !op.nonempty,
        _ => true,
    }
}

/// Each position that lies a lap or more ahead of the head is the last claim of a thread.
spec fn claims_ahead(s: System) -> bool {
    &&& forall|p: int|
        s.memory.head + s.n() <= p < s.memory.tail ==> {
            &&& #[trigger] s.claimed_by.dom().contains(p)
            &&& 0 <= s.claimed_by[p] < s.threads
            &&& s.last_claim.dom().contains(s.claimed_by[p])
            &&& s.last_claim[s.claimed_by[p]] == p
        }
    &&& forall|id: int| #[trigger]
        s.last_claim.dom().contains(id) ==> 0 <= s.last_claim[id] < s.memory.tail
}

/// The threshold suffices for all visits that may come before the dequeue of an announced index.
spec fn patient(s: System) -> bool {
    forall|p: int| #[trigger]
        s.is_announced(p) && s.memory.head <= p ==> p - s.memory.head + searching(s).len()
            <= s.memory.threshold
}

spec fn well_watched(s: System) -> bool {
    &&& s.inv()
    &&& few_threads(s)
    &&& forall|id: int| #[trigger] s.tasks.dom().contains(id) ==> 0 <= id < s.threads
    &&& forall|id: int| #[trigger]
        s.tasks.dom().contains(id) ==> (s.tasks[id] matches Task::Enqueue(op, _) ==> claim_ok(
            s,
            id,
            op,
        ))
    &&& claims_ahead(s)
    &&& forall|p: int| #[trigger] s.is_announced(p) ==> s.is_written(p) && p < s.memory.tail
    &&& patient(s)
}

/// There are no more dequeues in flight than threads.
proof fn lemma_searching_bound(s: System)
    requires
        few_threads(s),
        forall|id: int| #[trigger] s.tasks.dom().contains(id) ==> 0 <= id < s.threads,
    ensures
        searching(s).finite(),
        searching(s).len() <= s.threads,
{
    let range = vstd::set_lib::set_int_range(0, s.threads);
    vstd::set_lib::lemma_int_range(0, s.threads);
    assert(searching(s).subset_of(range));
    vstd::set_lib::lemma_len_subset(searching(s), range);
}

/// The tail is at most one lap and one position for each thread ahead of the head.
proof fn lemma_tail_bound(s: System)
    requires
        few_threads(s),
        claims_ahead(s),
    ensures
        s.memory.tail <= s.memory.head + s.n() + s.threads,
{
    let from = s.memory.head + s.n();
    let count = s.memory.tail - from;
    if count > 0 {
        let ids = Seq::new(count as nat, |i: int| s.claimed_by[from + i]);
        assert forall|i: int, j: int|
            0 <= i < ids.len() && 0 <= j < ids.len() && i != j implies ids[i] != ids[j] by {
            assert(s.claimed_by.dom().contains(from + i));
            assert(s.claimed_by.dom().contains(from + j));
        }
        ids.unique_seq_to_set();
        let range = vstd::set_lib::set_int_range(0, s.threads);
        vstd::set_lib::lemma_int_range(0, s.threads);
        assert(ids.to_set().subset_of(range)) by {
            assert forall|id: int| ids.to_set().contains(id) implies range.contains(id) by {
                let i = choose|i: int| 0 <= i < ids.len() && ids[i] == id;
                assert(s.claimed_by.dom().contains(from + i));
            }
        }
        vstd::set_lib::lemma_len_subset(ids.to_set(), range);
    }
}

/// A fresh threshold suffices for every position that has been claimed.
proof fn lemma_fresh_threshold(s: System, p: int)
    requires
        s.inv(),
        few_threads(s),
        claims_ahead(s),
        forall|id: int| #[trigger] s.tasks.dom().contains(id) ==> 0 <= id < s.threads,
        p < s.memory.tail,
    ensures
        p - s.memory.head + searching(s).len() <= full_threshold(s.order),
{
    lemma_slots(s.order);
    lemma_searching_bound(s);
    lemma_tail_bound(s);
}

/// How the set of dequeues in flight changes when one thread takes a step.
proof fn lemma_searching_step(s: System, t: System, id: int, task: Task)
    requires
        searching(s).finite(),
        t.tasks == s.tasks.insert(id, task),
    ensures
        searching(t).len() == searching(s).len() + (if in_flight(task) {
            1int
        } else {
            0
        }) - (if searching(s).contains(id) {
            1int
        } else {
            0
        }),
{
    if in_flight(task) {
        assert(searching(t) =~= searching(s).insert(id));
    } else {
        assert(searching(t) =~= searching(s).remove(id));
    }
}

proof fn lemma_enqueue_watched(s: System, t: System, id: int, reply: Reply)
    requires
        well_watched(s),
        s.steps_to(t),
        s.enqueue_runs(id, reply, t),
    ensures
        well_watched(t),
{
    lemma_step(s, t);
    lemma_slots(s.order);
    let op = s.tasks[id]->Enqueue_0;
    let since = s.tasks[id]->Enqueue_1;
    let next = op.at(op.next_stage(reply));
    assert(s.task_ok(s.tasks[id]));
    assert(claim_ok(s, id, op));
    lemma_searching_bound(s);
    lemma_searching_step(s, t, id, Task::Enqueue(next, since));
    assert(t.memory.head == s.memory.head);
    assert forall|k: int| #[trigger] t.tasks.dom().contains(k) implies 0 <= k < t.threads by {
        assert(k == id || s.tasks.dom().contains(k));
        assert(s.tasks.dom().contains(id));
    }
    assert(claim_ok(t, id, next));
    assert forall|k: int| #[trigger] t.tasks.dom().contains(k) implies (
    t.tasks[k] matches Task::Enqueue(o, _) ==> claim_ok(t, k, o)) by {
        if k != id {
            assert(s.tasks.dom().contains(k));
        }
    }
    assert(claims_ahead(t)) by {
        assert forall|p: int| t.memory.head + t.n() <= p < t.memory.tail implies {
            &&& #[trigger] t.claimed_by.dom().contains(p)
            &&& 0 <= t.claimed_by[p] < t.threads
            &&& t.last_claim.dom().contains(t.claimed_by[p])
            &&& t.last_claim[t.claimed_by[p]] == p
        } by {
            if p < s.memory.tail {
                assert(s.claimed_by.dom().contains(p));
            }
        }
        assert forall|k: int| #[trigger] t.last_claim.dom().contains(k) implies 0
            <= t.last_claim[k] < t.memory.tail by {
            if k != id || op.stage !is Claim {
                assert(s.last_claim.dom().contains(k));
            }
        }
    }
    assert forall|p: int| #[trigger] t.is_announced(p) implies t.is_written(p) && p
        < t.memory.tail by {
        if !s.is_announced(p) {
            assert(p == s.last_claim[id]);
        }
        assert(s.is_written(p));
        assert(s.position_ok(p));
    }
    assert forall|p: int| #[trigger] t.is_announced(p) && t.memory.head <= p implies p
        - t.memory.head + searching(t).len() <= t.memory.threshold by {
        if op.stage is ResetThreshold || !s.is_announced(p) {
            lemma_fresh_threshold(t, p);
        }
    }
}

/// Steps that claim no position for an enqueue keep what holds of the claims.
proof fn lemma_claims_kept(s: System, t: System)
    requires
        claims_ahead(s),
        t.order == s.order,
        t.threads == s.threads,
        t.last_claim == s.last_claim,
        t.claimed_by == s.claimed_by,
        s.memory.head <= t.memory.head,
        s.memory.tail <= t.memory.tail,
        t.memory.tail == s.memory.tail || t.memory.tail <= t.memory.head,
    ensures
        claims_ahead(t),
{
    assert forall|p: int| t.memory.head + t.n() <= p < t.memory.tail implies {
        &&& #[trigger] t.claimed_by.dom().contains(p)
        &&& 0 <= t.claimed_by[p] < t.threads
        &&& t.last_claim.dom().contains(t.claimed_by[p])
        &&& t.last_claim[t.claimed_by[p]] == p
    } by {
        assert(s.claimed_by.dom().contains(p));
    }
    assert forall|k: int| #[trigger] t.last_claim.dom().contains(k) implies 0 <= t.last_claim[k]
        < t.memory.tail by {
        assert(s.last_claim.dom().contains(k));
    }
}

proof fn lemma_dequeue_watched(s: System, t: System, id: int, reply: Reply)
    requires
        well_watched(s),
        s.steps_to(t),
        s.dequeue_runs(id, reply, t),
    ensures
        well_watched(t),
{
    lemma_step(s, t);
    lemma_slots(s.order);
    let op = s.tasks[id]->Dequeue_0;
    let since = s.tasks[id]->Dequeue_1;
    let next = op.at(op.next_stage(reply));
    assert(s.task_ok(s.tasks[id]));
    lemma_searching_bound(s);
    lemma_searching_step(s, t, id, Task::Dequeue(next, since));
    assert forall|k: int| #[trigger] t.tasks.dom().contains(k) implies 0 <= k < t.threads by {
        assert(k == id || s.tasks.dom().contains(k));
        assert(s.tasks.dom().contains(id));
    }
    assert forall|k: int| #[trigger] t.tasks.dom().contains(k) implies (
    t.tasks[k] matches Task::Enqueue(o, _) ==> claim_ok(t, k, o)) by {
        if k != id {
            assert(s.tasks.dom().contains(k));
        }
    }
    lemma_claims_kept(s, t);
    assert forall|p: int| #[trigger] t.is_announced(p) implies t.is_written(p) && p
        < t.memory.tail by {
        assert(s.is_announced(p));
        assert(s.is_written(p));
    }
    assert forall|p: int| #[trigger] t.is_announced(p) && t.memory.head <= p implies p
        - t.memory.head + searching(t).len() <= t.memory.threshold by {
        assert(s.is_announced(p));
        if op.stage is Spend {
            assert(s.memory.threshold >= 0);
        }
    }
}

/// Every step keeps the watch.
proof fn lemma_watched_step(s: System, t: System)
    requires
        well_watched(s),
        s.steps_to(t),
    ensures
        well_watched(t),
{
    lemma_step(s, t);
    lemma_searching_bound(s);
    if exists|id: int, reply: Reply| s.enqueue_runs(id, reply, t) {
        let (id, reply) = choose|id: int, reply: Reply| s.enqueue_runs(id, reply, t);
        lemma_enqueue_watched(s, t, id, reply);
    } else if exists|id: int, reply: Reply| s.dequeue_runs(id, reply, t) {
        let (id, reply) = choose|id: int, reply: Reply| s.dequeue_runs(id, reply, t);
        lemma_dequeue_watched(s, t, id, reply);
    } else {
        // A thread begins or finishes; nothing is in flight that was not before.
        assert(searching(t) =~= searching(s));
        lemma_claims_kept(s, t);
        assert forall|p: int| #[trigger] t.is_announced(p) implies t.is_written(p) && p
            < t.memory.tail by {
            assert(s.is_announced(p));
            assert(s.is_written(p));
        }
        assert forall|p: int| #[trigger] t.is_announced(p) && t.memory.head <= p implies p
            - t.memory.head + searching(t).len() <= t.memory.threshold by {
            assert(s.is_announced(p));
        }
    }
}

/// The watch begins with the start.
proof fn lemma_watched_start(s: System, contents: Contents)
    requires
        s.starts(contents),
        few_threads(s),
    ensures
        well_watched(s),
{
    lemma_start(s, contents);
    lemma_slots(s.order);
    lemma_counter_small(contents.head);
    lemma_counter_small(contents.tail());
    assert(searching(s) =~= Set::<int>::empty());
    assert forall|p: int| #[trigger] s.is_announced(p) implies s.is_written(p) && p
        < s.memory.tail by {
        assert(s.is_written(p));
    }
    assert forall|p: int| #[trigger] s.is_announced(p) && s.memory.head <= p implies p
        - s.memory.head + searching(s).len() <= s.memory.threshold by {
        assert(s.is_written(p));
    }
}

proof fn lemma_watched(states: Seq<System>, contents: Contents, i: int)
    requires
        execution(states, contents),
        few_threads(states[0]),
        0 <= i < states.len(),
    ensures
        well_watched(states[i]),
    decreases i,
{
    if i == 0 {
        lemma_watched_start(states[0], contents);
    } else {
        lemma_watched(states, contents, i - 1);
        assert(moves_at(states, i - 1));
        lemma_watched_step(states[i - 1], states[i]);
    }
}

/// Whether the thread runs a dequeue that has not come to its result.
pub open spec fn dequeueing(s: System, id: int) -> bool {
    &&& s.tasks.dom().contains(id)
    &&& s.tasks[id] matches Task::Dequeue(op, _) && !(op.stage is Done)
}

/// Whether the dequeue that the thread runs in state `i` has seen the ring drained.
pub open spec fn saw_drained(states: Seq<System>, id: int, i: int) -> bool {
    exists|k: int|
        0 <= k <= i && #[trigger] drained(states[k]) && forall|m: int|
            k <= m <= i ==> dequeueing(#[trigger] states[m], id)
}

/// Whether the thread runs a dequeue that moves the tail counter, or has done so.
spec fn catching_up(s: System, id: int) -> bool {
    &&& dequeueing(s, id)
    &&& {
        let stage = s.tasks[id]->Dequeue_0.stage;
        stage is CatchUp || stage == (DequeueStage::Spend { drained: true })
    }
}

/// A dequeue that moves the tail counter did so before, or has just seen the ring drained.
proof fn lemma_before_catching_up(s: System, t: System, id: int)
    requires
        s.inv(),
        forall|p: int| #[trigger] s.is_announced(p) ==> s.is_written(p),
        s.steps_to(t),
        catching_up(t, id),
    ensures
        dequeueing(s, id),
        catching_up(s, id) || drained(s),
{
    if exists|k: int, reply: Reply| s.dequeue_runs(k, reply, t) {
        let (k, reply) = choose|k: int, reply: Reply| s.dequeue_runs(k, reply, t);
        if k == id {
            assert(s.task_ok(s.tasks[id]));
            let op = s.tasks[id]->Dequeue_0;
            let next = op.at(op.next_stage(reply));
            assert(t.tasks[id] == Task::Dequeue(next, s.tasks[id]->Dequeue_1));
            if op.stage is ReadTail {
                assert forall|p: int| #[trigger] s.is_announced(p) implies p < s.memory.head by {
                    assert(s.is_written(p));
                    assert(s.position_ok(p));
                }
            }
        }
    } else if exists|k: int, reply: Reply| s.enqueue_runs(k, reply, t) {
        let (k, reply) = choose|k: int, reply: Reply| s.enqueue_runs(k, reply, t);
        assert(k != id);
    }
}

/// A dequeue that moves the tail counter, or has done so, has seen the ring drained.
proof fn lemma_catching_up(states: Seq<System>, contents: Contents, i: int, id: int)
    requires
        execution(states, contents),
        few_threads(states[0]),
        0 <= i < states.len(),
        catching_up(states[i], id),
    ensures
        saw_drained(states, id, i),
    decreases i,
{
    if i > 0 {
        assert(moves_at(states, i - 1));
        lemma_watched(states, contents, i - 1);
        lemma_before_catching_up(states[i - 1], states[i], id);
        if !drained(states[i - 1]) {
            lemma_catching_up(states, contents, i - 1, id);
            let k = choose|k: int|
                0 <= k <= i - 1 && #[trigger] drained(states[k]) && forall|m: int|
                    k <= m <= i - 1 ==> dequeueing(#[trigger] states[m], id);
            assert(drained(states[k]));
        }
    }
}

/// A dequeue that moves no tail counter and returns nothing sees the ring drained.
proof fn lemma_patience_used_up(s: System, t: System, id: int, reply: Reply)
    requires
        well_watched(s),
        s.dequeue_runs(id, reply, t),
        t.tasks[id]->Dequeue_0.stage == (DequeueStage::Done { index: LFRING_EMPTY }),
    ensures
        dequeueing(s, id),
        catching_up(s, id) || drained(s),
{
    lemma_slots(s.order);
    assert(s.task_ok(s.tasks[id]));
    let op = s.tasks[id]->Dequeue_0;
    assert(op.next_stage(reply) == (DequeueStage::Done { index: LFRING_EMPTY }));
    if op.stage is Take {
        assert(s.position_ok(op.stage->Take_head as int));
    } else if op.stage is Spend {
        lemma_searching_bound(s);
        assert(searching(s).contains(id));
        if searching(s).len() == 0 {
            searching(s).lemma_len0_is_empty();
        }
    }
}

/// Law: no dequeue is told without reason that the ring is empty. When one returns
/// [`LFRING_EMPTY`], there was a moment during that dequeue when the position of every index that a
/// finished enqueue had put in was claimed by a dequeue. The law is for rings with at least four
/// slots for each thread; enqueues whose caller vouched that the ring holds something are not
/// counted, as they do not see to the threshold.
pub proof fn law_empty_only_when_drained(
    states: Seq<System>,
    contents: Contents,
    i: int,
    id: int,
    reply: Reply,
)
    requires
        execution(states, contents),
        few_threads(states[0]),
        0 <= i < states.len() - 1,
        states[i].dequeue_runs(id, reply, states[i + 1]),
        states[i + 1].tasks[id]->Dequeue_0.stage == (DequeueStage::Done { index: LFRING_EMPTY }),
    ensures
        saw_drained(states, id, i),
{
    lemma_watched(states, contents, i);
    lemma_patience_used_up(states[i], states[i + 1], id, reply);
    if !drained(states[i]) {
        lemma_catching_up(states, contents, i, id);
    }
}

} // verus!
