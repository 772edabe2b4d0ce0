//! What the operations of threads that share a ring come to, from their beginning to their end.
use vstd::prelude::*;
use vstd::arithmetic::power2::pow2;
use crate::access::{law_ring_sizes, lemma_slots, Reply};
use crate::contents::Contents;
use crate::dequeue::DequeueStage;
use crate::enqueue::{EnqueueOp, EnqueueStage};
use crate::interleaving::{
    claim, execution, law_history_grows, lemma_reachable, lemma_step, moves_at, System, Task,
};

verus! {

/// What holds of the position that an enqueue has claimed last, and of the index that it has
/// written there.
spec fn enqueue_on_track(s: System, id: int, op: EnqueueOp, since: int) -> bool {
    let last = s.last_claim[id];
    let claimed = s.last_claim.dom().contains(id) && since <= last;
    let written = claimed && s.is_written(last) && s.written[last] == op.index;
    match op.stage {
        EnqueueStage::Load { tail } => claimed && last == tail,
        EnqueueStage::CheckHead { tail, .. } => claimed && last == tail,
        EnqueueStage::Write { tail, .. } => claimed && last == tail,
        EnqueueStage::ReadThreshold => written,
        EnqueueStage::ResetThreshold => written,
        EnqueueStage::Done { enqueued } => enqueued ==> written,
        _ => true,
    }
}

/// Whether the index was put in at a position from `since` on, and taken from there.
pub open spec fn came_from(s: System, index: usize, since: int) -> bool {
    exists|p: int|
        since <= p && #[trigger] s.is_taken(p) && s.taken[p] == index && s.is_written(p)
            && s.written[p] == index
}

spec fn on_track(s: System, id: int, task: Task) -> bool {
    match task {
        Task::Enqueue(op, since) => enqueue_on_track(s, id, op, since),
        Task::Dequeue(op, since) => op.stage matches DequeueStage::Done { index } ==> index
            == usize::MAX || came_from(s, index, since),
    }
}

spec fn all_on_track(s: System) -> bool {
    forall|id: int| #[trigger] s.tasks.dom().contains(id) ==> on_track(s, id, s.tasks[id])
}

/// What holds of a thread's operation goes on to hold while others take steps.
proof fn lemma_others_on_track(s: System, t: System, id: int, task: Task)
    requires
        s.inv(),
        s.steps_to(t),
        on_track(s, id, task),
        s.last_claim.dom().contains(id) ==> t.last_claim.dom().contains(id) && t.last_claim[id]
            == s.last_claim[id],
    ensures
        on_track(t, id, task),
{
    lemma_step(s, t);
    match task {
        Task::Enqueue(op, since) => {
            assert(s.is_written(s.last_claim[id]) ==> t.is_written(s.last_claim[id]));
        },
        Task::Dequeue(op, since) => {
            if op.stage is Done {
                let index = op.stage->index;
                if index != usize::MAX {
                    let p = choose|p: int|
                        since <= p && #[trigger] s.is_taken(p) && s.taken[p] == index
                            && s.is_written(p) && s.written[p] == index;
                    assert(t.is_taken(p) && t.is_written(p));
                }
            }
        },
    }
}

proof fn lemma_enqueue_on_track(s: System, t: System, id: int, reply: Reply)
    requires
        s.inv(),
        all_on_track(s),
        s.steps_to(t),
        s.enqueue_runs(id, reply, t),
    ensures
        on_track(t, id, t.tasks[id]),
{
    lemma_step(s, t);
    lemma_slots(s.order);
    assert(s.task_ok(s.tasks[id]));
    assert(on_track(s, id, s.tasks[id]));
    let op = s.tasks[id]->Enqueue_0;
    assert(s.is_written(s.last_claim[id]) ==> t.is_written(s.last_claim[id]));
    if op.stage is Write && reply is Swapped {
        assert(t.is_written(op.stage->Write_tail as int));
    }
}

proof fn lemma_dequeue_on_track(s: System, t: System, id: int, reply: Reply)
    requires
        s.inv(),
        all_on_track(s),
        s.steps_to(t),
        s.dequeue_runs(id, reply, t),
    ensures
        on_track(t, id, t.tasks[id]),
{
    lemma_step(s, t);
    lemma_slots(s.order);
    assert(s.task_ok(s.tasks[id]));
    let op = s.tasks[id]->Dequeue_0;
    if op.stage is Take {
        let p = op.stage->Take_head as int;
        assert(s.is_written(p));
        assert(t.is_taken(p) && t.is_written(p));
    }
}

proof fn lemma_on_track_step(s: System, t: System)
    requires
        s.inv(),
        all_on_track(s),
        s.steps_to(t),
    ensures
        all_on_track(t),
{
    assert forall|k: int| #[trigger] t.tasks.dom().contains(k) implies on_track(
        t,
        k,
        t.tasks[k],
    ) by {
        if exists|id: int, reply: Reply| s.enqueue_runs(id, reply, t) {
            let (id, reply) = choose|id: int, reply: Reply| s.enqueue_runs(id, reply, t);
            if k == id {
                lemma_enqueue_on_track(s, t, id, reply);
            } else {
                assert(s.tasks.dom().contains(k));
                lemma_others_on_track(s, t, k, s.tasks[k]);
            }
        } else if exists|id: int, reply: Reply| s.dequeue_runs(id, reply, t) {
            let (id, reply) = choose|id: int, reply: Reply| s.dequeue_runs(id, reply, t);
            if k == id {
                lemma_dequeue_on_track(s, t, id, reply);
            } else {
                assert(s.tasks.dom().contains(k));
                lemma_others_on_track(s, t, k, s.tasks[k]);
            }
        } else if s.tasks.dom().contains(k) {
            lemma_others_on_track(s, t, k, s.tasks[k]);
        }
    }
}

proof fn lemma_on_track(states: Seq<System>, contents: Contents, i: int)
    requires
        execution(states, contents),
        0 <= i < states.len(),
    ensures
        all_on_track(states[i]),
    decreases i,
{
    if i > 0 {
        lemma_on_track(states, contents, i - 1);
        lemma_reachable(states, contents, i - 1);
        assert(moves_at(states, i - 1));
        lemma_on_track_step(states[i - 1], states[i]);
    }
}

/// Whether the thread is busy in all states after `begin` up to `end`.
pub open spec fn busy(states: Seq<System>, id: int, begin: int, end: int) -> bool {
    forall|m: int| begin < m <= end ==> (#[trigger] states[m]).tasks.dom().contains(id)
}

/// What an operation is stays the same as long as the thread is busy with it.
proof fn lemma_same_operation(s: System, t: System, id: int)
    requires
        s.steps_to(t),
        s.tasks.dom().contains(id),
        t.tasks.dom().contains(id),
    ensures
        match s.tasks[id] {
            Task::Enqueue(op, since) => t.tasks[id] matches Task::Enqueue(next, then) && {
                &&& then == since
                &&& next.order == op.order
                &&& next.index == op.index
                &&& next.nonempty == op.nonempty
            },
            Task::Dequeue(op, since) => t.tasks[id] matches Task::Dequeue(next, then) && {
                &&& then == since
                &&& next.order == op.order
                &&& next.nonempty == op.nonempty
            },
        },
{
}

proof fn lemma_enqueue_runs_on(
    states: Seq<System>,
    contents: Contents,
    begin: int,
    end: int,
    id: int,
    index: usize,
    nonempty: bool,
)
    requires
        execution(states, contents),
        0 <= begin < end < states.len(),
        states[begin].begins_enqueue(id, index, nonempty, states[begin + 1]),
        busy(states, id, begin, end),
    ensures
        states[end].tasks[id] matches Task::Enqueue(op, since) && {
            &&& op.order == states[0].order
            &&& op.index == index
            &&& op.nonempty == nonempty
            &&& since == states[begin].memory.tail
        },
    decreases end,
{
    lemma_orders(states, contents, begin);
    if end > begin + 1 {
        assert(busy(states, id, begin, end - 1));
        lemma_enqueue_runs_on(states, contents, begin, end - 1, id, index, nonempty);
        assert(moves_at(states, end - 1));
        assert(states[end - 1].tasks.dom().contains(id));
        assert(states[end].tasks.dom().contains(id));
        lemma_same_operation(states[end - 1], states[end], id);
    }
}

proof fn lemma_dequeue_runs_on(
    states: Seq<System>,
    contents: Contents,
    begin: int,
    end: int,
    id: int,
    nonempty: bool,
)
    requires
        execution(states, contents),
        0 <= begin < end < states.len(),
        states[begin].begins_dequeue(id, nonempty, states[begin + 1]),
        busy(states, id, begin, end),
    ensures
        states[end].tasks[id] matches Task::Dequeue(op, since) && {
            &&& op.order == states[0].order
            &&& op.nonempty == nonempty
            &&& since == states[begin].memory.head
        },
    decreases end,
{
    lemma_orders(states, contents, begin);
    if end > begin + 1 {
        assert(busy(states, id, begin, end - 1));
        lemma_dequeue_runs_on(states, contents, begin, end - 1, id, nonempty);
        assert(moves_at(states, end - 1));
        assert(states[end - 1].tasks.dom().contains(id));
        assert(states[end].tasks.dom().contains(id));
        lemma_same_operation(states[end - 1], states[end], id);
    }
}

/// The ring's order never changes.
proof fn lemma_orders(states: Seq<System>, contents: Contents, i: int)
    requires
        execution(states, contents),
        0 <= i < states.len(),
    ensures
        states[i].order == states[0].order,
    decreases i,
{
    if i > 0 {
        lemma_orders(states, contents, i - 1);
        assert(moves_at(states, i - 1));
    }
}

/// Law: an enqueue that comes to success has put in the very index that it began with, at a
/// position where nothing had been put in before it began.
pub proof fn law_enqueue_puts_in_its_index(
    states: Seq<System>,
    contents: Contents,
    begin: int,
    end: int,
    id: int,
    index: usize,
    nonempty: bool,
)
    requires
        execution(states, contents),
        0 <= begin < end < states.len(),
        states[begin].begins_enqueue(id, index, nonempty, states[begin + 1]),
        busy(states, id, begin, end),
        states[end].tasks[id]->Enqueue_0.stage == (EnqueueStage::Done { enqueued: true }),
    ensures
        ({
            let p = states[end].last_claim[id];
            &&& states[begin].memory.tail <= p
            &&& !states[begin].is_written(p)
            &&& states[end].is_written(p)
            &&& states[end].written[p] == index
        }),
{
    lemma_enqueue_runs_on(states, contents, begin, end, id, index, nonempty);
    lemma_on_track(states, contents, end);
    lemma_reachable(states, contents, begin);
    assert(states[end].tasks.dom().contains(id));
    assert(on_track(states[end], id, states[end].tasks[id]));
    assert(states[begin].position_ok(states[end].last_claim[id]));
}

/// Law: a dequeue that comes to an index returns one that was put in, and takes it from a position
/// that no dequeue had taken from before it began.
pub proof fn law_dequeue_returns_what_was_put_in(
    states: Seq<System>,
    contents: Contents,
    begin: int,
    end: int,
    id: int,
    nonempty: bool,
    index: usize,
)
    requires
        execution(states, contents),
        0 <= begin < end < states.len(),
        states[begin].begins_dequeue(id, nonempty, states[begin + 1]),
        busy(states, id, begin, end),
        states[end].tasks[id]->Dequeue_0.stage == (DequeueStage::Done { index }),
        index != usize::MAX,
    ensures
        exists|p: int|
            states[begin].memory.head <= p && !states[begin].is_taken(p)
                && #[trigger] states[end].is_taken(p) && states[end].taken[p] == index
                && states[end].is_written(p) && states[end].written[p] == index,
{
    lemma_dequeue_runs_on(states, contents, begin, end, id, nonempty);
    lemma_on_track(states, contents, end);
    lemma_reachable(states, contents, begin);
    assert(states[end].tasks.dom().contains(id));
    assert(on_track(states[end], id, states[end].tasks[id]));
    let since = states[begin].memory.head as int;
    let p = choose|p: int|
        since <= p && #[trigger] states[end].is_taken(p) && states[end].taken[p] == index
            && states[end].is_written(p) && states[end].written[p] == index;
    assert(states[begin].position_ok(p));
}

/// Law: a dequeue that takes the word of its position comes to its end with it, and returns the
/// index that was put in there.
pub proof fn law_taken_index_is_returned(
    states: Seq<System>,
    contents: Contents,
    i: int,
    id: int,
    reply: Reply,
)
    requires
        execution(states, contents),
        0 <= i < states.len() - 1,
        states[i].dequeue_runs(id, reply, states[i + 1]),
        claim(states[i].tasks[id]) is Some,
        !states[i].is_taken(claim(states[i].tasks[id])->0),
        states[i + 1].is_taken(claim(states[i].tasks[id])->0),
    ensures
        ({
            let p = claim(states[i].tasks[id])->0;
            &&& states[i].is_written(p)
            &&& states[i + 1].tasks[id]->Dequeue_0.stage == (DequeueStage::Done {
                index: states[i].written[p],
            })
        }),
{
    let s = states[i];
    lemma_reachable(states, contents, i);
    lemma_slots(s.order);
    assert(s.task_ok(s.tasks[id]));
    assert(s.tasks[id]->Dequeue_0.stage is Take);
}

/// Law: when an enqueue that nobody has vouched for comes to success, the threshold is full: one
/// less than three times the ring's nominal capacity.
pub proof fn law_threshold_is_full_after_an_enqueue(
    states: Seq<System>,
    contents: Contents,
    i: int,
    id: int,
    reply: Reply,
)
    requires
        execution(states, contents),
        0 <= i < states.len() - 1,
        states[i].enqueue_runs(id, reply, states[i + 1]),
        !states[i].tasks[id]->Enqueue_0.nonempty,
        states[i + 1].tasks[id]->Enqueue_0.stage == (EnqueueStage::Done { enqueued: true }),
    ensures
        states[i + 1].memory.threshold == 3 * pow2(states[0].order as nat) - 1,
{
    let s = states[i];
    lemma_reachable(states, contents, i);
    lemma_orders(states, contents, i);
    law_ring_sizes(s.order);
    lemma_slots(s.order);
    assert(s.task_ok(s.tasks[id]));
}

/// Law: an index that has been put in is taken by the dequeue that claims its position. As soon as
/// that dequeue has looked at its slot and left it, the index is taken.
pub proof fn law_claimed_index_is_taken(
    states: Seq<System>,
    contents: Contents,
    i: int,
    j: int,
    id: int,
    p: int,
)
    requires
        execution(states, contents),
        0 <= i < j < states.len(),
        states[i].tasks.dom().contains(id),
        claim(states[i].tasks[id]) == Some(p),
        states[i].is_written(p),
        !(states[j].tasks.dom().contains(id) && claim(states[j].tasks[id]) == Some(p)),
    ensures
        states[j].is_taken(p),
        states[j].taken[p] == states[i].written[p],
    decreases j - i,
{
    let s = states[i];
    let t = states[i + 1];
    lemma_reachable(states, contents, i);
    assert(moves_at(states, i));
    lemma_step(s, t);
    lemma_slots(s.order);
    assert(s.task_ok(s.tasks[id]));
    law_history_grows(states, contents, i + 1, j);
    lemma_reachable(states, contents, i + 1);
    assert(t.is_written(p));
    if t.tasks.dom().contains(id) && claim(t.tasks[id]) == Some(p) {
        law_claimed_index_is_taken(states, contents, i + 1, j, id, p);
    } else {
        assert(t.is_taken(p)) by {
            lemma_leaves_by_taking(s, t, id, p);
        }
        assert(t.position_ok(p));
    }
}

/// A dequeue leaves a position that holds an index only by taking it.
proof fn lemma_leaves_by_taking(s: System, t: System, id: int, p: int)
    requires
        s.inv(),
        s.steps_to(t),
        s.tasks.dom().contains(id),
        claim(s.tasks[id]) == Some(p),
        s.is_written(p),
        !(t.tasks.dom().contains(id) && claim(t.tasks[id]) == Some(p)),
    ensures
        t.is_taken(p),
{
    lemma_step(s, t);
    assert(s.task_ok(s.tasks[id]));
    let (k, reply) = choose|k: int, reply: Reply| s.dequeue_runs(k, reply, t);
    assert(s.dequeue_runs(k, reply, t) && k == id);
    if !t.is_taken(p) {
        assert(t.is_passed(p));
    }
}

} // verus!
