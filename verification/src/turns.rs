//! In which order indices leave a ring that threads share.
//!
//! Dequeues claim the positions one after the other and leave none out, so an index can be taken
//! late, by the dequeue that has claimed its position, but it cannot be passed over.
use vstd::prelude::*;
use crate::access::{lemma_slots, Reply};
use crate::contents::Contents;
use crate::interleaving::{
    claim, execution, lemma_reachable, lemma_start, lemma_step, moves_at, System, Task,
};
use crate::position::lemma_counter_small;

verus! {

/// Whether a dequeue has claimed the position and not dealt with it yet.
pub open spec fn is_held(s: System, p: int) -> bool {
    exists|id: int| #[trigger] s.tasks.dom().contains(id) && claim(s.tasks[id]) == Some(p)
}

/// Whether the position has been dealt with, or is about to be.
pub open spec fn is_served(s: System, p: int) -> bool {
    s.is_taken(p) || s.is_passed(p) || is_held(s, p)
}

spec fn all_served(s: System) -> bool {
    forall|p: int| 0 <= p < s.memory.head ==> #[trigger] is_served(s, p)
}

/// A position that is held stays so until the dequeue takes its index or gives it up.
proof fn lemma_held(s: System, t: System, p: int)
    requires
        s.inv(),
        s.steps_to(t),
        is_held(s, p),
    ensures
        is_served(t, p),
{
    let k = choose|k: int| #[trigger] s.tasks.dom().contains(k) && claim(s.tasks[k]) == Some(p);
    assert(s.task_ok(s.tasks[k]));
    if exists|id: int, reply: Reply| s.dequeue_runs(id, reply, t) {
        let (id, reply) = choose|id: int, reply: Reply| s.dequeue_runs(id, reply, t);
        if id == k {
            let op = s.tasks[k]->Dequeue_0;
            let next = op.at(op.next_stage(reply));
            assert(t.tasks[k] == Task::Dequeue(next, s.tasks[k]->Dequeue_1));
            if claim(t.tasks[k]) == Some(p) {
                assert(t.tasks.dom().contains(k));
            }
        } else {
            assert(t.tasks.dom().contains(k));
        }
    } else if exists|id: int, reply: Reply| s.enqueue_runs(id, reply, t) {
        let (id, reply) = choose|id: int, reply: Reply| s.enqueue_runs(id, reply, t);
        assert(id != k);
        assert(t.tasks.dom().contains(k));
    } else {
        assert(t.tasks.dom().contains(k));
    }
}

/// Every step leaves no position below the head counter without a dequeue.
proof fn lemma_served_step(s: System, t: System)
    requires
        s.inv(),
        all_served(s),
        s.steps_to(t),
    ensures
        all_served(t),
{
    lemma_step(s, t);
    assert forall|p: int| 0 <= p < t.memory.head implies #[trigger] is_served(t, p) by {
        if p < s.memory.head {
            assert(is_served(s, p));
            if is_held(s, p) {
                lemma_held(s, t, p);
            }
        } else {
            let (id, reply) = choose|id: int, reply: Reply| s.dequeue_runs(id, reply, t);
            assert(s.dequeue_runs(id, reply, t));
            assert(s.tasks[id]->Dequeue_0.stage is Claim);
            assert(t.tasks.dom().contains(id) && claim(t.tasks[id]) == Some(p));
        }
    }
}

proof fn lemma_served(states: Seq<System>, contents: Contents, i: int)
    requires
        execution(states, contents),
        0 <= i < states.len(),
    ensures
        all_served(states[i]),
    decreases i,
{
    if i == 0 {
        lemma_start(states[0], contents);
        lemma_slots(states[0].order);
        lemma_counter_small(contents.head);
        assert forall|p: int| 0 <= p < states[0].memory.head implies #[trigger] is_served(
            states[0],
            p,
        ) by {
            assert(states[0].is_passed(p));
        }
    } else {
        lemma_served(states, contents, i - 1);
        lemma_reachable(states, contents, i - 1);
        assert(moves_at(states, i - 1));
        lemma_served_step(states[i - 1], states[i]);
    }
}

/// Law: first in, first out. When the index of a position has been taken, the index of every
/// earlier position has been taken too, or a dequeue that is under way has claimed it. The law is
/// for indices that did not come too late: no dequeue had given their position up.
pub proof fn law_first_in_first_out(
    states: Seq<System>,
    contents: Contents,
    i: int,
    p: int,
    q: int,
)
    requires
        execution(states, contents),
        0 <= i < states.len(),
        states[i].is_written(p),
        !states[i].is_passed(p),
        states[i].is_taken(q),
        p < q,
    ensures
        states[i].is_taken(p) || is_held(states[i], p),
{
    lemma_reachable(states, contents, i);
    lemma_served(states, contents, i);
    assert(states[i].position_ok(p));
    assert(states[i].position_ok(q));
    assert(is_served(states[i], p));
}

} // verus!
