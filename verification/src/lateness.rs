//! When an index can come too late.
//!
//! An enqueue that finds its slot marked unsafe looks at the head counter before it writes. If it
//! is held up between the look and the write, dequeues may give its position up meanwhile; they
//! leave an unsafe slot as it is, so the write succeeds, and no dequeue will come for the index. If
//! this does not happen, no index is put where nobody takes it.
use vstd::prelude::*;
use crate::access::{lemma_slots, Reply};
use crate::contents::Contents;
use crate::entry::entry_safe;
use crate::interleaving::{
    execution, lemma_dequeue_inspects, lemma_reachable, lemma_start_word, lemma_step,
    moves_at, pending, System,
};
use crate::lap::{
    lap, lap_of, lemma_lap_monotonic, lemma_marked_word, lemma_position_word, lemma_same_slot,
    lemma_vacated_word,
};
use crate::position::{lemma_counter_small, lemma_slot_in_ring, slot_of};

verus! {

/// Whether no enqueue writes into an unsafe slot in this step after the head has gone past its
/// position.
pub open spec fn timely(s: System, t: System) -> bool {
    forall|id: int, reply: Reply| #[trigger]
        s.enqueue_runs(id, reply, t) && s.tasks[id]->Enqueue_0.stage is Write && reply is Swapped
            && !entry_safe(s.tasks[id]->Enqueue_0.stage->Write_entry, s.n()) ==> s.memory.head
            <= s.tasks[id]->Enqueue_0.stage->Write_tail
}

/// Whether this holds of a step of an execution.
pub open spec fn timely_at(states: Seq<System>, i: int) -> bool {
    timely(states[i], states[i + 1])
}

/// A position that has been given up holds no index, and its slot is not safe as long as it is
/// behind.
spec fn settled(s: System, p: int) -> bool {
    s.is_passed(p) ==> !s.is_written(p) && (lap(s.word(p), s.n()) < lap_of(p, s.n())
        ==> !entry_safe(s.word(p), s.n()))
}

spec fn all_settled(s: System) -> bool {
    forall|p: int| 0 <= p ==> #[trigger] settled(s, p)
}

proof fn lemma_settled_write(s: System, t: System, id: int, reply: Reply)
    requires
        s.inv(),
        all_settled(s),
        timely(s, t),
        s.enqueue_runs(id, reply, t),
        s.tasks[id]->Enqueue_0.stage is Write,
        reply is Swapped,
    ensures
        all_settled(t),
{
    let n = s.n();
    lemma_slots(s.order);
    assert(s.task_ok(s.tasks[id]));
    let op = s.tasks[id]->Enqueue_0;
    let here = op.stage->Write_tail as int;
    let entry = op.stage->Write_entry;
    lemma_slot_in_ring(here, s.order + 1);
    lemma_position_word(here, true, op.index as int, n);
    assert(s.word(here) == entry);
    assert forall|p: int| 0 <= p implies #[trigger] settled(t, p) by {
        assert(settled(s, p));
        assert(s.position_ok(p));
        lemma_slot_in_ring(p, s.order + 1);
        if s.is_passed(p) && slot_of(p, s.order + 1) == slot_of(here, s.order + 1) {
            lemma_same_slot(p, here, s.order + 1, n);
            // The slot was safe, or the head had not got here; either way this position is past.
            assert(p < here);
        }
    }
}

proof fn lemma_settled_dequeue(s: System, t: System, id: int, reply: Reply)
    requires
        s.inv(),
        all_settled(s),
        s.dequeue_runs(id, reply, t),
    ensures
        all_settled(t),
{
    let n = s.n();
    lemma_slots(s.order);
    assert(s.task_ok(s.tasks[id]));
    let op = s.tasks[id]->Dequeue_0;
    let since = s.tasks[id]->Dequeue_1;
    if pending(op.stage) is Some {
        let here = pending(op.stage)->0;
        lemma_slot_in_ring(here, s.order + 1);
        lemma_dequeue_inspects(s, op, since, here as u64);
        lemma_vacated_word(s.word(here), n);
        lemma_marked_word(s.word(here), n);
        assert(s.position_ok(here));
    }
    assert forall|p: int| 0 <= p implies #[trigger] settled(t, p) by {
        assert(settled(s, p));
        lemma_slot_in_ring(p, s.order + 1);
    }
}

proof fn lemma_settled_step(s: System, t: System)
    requires
        s.inv(),
        all_settled(s),
        timely(s, t),
        s.steps_to(t),
    ensures
        all_settled(t),
{
    lemma_step(s, t);
    if exists|id: int, reply: Reply| s.dequeue_runs(id, reply, t) {
        let (id, reply) = choose|id: int, reply: Reply| s.dequeue_runs(id, reply, t);
        lemma_settled_dequeue(s, t, id, reply);
    } else if exists|id: int, reply: Reply|
        s.enqueue_runs(id, reply, t) && s.tasks[id]->Enqueue_0.stage is Write && reply is Swapped {
        let (id, reply) = choose|id: int, reply: Reply|
            s.enqueue_runs(id, reply, t) && s.tasks[id]->Enqueue_0.stage is Write
                && reply is Swapped;
        lemma_settled_write(s, t, id, reply);
    } else {
        assert(t.memory.array == s.memory.array && t.written == s.written && t.passed == s.passed);
        assert forall|p: int| 0 <= p implies #[trigger] settled(t, p) by {
            assert(settled(s, p));
        }
    }
}

proof fn lemma_settled_start(s: System, contents: Contents)
    requires
        s.starts(contents),
    ensures
        all_settled(s),
{
    let n = s.n();
    lemma_slots(s.order);
    lemma_counter_small(contents.head);
    assert forall|p: int| 0 <= p implies #[trigger] settled(s, p) by {
        let (q, mark) = lemma_start_word(s, contents, p);
        lemma_same_slot(p, q, s.order + 1, n);
        lemma_same_slot(p, mark, s.order + 1, n);
        lemma_slot_in_ring(q - n, s.order + 1);
        lemma_lap_monotonic(0, p, n);
    }
}

proof fn lemma_settled(states: Seq<System>, contents: Contents, i: int)
    requires
        execution(states, contents),
        forall|j: int| 0 <= j < states.len() - 1 ==> #[trigger] timely_at(states, j),
        0 <= i < states.len(),
    ensures
        all_settled(states[i]),
    decreases i,
{
    if i == 0 {
        lemma_settled_start(states[0], contents);
    } else {
        lemma_settled(states, contents, i - 1);
        lemma_reachable(states, contents, i - 1);
        assert(moves_at(states, i - 1));
        assert(timely_at(states, i - 1));
        lemma_settled_step(states[i - 1], states[i]);
    }
}

/// Law: if every enqueue that writes into an unsafe slot does so before the head has gone past its
/// position, no index is ever put where a dequeue has given up.
pub proof fn law_timely_indices_are_reached(
    states: Seq<System>,
    contents: Contents,
    i: int,
    p: int,
)
    requires
        execution(states, contents),
        forall|j: int| 0 <= j < states.len() - 1 ==> #[trigger] timely_at(states, j),
        0 <= i < states.len(),
        states[i].is_written(p),
    ensures
        !states[i].is_passed(p),
{
    lemma_reachable(states, contents, i);
    lemma_settled(states, contents, i);
    assert(settled(states[i], p));
}

} // verus!
