//! What threads can count on that use one ring at the same time.
//!
//! Each thread runs enqueues and dequeues. Their accesses to the ring's words happen one after the
//! other, interleaved in any way, and a conditional replacement may fail for no reason. The laws
//! hold for any number of threads, as long as no counter passes the horizon.
use vstd::prelude::*;
use crate::access::{
    full_threshold, lemma_slots, ring_order, slots, written_word, Access, Memory, Reply,
};
use crate::dequeue::{CatchupStage, DequeueOp, DequeueStage, LFRING_EMPTY};
use crate::enqueue::{EnqueueOp, EnqueueStage};
use crate::entry::{
    encode, entry_cycle, entry_index, entry_safe, lemma_entry, lemma_word_parts, vacant,
};
use crate::lap::{
    horizon, in_sight, lap, lap_of, lemma_compare_laps, lemma_lap_monotonic, lemma_marked_word,
    lemma_position_word, lemma_same_slot, lemma_vacated_word, lemma_word_before_first,
};
use crate::contents::{lemma_expected, mark_at, represents, word_at, Contents};
use crate::position::{
    lemma_counter_small, lemma_slot_in_ring, lemma_slot_same, lemma_slot_surjective,
    lemma_slot_window_position, slot_of,
};

verus! {

/// An operation that a thread runs, and where the counter that it claims positions from stood when
/// the operation began.
pub enum Task {
    Enqueue(EnqueueOp, int),
    Dequeue(DequeueOp, int),
}

/// A ring, the operations on it, and what has become of each position so far.
pub struct System {
    pub order: usize,
    /// The number of threads; they are numbered from zero.
    pub threads: int,
    pub memory: Memory,
    /// What each thread that is not idle runs.
    pub tasks: Map<int, Task>,
    /// The positions that an enqueue has written, with the index.
    pub written: Map<int, usize>,
    /// The positions that a dequeue has taken the index from, with the index it returns.
    pub taken: Map<int, usize>,
    /// The positions that a dequeue has claimed and left without an index.
    pub passed: Set<int>,
    /// The position that each thread has claimed last for an enqueue.
    pub last_claim: Map<int, int>,
    /// The thread that has claimed each position last for an enqueue.
    pub claimed_by: Map<int, int>,
    /// The positions that an enqueue has written and is done with, after it has seen to the
    /// threshold.
    pub announced: Set<int>,
}

/// What one access may do: take effect, or, for a conditional replacement, fail for no reason.
pub open spec fn accesses(before: Memory, access: Access, reply: Reply, after: Memory) -> bool {
    ||| after == before.after(access) && reply == before.reply(access)
    ||| access is SwapTail && after == before && reply == Reply::Refused(before.tail)
    ||| access is SwapSlot && after == before && reply == Reply::Refused(
        before.array[access->SwapSlot_slot as int],
    )
}

/// Whether a dequeue that goes from one stage to the other leaves its position without an index.
pub open spec fn gives_up(from: DequeueStage, to: DequeueStage) -> bool {
    (from is Load || from is Replace) && (to is ReadTail || to is Spend)
}

/// The position that a dequeue has claimed and not dealt with yet.
pub open spec fn pending(stage: DequeueStage) -> Option<int> {
    match stage {
        DequeueStage::Load { head, .. } => Some(head as int),
        DequeueStage::Take { head, .. } => Some(head as int),
        DequeueStage::Replace { head, .. } => Some(head as int),
        _ => None,
    }
}

/// The position that a dequeue of a thread has claimed and not dealt with yet.
pub open spec fn claim(task: Task) -> Option<int> {
    match task {
        Task::Enqueue(..) => None,
        Task::Dequeue(op, _) => pending(op.stage),
    }
}

impl System {
    /// The word in the slot of a position.
    pub open spec fn word(self, position: int) -> u64 {
        word_at(self.memory.array, self.order, position)
    }

    pub open spec fn n(self) -> u64 {
        slots(self.order)
    }

    pub open spec fn is_written(self, position: int) -> bool {
        self.written.dom().contains(position)
    }

    pub open spec fn is_taken(self, position: int) -> bool {
        self.taken.dom().contains(position)
    }

    pub open spec fn is_announced(self, position: int) -> bool {
        self.announced.contains(position)
    }

    pub open spec fn is_passed(self, position: int) -> bool {
        self.passed.contains(position)
    }

    /// A thread begins to enqueue an index; `n - 1` is not an index that threads may share.
    pub open spec fn begins_enqueue(
        self,
        id: int,
        index: usize,
        nonempty: bool,
        next: System,
    ) -> bool {
        &&& 0 <= id < self.threads
        &&& !self.tasks.dom().contains(id)
        &&& index < self.n() - 1
        &&& next == System {
            tasks: self.tasks.insert(
                id,
                Task::Enqueue(
                    EnqueueOp {
                        order: self.order,
                        index: index as u64,
                        nonempty,
                        stage: EnqueueStage::ReadTail,
                    },
                    self.memory.tail as int,
                ),
            ),
            ..self
        }
    }

    /// A thread begins to dequeue.
    pub open spec fn begins_dequeue(self, id: int, nonempty: bool, next: System) -> bool {
        &&& 0 <= id < self.threads
        &&& !self.tasks.dom().contains(id)
        &&& next == System {
            tasks: self.tasks.insert(
                id,
                Task::Dequeue(
                    DequeueOp {
                        order: self.order,
                        nonempty,
                        stage: DequeueOp::first_stage(nonempty),
                    },
                    self.memory.head as int,
                ),
            ),
            ..self
        }
    }

    /// An enqueue performs an access and goes on.
    pub open spec fn enqueue_runs(self, id: int, reply: Reply, next: System) -> bool {
        &&& self.tasks.dom().contains(id)
        &&& self.tasks[id] matches Task::Enqueue(op, since)
        &&& op.wants() matches Some(access)
        &&& accesses(self.memory, access, reply, next.memory)
        &&& next == System {
            memory: next.memory,
            tasks: self.tasks.insert(
                id,
                Task::Enqueue(op.at(op.next_stage(reply)), since),
            ),
            written: if op.stage is Write && reply is Swapped {
                self.written.insert(op.stage->Write_tail as int, op.index as usize)
            } else {
                self.written
            },
            last_claim: if op.stage is Claim {
                self.last_claim.insert(id, self.memory.tail as int)
            } else {
                self.last_claim
            },
            claimed_by: if op.stage is Claim {
                self.claimed_by.insert(self.memory.tail as int, id)
            } else {
                self.claimed_by
            },
            announced: if !op.nonempty && op.next_stage(reply) == (EnqueueStage::Done {
                enqueued: true,
            }) {
                self.announced.insert(self.last_claim[id])
            } else {
                self.announced
            },
            ..self
        }
    }

    /// A dequeue performs an access and goes on.
    pub open spec fn dequeue_runs(self, id: int, reply: Reply, next: System) -> bool {
        &&& self.tasks.dom().contains(id)
        &&& self.tasks[id] matches Task::Dequeue(op, since)
        &&& op.wants() matches Some(access)
        &&& accesses(self.memory, access, reply, next.memory)
        &&& next == System {
            memory: next.memory,
            tasks: self.tasks.insert(
                id,
                Task::Dequeue(op.at(op.next_stage(reply)), since),
            ),
            taken: if op.stage is Take {
                self.taken.insert(
                    op.stage->Take_head as int,
                    entry_index(op.stage->Take_entry, self.n()) as usize,
                )
            } else {
                self.taken
            },
            passed: if gives_up(op.stage, op.next_stage(reply)) {
                self.passed.insert(pending(op.stage)->0)
            } else {
                self.passed
            },
            ..self
        }
    }

    /// A thread whose operation is done forgets about it.
    pub open spec fn finishes(self, id: int, next: System) -> bool {
        &&& self.tasks.dom().contains(id)
        &&& match self.tasks[id] {
            Task::Enqueue(op, _) => op.stage is Done,
            Task::Dequeue(op, _) => op.stage is Done,
        }
        &&& next == System { tasks: self.tasks.remove(id), ..self }
    }

    /// Whether one step leads from this state to the next one.
    pub open spec fn steps_to(self, next: System) -> bool {
        &&& next.memory.head <= horizon()
        &&& next.memory.tail <= horizon()
        &&& {
            ||| exists|id: int, index: usize, nonempty: bool|
                self.begins_enqueue(id, index, nonempty, next)
            ||| exists|id: int, nonempty: bool| self.begins_dequeue(id, nonempty, next)
            ||| exists|id: int, reply: Reply| self.enqueue_runs(id, reply, next)
            ||| exists|id: int, reply: Reply| self.dequeue_runs(id, reply, next)
            ||| exists|id: int| self.finishes(id, next)
        }
    }

    /// The words and counters are within the horizon.
    pub open spec fn memory_ok(self) -> bool {
        &&& ring_order(self.order)
        &&& self.memory.array.len() == self.n()
        &&& self.memory.head <= horizon()
        &&& self.memory.tail <= horizon()
        &&& forall|i: int|
            0 <= i < self.memory.array.len() ==> in_sight(#[trigger] self.memory.array[i], self.n())
    }

    /// What holds of a position.
    pub open spec fn position_ok(self, p: int) -> bool {
        let n = self.n();
        let w = self.word(p);
        let waiting = self.is_written(p) && !self.is_taken(p);
        &&& self.is_written(p) ==> {
            &&& p < self.memory.tail
            &&& lap_of(p, n) <= lap(w, n)
            &&& self.written[p] < n - 1
        }
        &&& waiting ==> lap(w, n) == lap_of(p, n) && entry_index(w, n) == self.written[p]
        &&& self.is_taken(p) ==> self.is_written(p) && self.taken[p] == self.written[p]
        &&& self.is_taken(p) || self.is_passed(p) ==> p < self.memory.head
        &&& lap(w, n) == lap_of(p, n) && !waiting ==> vacant(w, n) && (self.is_taken(p)
            || self.is_passed(p))
    }

    pub open spec fn positions_ok(self) -> bool {
        &&& forall|p: int| 0 <= p ==> #[trigger] self.position_ok(p)
        &&& forall|p: int| #[trigger] self.is_written(p) ==> 0 <= p
        &&& forall|p: int| #[trigger] self.is_taken(p) ==> 0 <= p
        &&& forall|p: int| #[trigger] self.is_passed(p) ==> 0 <= p
    }

    /// What a thread can still say of the slot of `p` after it has seen `entry` there.
    pub open spec fn seen(self, p: int, entry: u64) -> bool {
        let n = self.n();
        &&& in_sight(entry, n)
        &&& lap(entry, n) < lap_of(p, n)
        &&& lap(entry, n) <= lap(self.word(p), n)
        &&& lap(entry, n) == lap(self.word(p), n) && vacant(entry, n) ==> vacant(self.word(p), n)
    }

    pub open spec fn enqueue_ok(self, op: EnqueueOp, since: int) -> bool {
        let n = self.n();
        let claimed = |tail: u64| since <= tail < self.memory.tail;
        &&& op.wf()
        &&& op.order == self.order
        &&& op.index < n - 1
        &&& 0 <= since <= self.memory.tail
        &&& match op.stage {
            EnqueueStage::ReadHead { tail } => tail <= self.memory.tail,
            EnqueueStage::Load { tail } => claimed(tail),
            EnqueueStage::CheckHead { tail, entry } => {
                &&& claimed(tail)
                &&& vacant(entry, n)
                &&& self.seen(tail as int, entry)
            },
            EnqueueStage::Write { tail, entry } => {
                &&& claimed(tail)
                &&& vacant(entry, n)
                &&& self.seen(tail as int, entry)
            },
            _ => true,
        }
    }

    pub open spec fn dequeue_ok(self, op: DequeueOp, since: int) -> bool {
        let n = self.n();
        &&& op.wf()
        &&& op.order == self.order
        &&& 0 <= since <= self.memory.head
        &&& pending(op.stage) matches Some(h) ==> {
            &&& since <= h < self.memory.head
            &&& !self.is_taken(h)
            &&& !self.is_passed(h)
        }
        &&& match op.stage {
            DequeueStage::Take { head, entry } => {
                &&& self.is_written(head as int)
                &&& entry_index(entry, n) == self.written[head as int]
            },
            DequeueStage::Replace { head, entry, new, .. } => {
                &&& self.seen(head as int, entry)
                &&& new == encode(entry_cycle(entry, n), false, entry_index(entry, n), n)
            },
            DequeueStage::ReadTail { head } => head < self.memory.head,
            DequeueStage::CatchUp { op: catchup } => {
                &&& catchup.head <= self.memory.head
                &&& catchup.stage matches CatchupStage::Swap { tail } && tail <= catchup.head
            },
            _ => true,
        }
    }

    pub open spec fn task_ok(self, task: Task) -> bool {
        match task {
            Task::Enqueue(op, since) => self.enqueue_ok(op, since),
            Task::Dequeue(op, since) => self.dequeue_ok(op, since),
        }
    }

    pub open spec fn tasks_ok(self) -> bool {
        forall|id: int| #[trigger] self.tasks.dom().contains(id) ==> self.task_ok(self.tasks[id])
    }

    /// No two dequeues have claimed the same position.
    pub open spec fn claims_apart(self) -> bool {
        forall|i: int, j: int|
            #![trigger claim(self.tasks[i]), claim(self.tasks[j])]
            i != j && self.tasks.dom().contains(i) && self.tasks.dom().contains(j) && claim(
                self.tasks[i],
            ) is Some ==> claim(self.tasks[i]) != claim(self.tasks[j])
    }

    pub open spec fn inv(self) -> bool {
        &&& self.memory_ok()
        &&& self.positions_ok()
        &&& self.tasks_ok()
        &&& self.claims_apart()
    }
}

/// How a word changes: to a later lap, or within its lap, where an index can go but not come.
spec fn evolves(from: u64, to: u64, n: u64) -> bool {
    lap(from, n) < lap(to, n) || (lap(from, n) == lap(to, n) && (vacant(from, n) ==> vacant(to, n)))
}

/// What a step keeps and changes, as far as the threads that do not take it are concerned: one slot
/// may change, and the position `own`, which the thread has claimed, may be taken or passed.
spec fn undisturbing(s: System, t: System, slot: int, own: Option<int>) -> bool {
    &&& t.order == s.order
    &&& t.memory_ok()
    &&& s.memory.head <= t.memory.head
    &&& s.memory.tail <= t.memory.tail
    &&& forall|i: int|
        0 <= i < s.n() && i != slot ==> #[trigger] t.memory.array[i] == s.memory.array[i]
    &&& 0 <= slot < s.n()
    &&& evolves(s.memory.array[slot], t.memory.array[slot], s.n())
    &&& forall|p: int|
        #![trigger t.is_written(p)]
        #![trigger s.is_written(p)]
        s.is_written(p) ==> t.is_written(p) && t.written[p] == s.written[p]
    &&& forall|p: int| #[trigger] t.is_taken(p) ==> s.is_taken(p) || own == Some(p)
    &&& forall|p: int| #[trigger] t.is_passed(p) ==> s.is_passed(p) || own == Some(p)
}

proof fn lemma_other_task(s: System, t: System, slot: int, own: Option<int>, task: Task)
    requires
        s.memory_ok(),
        undisturbing(s, t, slot, own),
        s.task_ok(task),
        claim(task) is Some ==> claim(task) != own,
    ensures
        t.task_ok(task),
{
    lemma_slots(s.order);
    let n = s.n();
    match task {
        Task::Enqueue(op, since) => {
            match op.stage {
                EnqueueStage::CheckHead { tail, entry } => {
                    lemma_slot_in_ring(tail as int, s.order + 1);
                },
                EnqueueStage::Write { tail, entry } => {
                    lemma_slot_in_ring(tail as int, s.order + 1);
                },
                _ => {},
            }
        },
        Task::Dequeue(op, since) => {
            match op.stage {
                DequeueStage::Replace { head, .. } => {
                    lemma_slot_in_ring(head as int, s.order + 1);
                },
                _ => {},
            }
        },
    }
}

/// A step keeps the invariant if it is harmless to the other threads, to all positions and to the
/// thread that takes it.
proof fn lemma_settle(s: System, t: System, id: int, slot: int, task: Task)
    requires
        s.inv(),
        undisturbing(
            s,
            t,
            slot,
            if s.tasks.dom().contains(id) {
                claim(s.tasks[id])
            } else {
                None
            },
        ),
        t.positions_ok(),
        t.tasks == s.tasks.insert(id, task),
        t.task_ok(task),
        claim(task) is Some ==> claim(task) == Some(s.memory.head as int) || s.tasks.dom().contains(
            id,
        ) && claim(task) == claim(s.tasks[id]),
    ensures
        t.inv(),
{
    let own = if s.tasks.dom().contains(id) {
        claim(s.tasks[id])
    } else {
        None
    };
    assert forall|k: int| #[trigger] t.tasks.dom().contains(k) implies t.task_ok(t.tasks[k]) by {
        if k != id {
            assert(s.tasks.dom().contains(k));
            assert(s.task_ok(s.tasks[k]));
            if own is Some {
                assert(claim(s.tasks[id]) != claim(s.tasks[k]));
            }
            lemma_other_task(s, t, slot, own, s.tasks[k]);
        }
    }
    assert forall|i: int, j: int|
        #![trigger claim(t.tasks[i]), claim(t.tasks[j])]
        i != j && t.tasks.dom().contains(i) && t.tasks.dom().contains(j) && claim(
            t.tasks[i],
        ) is Some implies claim(t.tasks[i]) != claim(t.tasks[j]) by {
        if i != id {
            assert(s.tasks.dom().contains(i) && s.task_ok(s.tasks[i]));
        }
        if j != id {
            assert(s.tasks.dom().contains(j) && s.task_ok(s.tasks[j]));
        }
        if i != id && j != id {
            assert(claim(s.tasks[i]) != claim(s.tasks[j]));
        } else if i != id {
            if own is Some {
                assert(claim(s.tasks[i]) != claim(s.tasks[id]));
            }
        } else {
            if own is Some {
                assert(claim(s.tasks[id]) != claim(s.tasks[j]));
            }
        }
    }
}

/// Positions whose fate is known are not negative, if this held before and the position that a step
/// deals with is not.
proof fn lemma_not_negative(s: System, t: System, here: int)
    requires
        s.positions_ok(),
        0 <= here,
        forall|p: int| #[trigger] t.is_written(p) ==> s.is_written(p) || p == here,
        forall|p: int| #[trigger] t.is_taken(p) ==> s.is_taken(p) || p == here,
        forall|p: int| #[trigger] t.is_passed(p) ==> s.is_passed(p) || p == here,
    ensures
        forall|p: int| #[trigger] t.is_written(p) ==> 0 <= p,
        forall|p: int| #[trigger] t.is_taken(p) ==> 0 <= p,
        forall|p: int| #[trigger] t.is_passed(p) ==> 0 <= p,
{
    assert forall|p: int| #[trigger] t.is_written(p) implies 0 <= p by {
        assert(s.is_written(p) || p == here);
    }
    assert forall|p: int| #[trigger] t.is_taken(p) implies 0 <= p by {
        assert(s.is_taken(p) || p == here);
    }
    assert forall|p: int| #[trigger] t.is_passed(p) implies 0 <= p by {
        assert(s.is_passed(p) || p == here);
    }
}

/// A step that changes no slot and no position's fate is harmless to all positions.
proof fn lemma_nothing_happens(s: System, t: System)
    requires
        s.inv(),
        t.order == s.order,
        t.memory.array == s.memory.array,
        s.memory.head <= t.memory.head <= horizon(),
        s.memory.tail <= t.memory.tail <= horizon(),
        t.written == s.written,
        t.taken == s.taken,
        t.passed == s.passed,
    ensures
        t.positions_ok(),
        undisturbing(s, t, 0, None),
        forall|own: Option<int>| #[trigger] undisturbing(s, t, 0, own),
{
    lemma_slots(s.order);
    assert forall|p: int| 0 <= p implies #[trigger] t.position_ok(p) by {
        assert(s.position_ok(p));
    }
    lemma_not_negative(s, t, 0);
}

/// An enqueue that has read its slot goes on by the slot's lap.
proof fn lemma_enqueue_inspects(s: System, op: EnqueueOp, since: int, tail: u64)
    requires
        s.memory_ok(),
        s.enqueue_ok(op, since),
        since <= tail < s.memory.tail,
    ensures
        s.enqueue_ok(op.at(op.inspected(tail, s.word(tail as int))), since),
{
    lemma_slots(s.order);
    lemma_slot_in_ring(tail as int, s.order + 1);
    lemma_compare_laps(s.word(tail as int), tail as int, s.n());
}

/// Steps of an enqueue that change no slot.
proof fn lemma_enqueue_looks(s: System, t: System, id: int, reply: Reply)
    requires
        s.inv(),
        s.enqueue_runs(id, reply, t),
        t.memory.head <= horizon(),
        t.memory.tail <= horizon(),
        !(s.tasks[id]->Enqueue_0.stage is Write && reply is Swapped),
    ensures
        t.inv(),
        s.memory.head <= t.memory.head,
        s.memory.tail <= t.memory.tail,
{
    let op = s.tasks[id]->Enqueue_0;
    let since = s.tasks[id]->Enqueue_1;
    let next = op.at(op.next_stage(reply));
    lemma_slots(s.order);
    assert(s.task_ok(s.tasks[id]));
    match op.stage {
        EnqueueStage::Load { tail } => {
            lemma_slot_in_ring(tail as int, s.order + 1);
            lemma_enqueue_inspects(s, op, since, tail);
        },
        EnqueueStage::Write { tail, entry } => {
            lemma_slot_in_ring(tail as int, s.order + 1);
            lemma_enqueue_inspects(s, op, since, tail);
        },
        _ => {},
    }
    assert(t.memory.array == s.memory.array);
    lemma_nothing_happens(s, t);
    assert(undisturbing(s, t, 0, None));
    assert(t.enqueue_ok(next, since));
    lemma_settle(s, t, id, 0, Task::Enqueue(next, since));
}

/// An enqueue writes its index.
proof fn lemma_enqueue_writes(s: System, t: System, id: int, reply: Reply)
    requires
        s.inv(),
        s.enqueue_runs(id, reply, t),
        s.tasks[id]->Enqueue_0.stage is Write,
        reply is Swapped,
    ensures
        t.inv(),
        t.memory.head == s.memory.head,
        t.memory.tail == s.memory.tail,
        !s.is_written(s.tasks[id]->Enqueue_0.stage->Write_tail as int),
{
    let op = s.tasks[id]->Enqueue_0;
    let since = s.tasks[id]->Enqueue_1;
    let next = op.at(op.next_stage(reply));
    let n = s.n();
    lemma_slots(s.order);
    assert(s.task_ok(s.tasks[id]));
    let tail = op.stage->Write_tail;
    let entry = op.stage->Write_entry;
    let here = tail as int;
    let slot = slot_of(here, s.order + 1);
    lemma_slot_in_ring(here, s.order + 1);
    lemma_position_word(here, true, op.index as int, n);
    lemma_lap_monotonic(here, horizon(), n);
    assert(s.word(here) == entry);
    let w = written_word(tail, op.index, s.order);
    assert(t.memory.array == s.memory.array.update(slot, w));
    assert(s.position_ok(here));
    assert forall|p: int| 0 <= p implies #[trigger] t.position_ok(p) by {
        assert(s.position_ok(p));
        lemma_slot_in_ring(p, s.order + 1);
        if slot_of(p, s.order + 1) == slot && p != here {
            lemma_same_slot(p, here, s.order + 1, n);
        }
    }
    lemma_not_negative(s, t, here);
    assert(undisturbing(s, t, slot, None));
    lemma_settle(s, t, id, slot, Task::Enqueue(next, since));
}

/// A dequeue that has read its slot goes on by the slot's lap; if it gives the slot up, the slot is
/// not one that an enqueue of this position would write without a look at the head counter.
pub(crate) proof fn lemma_dequeue_inspects(s: System, op: DequeueOp, since: int, head: u64)
    requires
        s.inv(),
        s.dequeue_ok(op, since),
        pending(op.stage) == Some(head as int),
    ensures
        ({
            let n = s.n();
            let w = s.word(head as int);
            let stage = op.inspected(head, w);
            if stage is ReadTail || stage is Spend {
                &&& stage == op.passed(head)
                &&& !s.is_written(head as int)
                &&& lap(w, n) != lap_of(head as int, n)
                &&& lap(w, n) < lap_of(head as int, n) ==> !entry_safe(w, n)
            } else {
                &&& s.dequeue_ok(op.at(stage), since)
                &&& pending(stage) == Some(head as int)
            }
        }),
{
    let n = s.n();
    let here = head as int;
    let w = s.word(here);
    lemma_slots(s.order);
    lemma_slot_in_ring(here, s.order + 1);
    lemma_compare_laps(w, here, n);
    lemma_marked_word(w, n);
    assert(s.position_ok(here));
}

/// A dequeue leaves its position without an index; no slot changes in this step.
proof fn lemma_dequeue_gives_up(s: System, t: System, id: int, reply: Reply)
    requires
        s.inv(),
        s.dequeue_runs(id, reply, t),
        gives_up(s.tasks[id]->Dequeue_0.stage, s.tasks[id]->Dequeue_0.next_stage(reply)),
        t.memory == s.memory,
        !(reply is Swapped),
    ensures
        t.inv(),
        !s.is_written(pending(s.tasks[id]->Dequeue_0.stage)->0),
{
    let op = s.tasks[id]->Dequeue_0;
    let since = s.tasks[id]->Dequeue_1;
    let next = op.at(op.next_stage(reply));
    let n = s.n();
    lemma_slots(s.order);
    assert(s.task_ok(s.tasks[id]));
    let here = pending(op.stage)->0;
    let head = here as u64;
    let slot = slot_of(here, s.order + 1);
    lemma_slot_in_ring(here, s.order + 1);
    lemma_dequeue_inspects(s, op, since, head);
    assert(s.position_ok(here));
    assert forall|p: int| 0 <= p implies #[trigger] t.position_ok(p) by {
        assert(s.position_ok(p));
    }
    lemma_not_negative(s, t, here);
    assert(undisturbing(s, t, slot, Some(here)));
    lemma_settle(s, t, id, slot, Task::Dequeue(next, since));
}

/// A dequeue replaces a slot that is behind, and leaves its position without an index.
proof fn lemma_dequeue_replaces(s: System, t: System, id: int, reply: Reply)
    requires
        s.inv(),
        s.dequeue_runs(id, reply, t),
        s.tasks[id]->Dequeue_0.stage is Replace,
        reply is Swapped,
    ensures
        t.inv(),
        !s.is_written(pending(s.tasks[id]->Dequeue_0.stage)->0),
        t.memory.head == s.memory.head,
        t.memory.tail == s.memory.tail,
{
    let op = s.tasks[id]->Dequeue_0;
    let since = s.tasks[id]->Dequeue_1;
    let next = op.at(op.next_stage(reply));
    let n = s.n();
    lemma_slots(s.order);
    assert(s.task_ok(s.tasks[id]));
    let here = pending(op.stage)->0;
    let entry = op.stage->Replace_entry;
    let new = op.stage->Replace_new;
    let slot = slot_of(here, s.order + 1);
    lemma_slot_in_ring(here, s.order + 1);
    lemma_marked_word(entry, n);
    assert(s.word(here) == entry);
    assert(t.memory.array == s.memory.array.update(slot, new));
    assert(s.position_ok(here));
    assert forall|p: int| 0 <= p implies #[trigger] t.position_ok(p) by {
        assert(s.position_ok(p));
        lemma_slot_in_ring(p, s.order + 1);
        if slot_of(p, s.order + 1) == slot {
            lemma_same_slot(p, here, s.order + 1, n);
        }
    }
    lemma_not_negative(s, t, here);
    assert(undisturbing(s, t, slot, Some(here)));
    lemma_settle(s, t, id, slot, Task::Dequeue(next, since));
}

/// A dequeue takes the index that its position holds.
proof fn lemma_dequeue_takes(s: System, t: System, id: int, reply: Reply)
    requires
        s.inv(),
        s.dequeue_runs(id, reply, t),
        s.tasks[id]->Dequeue_0.stage is Take,
    ensures
        t.inv(),
        t.memory.head == s.memory.head,
        t.memory.tail == s.memory.tail,
{
    let op = s.tasks[id]->Dequeue_0;
    let since = s.tasks[id]->Dequeue_1;
    let next = op.at(op.next_stage(reply));
    let n = s.n();
    lemma_slots(s.order);
    assert(s.task_ok(s.tasks[id]));
    let here = pending(op.stage)->0;
    let slot = slot_of(here, s.order + 1);
    lemma_slot_in_ring(here, s.order + 1);
    let w = s.word(here);
    lemma_vacated_word(w, n);
    assert(t.memory.array == s.memory.array.update(slot, w | ((n - 1) as u64)));
    assert(s.position_ok(here));
    assert forall|p: int| 0 <= p implies #[trigger] t.position_ok(p) by {
        assert(s.position_ok(p));
        lemma_slot_in_ring(p, s.order + 1);
        if slot_of(p, s.order + 1) == slot {
            lemma_same_slot(p, here, s.order + 1, n);
        }
    }
    lemma_not_negative(s, t, here);
    assert(undisturbing(s, t, slot, Some(here)));
    lemma_settle(s, t, id, slot, Task::Dequeue(next, since));
}

/// Steps of a dequeue that change no slot and leave no position.
proof fn lemma_dequeue_looks(s: System, t: System, id: int, reply: Reply)
    requires
        s.inv(),
        s.dequeue_runs(id, reply, t),
        t.memory.head <= horizon(),
        t.memory.tail <= horizon(),
        !(s.tasks[id]->Dequeue_0.stage is Take),
        !(s.tasks[id]->Dequeue_0.stage is Replace && reply is Swapped),
        !gives_up(s.tasks[id]->Dequeue_0.stage, s.tasks[id]->Dequeue_0.next_stage(reply)),
    ensures
        t.inv(),
        s.memory.head <= t.memory.head,
        s.memory.tail <= t.memory.tail,
{
    let op = s.tasks[id]->Dequeue_0;
    let since = s.tasks[id]->Dequeue_1;
    let next = op.at(op.next_stage(reply));
    lemma_slots(s.order);
    assert(s.task_ok(s.tasks[id]));
    match op.stage {
        DequeueStage::Load { head } => {
            lemma_slot_in_ring(head as int, s.order + 1);
            lemma_dequeue_inspects(s, op, since, head);
        },
        DequeueStage::Replace { head, .. } => {
            lemma_slot_in_ring(head as int, s.order + 1);
            lemma_dequeue_inspects(s, op, since, head);
        },
        DequeueStage::Claim => {
            let here = s.memory.head as int;
            assert(s.position_ok(here));
        },
        _ => {},
    }
    assert(t.memory.array == s.memory.array);
    lemma_nothing_happens(s, t);
    assert(t.dequeue_ok(next, since));
    let own = claim(s.tasks[id]);
    assert(undisturbing(s, t, 0, own));
    lemma_settle(s, t, id, 0, Task::Dequeue(next, since));
}

/// Every step keeps the invariant, counters do not go back, and what has become of a position
/// stays.
pub proof fn lemma_step(s: System, t: System)
    requires
        s.inv(),
        s.steps_to(t),
    ensures
        t.inv(),
        t.order == s.order,
        s.memory.head <= t.memory.head,
        s.memory.tail <= t.memory.tail,
        forall|p: int| #[trigger]
            s.is_written(p) ==> t.is_written(p) && t.written[p] == s.written[p],
        forall|p: int| #[trigger] s.is_taken(p) ==> t.is_taken(p) && t.taken[p] == s.taken[p],
        forall|p: int| #[trigger] s.is_passed(p) ==> t.is_passed(p),
        forall|p: int| #[trigger]
            s.is_written(p) && !s.is_passed(p) ==> !t.is_passed(p),
{
    lemma_slots(s.order);
    if exists|id: int, index: usize, nonempty: bool| s.begins_enqueue(id, index, nonempty, t) {
        let (id, index, nonempty) = choose|id: int, index: usize, nonempty: bool|
            s.begins_enqueue(id, index, nonempty, t);
        lemma_nothing_happens(s, t);
        lemma_settle(s, t, id, 0, t.tasks[id]);
    } else if exists|id: int, nonempty: bool| s.begins_dequeue(id, nonempty, t) {
        let (id, nonempty) = choose|id: int, nonempty: bool| s.begins_dequeue(id, nonempty, t);
        lemma_nothing_happens(s, t);
        lemma_settle(s, t, id, 0, t.tasks[id]);
    } else if exists|id: int, reply: Reply| s.enqueue_runs(id, reply, t) {
        let (id, reply) = choose|id: int, reply: Reply| s.enqueue_runs(id, reply, t);
        if s.tasks[id]->Enqueue_0.stage is Write && reply is Swapped {
            lemma_enqueue_writes(s, t, id, reply);
        } else {
            lemma_enqueue_looks(s, t, id, reply);
        }
    } else if exists|id: int, reply: Reply| s.dequeue_runs(id, reply, t) {
        let (id, reply) = choose|id: int, reply: Reply| s.dequeue_runs(id, reply, t);
        let op = s.tasks[id]->Dequeue_0;
        assert(s.task_ok(s.tasks[id]));
        if op.stage is Take {
            lemma_dequeue_takes(s, t, id, reply);
        } else if op.stage is Replace && reply is Swapped {
            lemma_dequeue_replaces(s, t, id, reply);
        } else if gives_up(op.stage, op.next_stage(reply)) {
            lemma_dequeue_gives_up(s, t, id, reply);
        } else {
            lemma_dequeue_looks(s, t, id, reply);
        }
    } else {
        let id = choose|id: int| s.finishes(id, t);
        lemma_nothing_happens(s, t);
        assert forall|k: int| #[trigger] t.tasks.dom().contains(k) implies t.task_ok(
            t.tasks[k],
        ) by {
            assert(s.tasks.dom().contains(k));
            assert(s.task_ok(s.tasks[k]));
        }
        assert forall|i: int, j: int|
            #![trigger claim(t.tasks[i]), claim(t.tasks[j])]
            i != j && t.tasks.dom().contains(i) && t.tasks.dom().contains(j) && claim(
                t.tasks[i],
            ) is Some implies claim(t.tasks[i]) != claim(t.tasks[j]) by {
            assert(s.tasks.dom().contains(i) && s.tasks.dom().contains(j));
            assert(claim(s.tasks[i]) != claim(s.tasks[j]));
        }
    }
}

impl System {
    /// Whether threads may start from here: nobody uses the ring, it represents the given contents,
    /// and all earlier positions are done with.
    pub open spec fn starts(self, contents: Contents) -> bool {
        &&& represents(self.memory, self.order, contents)
        &&& contents.overrun == 0
        &&& 0 <= contents.head
        &&& contents.tail() <= horizon()
        &&& forall|i: int|
            0 <= i < contents.items.len() ==> (#[trigger] contents.items[i]) < self.n() - 1
        &&& forall|slot: int|
            0 <= slot < contents.marks.len() ==> -self.n() <= #[trigger] contents.marks[slot]
        &&& self.tasks == Map::<int, Task>::empty()
        &&& self.last_claim == Map::<int, int>::empty()
        &&& forall|p: int| #[trigger]
            self.is_announced(p) <==> self.is_written(p) && self.memory.threshold
                == full_threshold(self.order)
        &&& forall|p: int| #[trigger] self.is_written(p) <==> contents.head <= p < contents.tail()
        &&& forall|p: int| #[trigger]
            self.is_written(p) ==> self.written[p] == contents.items[p - contents.head]
        &&& forall|p: int| !#[trigger] self.is_taken(p)
        &&& forall|p: int| #[trigger] self.is_passed(p) <==> 0 <= p < contents.head
    }
}

/// The word in the slot of any position, for a ring that nobody uses: the position within one lap
/// from the head that shares the slot, and the position that the word was written for.
pub(crate) proof fn lemma_start_word(s: System, contents: Contents, p: int) -> (r: (int, int))
    requires
        s.starts(contents),
        0 <= p,
    ensures
        ({
            let (q, mark) = r;
            let n = s.n();
            let w = s.word(p);
            &&& contents.head <= q < contents.head + n
            &&& slot_of(p, s.order + 1) == slot_of(q, s.order + 1)
            &&& 0 <= slot_of(p, s.order + 1) < n
            &&& p < contents.head ==> p <= q - n
            &&& contents.head <= p < contents.head + n ==> p == q
            &&& slot_of(mark, s.order + 1) == slot_of(q, s.order + 1)
            &&& -n <= mark < contents.tail()
            &&& lap(w, n) == (if mark < 0 {
                -1
            } else {
                lap_of(mark, n)
            })
            &&& if q < contents.tail() {
                &&& mark == q
                &&& entry_index(w, n) == contents.items[q - contents.head]
            } else {
                &&& mark <= q - n
                &&& vacant(w, n)
                &&& entry_safe(w, n) ==> mark == q - n
            }
        }),
{
    let n = s.n();
    lemma_slots(s.order);
    let q = lemma_slot_window_position(p, contents.head, s.order + 1);
    lemma_expected(
        s.memory.array,
        s.order,
        contents.items,
        contents.head,
        contents.marks,
        q,
    );
    let mark = mark_at(contents.marks, s.order, q);
    let w = s.word(p);
    assert(contents.marks[slot_of(q, s.order + 1)] == mark);
    lemma_slot_same(mark, q, s.order + 1);
    lemma_entry(w, n);
    if q < contents.tail() {
        lemma_position_word(q, true, contents.items[q - contents.head] as int, n);
    } else {
        if mark > q - n {
            crate::position::lemma_slot_window(mark, q, s.order + 1);
        }
        if mark >= 0 {
            lemma_position_word(mark, entry_safe(w, n), n - 1, n);
        } else {
            lemma_word_before_first(mark, n);
            lemma_word_parts(mark, n - 1, n);
            lemma_marked_word(encode(entry_cycle(w, n), true, n - 1, n) as u64, n);
        }
    }
    (q, mark)
}

/// The invariant holds at the start.
pub proof fn lemma_start(s: System, contents: Contents)
    requires
        s.starts(contents),
    ensures
        s.inv(),
{
    let n = s.n();
    lemma_slots(s.order);
    assert(s.memory.head == contents.head && s.memory.tail == contents.tail()) by {
        lemma_counter_small(contents.head);
        lemma_counter_small(contents.tail());
    }
    assert forall|i: int| 0 <= i < s.memory.array.len() implies in_sight(
        #[trigger] s.memory.array[i],
        n,
    ) by {
        let p = lemma_slot_surjective(i, s.order + 1);
        let (q, mark) = lemma_start_word(s, contents, p);
        lemma_lap_monotonic(0, horizon(), n);
        if mark >= 0 {
            lemma_lap_monotonic(mark, horizon(), n);
            lemma_lap_monotonic(0, mark, n);
        }
        assert(lap_of(0, n) == 0) by {
            reveal(lap_of);
        }
    }
    assert forall|p: int| 0 <= p implies #[trigger] s.position_ok(p) by {
        let (q, mark) = lemma_start_word(s, contents, p);
        lemma_same_slot(p, q, s.order + 1, n);
        lemma_same_slot(p, mark, s.order + 1, n);
        lemma_lap_monotonic(0, p, n);
        assert(lap_of(0, n) == 0) by {
            reveal(lap_of);
        }
    }
}

/// Whether one step leads from a state to the one after it.
pub open spec fn moves_at(states: Seq<System>, i: int) -> bool {
    states[i].steps_to(states[i + 1])
}

/// Whether the states follow each other, from a ring that nobody uses and that represents the given
/// contents.
pub open spec fn execution(states: Seq<System>, contents: Contents) -> bool {
    &&& states.len() > 0
    &&& states[0].starts(contents)
    &&& forall|i: int| 0 <= i < states.len() - 1 ==> #[trigger] moves_at(states, i)
}

/// Every state of an execution satisfies the invariant.
pub proof fn lemma_reachable(states: Seq<System>, contents: Contents, i: int)
    requires
        execution(states, contents),
        0 <= i < states.len(),
    ensures
        states[i].inv(),
    decreases i,
{
    if i == 0 {
        lemma_start(states[0], contents);
    } else {
        lemma_reachable(states, contents, i - 1);
        assert(moves_at(states, i - 1));
        lemma_step(states[i - 1], states[i]);
    }
}

/// Law: what has become of a position in one state has become of it in all later states, and the
/// counters never go back.
pub proof fn law_history_grows(states: Seq<System>, contents: Contents, i: int, j: int)
    requires
        execution(states, contents),
        0 <= i <= j < states.len(),
    ensures
        states[i].memory.head <= states[j].memory.head,
        states[i].memory.tail <= states[j].memory.tail,
        forall|p: int| #[trigger]
            states[i].is_written(p) ==> states[j].is_written(p) && states[j].written[p]
                == states[i].written[p],
        forall|p: int| #[trigger]
            states[i].is_taken(p) ==> states[j].is_taken(p) && states[j].taken[p]
                == states[i].taken[p],
        forall|p: int| #[trigger] states[i].is_passed(p) ==> states[j].is_passed(p),
    decreases j - i,
{
    if i < j {
        law_history_grows(states, contents, i, j - 1);
        lemma_reachable(states, contents, j - 1);
        assert(moves_at(states, j - 1));
        lemma_step(states[j - 1], states[j]);
    }
}

/// Law: whatever the threads do, a dequeue gets only what an enqueue has put in: the index that was
/// taken from a position is the one that was written there.
pub proof fn law_taken_was_written(states: Seq<System>, contents: Contents, i: int, p: int)
    requires
        execution(states, contents),
        0 <= i < states.len(),
        states[i].is_taken(p),
    ensures
        states[i].is_written(p),
        states[i].taken[p] == states[i].written[p],
{
    lemma_reachable(states, contents, i);
    assert(states[i].position_ok(p));
}

/// Law: a dequeue that returns an index takes it from a position that no dequeue has taken from
/// before, so no index is handed out twice.
pub proof fn law_returned_once(
    states: Seq<System>,
    contents: Contents,
    i: int,
    id: int,
    reply: Reply,
    index: usize,
)
    requires
        execution(states, contents),
        0 <= i < states.len() - 1,
        states[i].dequeue_runs(id, reply, states[i + 1]),
        states[i + 1].tasks[id]->Dequeue_0.stage == (DequeueStage::Done { index }),
        index != LFRING_EMPTY,
    ensures
        claim(states[i].tasks[id]) matches Some(p) && {
            &&& !states[i].is_taken(p)
            &&& states[i].is_written(p)
            &&& states[i].written[p] == index
            &&& states[i + 1].is_taken(p)
            &&& states[i + 1].taken[p] == index
        },
{
    let s = states[i];
    lemma_reachable(states, contents, i);
    assert(s.task_ok(s.tasks[id]));
    let op = s.tasks[id]->Dequeue_0;
    assert(op.next_stage(reply) == (DequeueStage::Done { index }));
    assert(op.stage is Take);
    assert(s.position_ok(op.stage->Take_head as int));
}

/// Law: an enqueue writes at a position that nothing was written at before.
pub proof fn law_written_once(
    states: Seq<System>,
    contents: Contents,
    i: int,
    id: int,
    reply: Reply,
)
    requires
        execution(states, contents),
        0 <= i < states.len() - 1,
        states[i].enqueue_runs(id, reply, states[i + 1]),
        states[i].tasks[id]->Enqueue_0.stage is Write,
        reply is Swapped,
    ensures
        !states[i].is_written(states[i].tasks[id]->Enqueue_0.stage->Write_tail as int),
        states[i + 1].is_written(states[i].tasks[id]->Enqueue_0.stage->Write_tail as int),
        states[i + 1].written[states[i].tasks[id]->Enqueue_0.stage->Write_tail as int]
            == states[i].tasks[id]->Enqueue_0.index,
{
    lemma_reachable(states, contents, i);
    lemma_slots(states[i].order);
    assert(states[i].task_ok(states[i].tasks[id]));
    lemma_enqueue_writes(states[i], states[i + 1], id, reply);
}

/// Law: nothing is lost. An index that has been written and not been taken is still in its slot.
pub proof fn law_nothing_is_lost(states: Seq<System>, contents: Contents, i: int, p: int)
    requires
        execution(states, contents),
        0 <= i < states.len(),
        states[i].is_written(p),
        !states[i].is_taken(p),
    ensures
        lap(states[i].word(p), states[i].n()) == lap_of(p, states[i].n()),
        entry_index(states[i].word(p), states[i].n()) == states[i].written[p],
{
    lemma_reachable(states, contents, i);
    assert(states[i].position_ok(p));
}

/// Law: no dequeue gives up a position that holds an index. If the position had not been given up
/// when the index was there, it never is.
pub proof fn law_no_index_is_given_up(
    states: Seq<System>,
    contents: Contents,
    i: int,
    j: int,
    p: int,
)
    requires
        execution(states, contents),
        0 <= i <= j < states.len(),
        states[i].is_written(p),
        !states[i].is_passed(p),
    ensures
        !states[j].is_passed(p),
    decreases j - i,
{
    if i < j {
        law_no_index_is_given_up(states, contents, i, j - 1, p);
        law_history_grows(states, contents, i, j - 1);
        lemma_reachable(states, contents, j - 1);
        assert(moves_at(states, j - 1));
        lemma_step(states[j - 1], states[j]);
        assert(states[j - 1].is_written(p));
    }
}

/// Law: first in. An enqueue that begins after a position was written gets a later position.
pub proof fn law_later_enqueue_gets_later_position(
    states: Seq<System>,
    contents: Contents,
    i: int,
    begin: int,
    j: int,
    id: int,
    q: int,
)
    requires
        execution(states, contents),
        0 <= i <= begin <= j < states.len(),
        states[i].is_written(q),
        states[j].tasks.dom().contains(id),
        states[j].tasks[id] matches Task::Enqueue(op, since) && op.stage is Write && since
            == states[begin].memory.tail,
    ensures
        q < states[j].tasks[id]->Enqueue_0.stage->Write_tail,
{
    lemma_reachable(states, contents, i);
    lemma_reachable(states, contents, j);
    law_history_grows(states, contents, i, begin);
    assert(states[i].position_ok(q));
    assert(states[j].task_ok(states[j].tasks[id]));
}

/// Law: first out. A dequeue that begins after a position was taken gets its index from a later
/// position.
pub proof fn law_later_dequeue_takes_later_position(
    states: Seq<System>,
    contents: Contents,
    i: int,
    begin: int,
    j: int,
    id: int,
    q: int,
)
    requires
        execution(states, contents),
        0 <= i <= begin <= j < states.len(),
        states[i].is_taken(q),
        states[j].tasks.dom().contains(id),
        states[j].tasks[id] matches Task::Dequeue(op, since) && op.stage is Take && since
            == states[begin].memory.head,
    ensures
        q < states[j].tasks[id]->Dequeue_0.stage->Take_head,
{
    lemma_reachable(states, contents, i);
    lemma_reachable(states, contents, j);
    law_history_grows(states, contents, i, begin);
    assert(states[i].position_ok(q));
    assert(states[j].task_ok(states[j].tasks[id]));
}

/// Law: a dequeue that finds the tail counter behind its position has nothing left to find. Every
/// index in the ring has been claimed by a dequeue.
pub proof fn law_drained(
    states: Seq<System>,
    contents: Contents,
    i: int,
    id: int,
    reply: Reply,
    p: int,
)
    requires
        execution(states, contents),
        0 <= i < states.len() - 1,
        states[i].dequeue_runs(id, reply, states[i + 1]),
        states[i].tasks[id]->Dequeue_0.stage is ReadTail,
        states[i + 1].tasks[id]->Dequeue_0.stage is CatchUp,
        states[i].is_written(p),
    ensures
        p < states[i].memory.head,
{
    let s = states[i];
    lemma_reachable(states, contents, i);
    assert(s.task_ok(s.tasks[id]));
    assert(s.position_ok(p));
}

/// Law: an enqueue is refused only when the ring is full: when all its slots lie between the
/// positions that have been claimed by dequeues and those that have been claimed by enqueues.
pub proof fn law_refused_only_when_full(
    states: Seq<System>,
    contents: Contents,
    i: int,
    id: int,
    reply: Reply,
)
    requires
        execution(states, contents),
        0 <= i < states.len() - 1,
        states[i].enqueue_runs(id, reply, states[i + 1]),
        states[i + 1].tasks[id]->Enqueue_0.stage == (EnqueueStage::Done { enqueued: false }),
    ensures
        states[i].memory.head + states[i].n() <= states[i].memory.tail,
{
    let s = states[i];
    lemma_reachable(states, contents, i);
    lemma_slots(s.order);
    assert(s.task_ok(s.tasks[id]));
    let op = s.tasks[id]->Enqueue_0;
    assert(op.next_stage(reply) == (EnqueueStage::Done { enqueued: false }));
    assert(op.stage is ReadHead);
}

} // verus!
