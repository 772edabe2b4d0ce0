//! Operations that nobody gets in the way of come to an end.
//!
//! Whatever state the words of a ring are in, an operation that runs on alone from there needs a
//! bounded number of accesses, and what it comes to can be told from the words.
use vstd::prelude::*;
use crate::access::{law_written_words, lemma_slots, slots, written_word, Access, Memory, Reply};
use crate::decisions::{
    behind, law_dequeue_judges_its_slot, law_enqueue_chooses_its_slot,
    law_refused_replacement_looks_again, word_tag,
};
use crate::dequeue::{CatchupStage, DequeueOp, DequeueStage};
use crate::enqueue::{EnqueueOp, EnqueueStage};
use crate::position::{lemma_slot_in_ring, slot_of};

verus! {

/// The words and the dequeue after so many accesses that take effect, or fewer if it is done
/// before.
pub open spec fn dequeue_alone(memory: Memory, op: DequeueOp, accesses: nat) -> (Memory, DequeueOp)
    decreases accesses,
{
    if accesses == 0 || op.wants() is None {
        (memory, op)
    } else {
        let access = op.wants()->0;
        let next = op.at(op.next_stage(memory.reply(access)));
        dequeue_alone(memory.after(access), next, (accesses - 1) as nat)
    }
}

/// The words and the enqueue after so many accesses that take effect, or fewer if it is done
/// before.
pub open spec fn enqueue_alone(memory: Memory, op: EnqueueOp, accesses: nat) -> (Memory, EnqueueOp)
    decreases accesses,
{
    if accesses == 0 || op.wants() is None {
        (memory, op)
    } else {
        let access = op.wants()->0;
        let next = op.at(op.next_stage(memory.reply(access)));
        enqueue_alone(memory.after(access), next, (accesses - 1) as nat)
    }
}

/// How many positions a dequeue can still visit before the threshold is used up.
pub open spec fn visits_left(memory: Memory) -> int {
    if memory.threshold < 0 {
        0
    } else {
        memory.threshold as int
    }
}

/// A bound on the accesses that a dequeue still needs at its position if it runs alone.
spec fn dequeue_rank(memory: Memory, op: DequeueOp) -> int {
    match op.stage {
        DequeueStage::ReadThreshold => 8,
        DequeueStage::Claim => 7,
        DequeueStage::Load { .. } => 6,
        DequeueStage::Replace { head, entry, .. } => if memory.array[slot_of(
            head as int,
            op.order + 1,
        )] == entry {
            5
        } else {
            6
        },
        DequeueStage::ReadTail { .. } => 4,
        DequeueStage::CatchUp { op: catchup } => if catchup.stage == (CatchupStage::Swap {
            tail: memory.tail,
        }) {
            2
        } else {
            3
        },
        DequeueStage::Take { .. } => 1,
        DequeueStage::Spend { .. } => 1,
        DequeueStage::Done { .. } => 0,
    }
}

/// A bound on the accesses that a dequeue still needs if it runs alone.
spec fn dequeue_bound(memory: Memory, op: DequeueOp) -> int {
    if op.stage is Done {
        0
    } else {
        9 * visits_left(memory) + dequeue_rank(memory, op)
    }
}

/// Whether the dequeue is at a stage that it can be at.
pub open spec fn dequeue_under_way(op: DequeueOp) -> bool {
    op.stage matches DequeueStage::CatchUp { op: catchup } ==> catchup.stage is Swap
}

proof fn lemma_dequeue_alone(memory: Memory, op: DequeueOp) -> (accesses: nat)
    requires
        op.wf(),
        memory.array.len() == slots(op.order),
        dequeue_under_way(op),
    ensures
        accesses <= dequeue_bound(memory, op),
        dequeue_alone(memory, op, accesses).1.stage is Done,
    decreases dequeue_bound(memory, op),
{
    lemma_slots(op.order);
    if op.stage is Done {
        0
    } else {
        let access = op.wants()->0;
        let after = memory.after(access);
        let next = op.at(op.next_stage(memory.reply(access)));
        match op.stage {
            DequeueStage::Load { head } => {
                lemma_slot_in_ring(head as int, op.order + 1);
            },
            DequeueStage::Take { head, .. } => {
                lemma_slot_in_ring(head as int, op.order + 1);
            },
            DequeueStage::Replace { head, .. } => {
                lemma_slot_in_ring(head as int, op.order + 1);
            },
            _ => {},
        }
        let rest = lemma_dequeue_alone(after, next);
        rest + 1
    }
}

/// Law: a dequeue that runs on alone comes to its end. It needs at most nine accesses for each
/// visit that the threshold allows, and eight more.
pub proof fn law_dequeue_alone_ends(memory: Memory, op: DequeueOp)
    requires
        op.wf(),
        memory.array.len() == slots(op.order),
        dequeue_under_way(op),
    ensures
        exists|accesses: nat|
            accesses <= 9 * visits_left(memory) + 8 && (#[trigger] dequeue_alone(
                memory,
                op,
                accesses,
            )).1.stage is Done,
{
    let accesses = lemma_dequeue_alone(memory, op);
    assert(dequeue_alone(memory, op, accesses).1.stage is Done);
}

/// Law: a dequeue that runs on alone returns the index at the position that it has claimed, if
/// there is one, within two accesses. This holds whether it is about to read its slot or to replace
/// a word that it has read there before the index came. It leaves the slot without the index.
pub proof fn law_dequeue_alone_returns_its_index(memory: Memory, op: DequeueOp, head: u64)
    requires
        op.wf(),
        memory.array.len() == slots(op.order),
        ({
            let w = memory.array[slot_of(head as int, op.order + 1)];
            &&& word_tag(w, slots(op.order)) == word_tag(head << 1, slots(op.order))
            &&& op.stage == (DequeueStage::Load { head }) || op.stage is Replace
                && op.stage->Replace_head == head && op.stage->Replace_entry != w
        }),
    ensures
        ({
            let n = slots(op.order);
            let slot = slot_of(head as int, op.order + 1);
            let w = memory.array[slot];
            let (after, end) = dequeue_alone(memory, op, 2);
            &&& end.stage == (DequeueStage::Done { index: (w & ((n - 1) as u64)) as usize })
            &&& after == (Memory {
                array: memory.array.update(slot, w | ((n - 1) as u64)),
                ..memory
            })
        }),
{
    let n = slots(op.order);
    lemma_slots(op.order);
    lemma_slot_in_ring(head as int, op.order + 1);
    let w = memory.array[slot_of(head as int, op.order + 1)];
    let taking = op.at(DequeueStage::Take { head, entry: w });
    law_dequeue_judges_its_slot(op, head, w);
    if op.stage is Replace {
        law_refused_replacement_looks_again(
            op,
            head,
            op.stage->Replace_entry,
            op.stage->Replace_new,
            w,
        );
    }
    let access = op.wants()->0;
    assert(op.at(op.next_stage(memory.reply(access))) == taking);
    assert(memory.after(access) == memory);
    assert(dequeue_alone(memory, op, 2) == dequeue_alone(memory, taking, 1));
    let last = taking.wants()->0;
    assert(dequeue_alone(memory, taking, 1) == dequeue_alone(
        memory.after(last),
        taking.at(taking.next_stage(memory.reply(last))),
        0,
    ));
    law_dequeue_judges_its_slot(taking, head, w);
}

/// How many positions lie between the tail counter and a whole ring ahead of the head counter; none
/// if the tail is there or beyond.
pub open spec fn room(memory: Memory, order: usize) -> int {
    let distance = (memory.head + slots(order) - memory.tail) % 0x1_0000_0000_0000_0000;
    if distance < 0x8000_0000_0000_0000 {
        distance
    } else {
        0
    }
}

/// Whether the enqueue knows the words as they are.
spec fn enqueue_up_to_date(memory: Memory, op: EnqueueOp) -> bool {
    match op.stage {
        EnqueueStage::ReadHead { tail } => tail == memory.tail,
        EnqueueStage::Claim => room(memory, op.order) > 0,
        EnqueueStage::CheckHead { tail, entry } => entry == memory.array[slot_of(
            tail as int,
            op.order + 1,
        )],
        EnqueueStage::Write { tail, entry } => entry == memory.array[slot_of(
            tail as int,
            op.order + 1,
        )],
        _ => true,
    }
}

/// A bound on the accesses that an enqueue still needs if it runs alone.
spec fn enqueue_bound(memory: Memory, op: EnqueueOp) -> int {
    10 * room(memory, op.order) + match op.stage {
        EnqueueStage::Load { .. } => 13int,
        EnqueueStage::CheckHead { .. } => 12,
        EnqueueStage::Write { .. } => 11,
        EnqueueStage::ReadThreshold => 10,
        EnqueueStage::ResetThreshold => 9,
        EnqueueStage::ReadTail => 8,
        EnqueueStage::ReadHead { .. } => 7,
        EnqueueStage::Claim => 6,
        EnqueueStage::Done { .. } => 0,
    }
}

/// Whether the enqueue has written its index at some position and nothing else, or, if it was
/// refused, nothing at all.
pub open spec fn enqueue_comes_to(
    before: Memory,
    after: Memory,
    order: usize,
    index: u64,
    enqueued: bool,
) -> bool {
    if enqueued {
        exists|t: u64| after.array == before.array.update(
            slot_of(t as int, order + 1),
            #[trigger] written_word(t, index, order),
        )
    } else {
        after.array == before.array && room(after, order) == 0
    }
}

/// Claiming a position takes one away from those that are left.
proof fn lemma_room(memory: Memory, order: usize)
    requires
        room(memory, order) > 0,
    ensures
        room(memory.after(Access::AddTail), order) == room(memory, order) - 1,
{
}

/// The comparison of the counters tells whether a position is left.
proof fn lemma_no_room(memory: Memory, op: EnqueueOp)
    requires
        op.wf(),
        op.stage == (EnqueueStage::ReadHead { tail: memory.tail }),
    ensures
        op.next_stage(Reply::Word(memory.head)) == (if room(memory, op.order) == 0 {
            EnqueueStage::Done { enqueued: false }
        } else {
            EnqueueStage::Claim
        }),
{
    lemma_slots(op.order);
}

/// One access of an enqueue that runs alone.
proof fn lemma_enqueue_alone_step(memory: Memory, op: EnqueueOp)
    requires
        op.wf(),
        memory.array.len() == slots(op.order),
        enqueue_up_to_date(memory, op),
        !(op.stage is Done),
    ensures
        ({
            let access = op.wants()->0;
            let after = memory.after(access);
            let next = op.at(op.next_stage(memory.reply(access)));
            &&& op.wants() is Some
            &&& enqueue_up_to_date(after, next)
            &&& 0 <= enqueue_bound(after, next) < enqueue_bound(memory, op)
            &&& after.head == memory.head
            &&& after.array.len() == memory.array.len()
            &&& next.order == op.order && next.index == op.index
            &&& if op.stage is Write {
                &&& after.array == memory.array.update(
                    slot_of(op.stage->Write_tail as int, op.order + 1),
                    written_word(op.stage->Write_tail, op.index, op.order),
                )
                &&& next.stage is ReadThreshold || next.stage == (EnqueueStage::Done {
                    enqueued: true,
                })
            } else {
                &&& after.array == memory.array
                &&& op.stage is ReadThreshold || op.stage is ResetThreshold
                    ==> next.stage is ResetThreshold || next.stage == (EnqueueStage::Done {
                    enqueued: true,
                })
                &&& !(op.stage is ReadThreshold || op.stage is ResetThreshold)
                    ==> !(next.stage is ReadThreshold || next.stage is ResetThreshold) && (
                next.stage is Done ==> next.stage == (EnqueueStage::Done { enqueued: false })
                    && room(after, op.order) == 0)
            }
        }),
{
    lemma_slots(op.order);
    match op.stage {
        EnqueueStage::ReadHead { tail } => {
            lemma_no_room(memory, op);
        },
        EnqueueStage::Claim => {
            lemma_room(memory, op.order);
        },
        EnqueueStage::Load { tail } => {
            lemma_slot_in_ring(tail as int, op.order + 1);
        },
        EnqueueStage::Write { tail, entry } => {
            lemma_slot_in_ring(tail as int, op.order + 1);
            assert(memory.reply(op.wants()->0) is Swapped);
        },
        _ => {},
    }
}

proof fn lemma_enqueue_alone(memory: Memory, op: EnqueueOp) -> (accesses: nat)
    requires
        op.wf(),
        memory.array.len() == slots(op.order),
        enqueue_up_to_date(memory, op),
        !(op.stage is Done),
    ensures
        accesses <= enqueue_bound(memory, op),
        ({
            let (after, end) = enqueue_alone(memory, op, accesses);
            &&& end.stage matches EnqueueStage::Done { enqueued } && {
                &&& after.head == memory.head
                &&& if op.stage is ReadThreshold || op.stage is ResetThreshold {
                    enqueued && after.array == memory.array
                } else {
                    enqueue_comes_to(memory, after, op.order, op.index, enqueued)
                }
            }
        }),
    decreases enqueue_bound(memory, op),
{
    lemma_enqueue_alone_step(memory, op);
    let access = op.wants()->0;
    let after = memory.after(access);
    let next = op.at(op.next_stage(memory.reply(access)));
    if op.stage is Write {
        let t = op.stage->Write_tail;
        assert(after.array == memory.array.update(
            slot_of(t as int, op.order + 1),
            written_word(t, op.index, op.order),
        ));
    }
    if next.stage is Done {
        assert(enqueue_alone(memory, op, 1) == enqueue_alone(after, next, 0));
        1
    } else {
        let rest = lemma_enqueue_alone(after, next);
        assert(enqueue_alone(memory, op, rest + 1) == enqueue_alone(after, next, rest));
        rest + 1
    }
}

/// Law: an enqueue that runs alone comes to its end. It needs at most ten accesses for each
/// position up to a whole ring ahead of the head, and eight more. If it succeeds, it has written
/// one word, which holds its index; if it is refused, it has written none, and no position is left.
pub proof fn law_enqueue_alone_ends(memory: Memory, op: EnqueueOp)
    requires
        op.wf(),
        memory.array.len() == slots(op.order),
        op.stage is ReadTail,
    ensures
        exists|accesses: nat|
            ({
                let (after, end) = #[trigger] enqueue_alone(memory, op, accesses);
                &&& accesses <= 10 * room(memory, op.order) + 8
                &&& end.stage matches EnqueueStage::Done { enqueued } && {
                    &&& after.head == memory.head
                    &&& enqueued ==> exists|slot: int, w: u64|
                        0 <= slot < slots(op.order) && w & ((slots(op.order) - 1) as u64)
                            == op.index && after.array == #[trigger] memory.array.update(slot, w)
                    &&& !enqueued ==> after.array == memory.array && room(after, op.order) == 0
                }
            }),
{
    lemma_slots(op.order);
    let accesses = lemma_enqueue_alone(memory, op);
    let (after, end) = enqueue_alone(memory, op, accesses);
    if end.stage->enqueued {
        let t = choose|t: u64| after.array == memory.array.update(
            slot_of(t as int, op.order + 1),
            #[trigger] written_word(t, op.index, op.order),
        );
        law_written_words(t, op.index, op.order);
        lemma_slot_in_ring(t as int, op.order + 1);
        let slot = slot_of(t as int, op.order + 1);
        let w = written_word(t, op.index, op.order);
        assert(after.array == memory.array.update(slot, w));
    }
}

/// Law: an enqueue that runs alone on a ring that is not full, and whose next slot is free, writes
/// its index there. The slot is free if its tag is behind that of the tail counter and it holds no
/// index, and if it is safe or the head has not gone past.
pub proof fn law_enqueue_alone_takes_the_next_slot(memory: Memory, op: EnqueueOp, ahead: u64)
    requires
        op.wf(),
        memory.array.len() == slots(op.order),
        op.stage is ReadTail,
        memory.tail == (memory.head + ahead) % 0x1_0000_0000_0000_0000,
        ahead < slots(op.order) || ahead > slots(op.order) + 0x8000_0000_0000_0000,
        ({
            let n = slots(op.order);
            let w = memory.array[slot_of(memory.tail as int, op.order + 1)];
            &&& behind(word_tag(w, n), word_tag(memory.tail << 1, n))
            &&& w == word_tag(w, n) || w == word_tag(w, n) ^ n && (memory.head == memory.tail
                || behind(memory.head, memory.tail))
        }),
    ensures
        ({
            let n = slots(op.order);
            let (after, end) = enqueue_alone(memory, op, 8);
            let slot = slot_of(memory.tail as int, op.order + 1);
            &&& end.stage == (EnqueueStage::Done { enqueued: true })
            &&& after.array == memory.array.update(slot, after.array[slot])
            &&& after.array[slot] & ((n - 1) as u64) == op.index
            &&& word_tag(after.array[slot], n) == word_tag(memory.tail << 1, n)
            &&& after.tail == (memory.tail + 1) % 0x1_0000_0000_0000_0000
            &&& after.head == memory.head
        }),
{
    let n = slots(op.order);
    lemma_slots(op.order);
    let t = memory.tail;
    let slot = slot_of(t as int, op.order + 1);
    let w = memory.array[slot];
    lemma_slot_in_ring(t as int, op.order + 1);
    law_written_words(t, op.index, op.order);
    law_enqueue_chooses_its_slot(op, t, w, memory.head);
    let at = |stage: EnqueueStage| EnqueueOp { stage, ..op };
    let claimed = memory.after(Access::AddTail);
    let write = at(EnqueueStage::Write { tail: t, entry: w });
    let written = claimed.after(write.wants()->0);
    assert(written.array =~= memory.array.update(slot, written_word(t, op.index, op.order)));
    assert(claimed.reply(write.wants()->0) is Swapped);
    let head_read = at(EnqueueStage::ReadHead { tail: t });
    assert(enqueue_alone(memory, op, 8) == enqueue_alone(memory, head_read, 7));
    let claim = at(EnqueueStage::Claim);
    assert(enqueue_alone(memory, head_read, 7) == enqueue_alone(memory, claim, 6));
    let load = at(EnqueueStage::Load { tail: t });
    assert(enqueue_alone(memory, claim, 6) == enqueue_alone(claimed, load, 5));
    let left: nat = if w == word_tag(w, n) {
        4
    } else {
        3
    };
    let check = at(EnqueueStage::CheckHead { tail: t, entry: w });
    if w == word_tag(w, n) {
        assert(enqueue_alone(claimed, load, 5) == enqueue_alone(claimed, write, 4));
    } else {
        assert(enqueue_alone(claimed, load, 5) == enqueue_alone(claimed, check, 4));
        assert(enqueue_alone(claimed, check, 4) == enqueue_alone(claimed, write, 3));
    }
    let next = at(write.next_stage(Reply::Swapped));
    assert(enqueue_alone(claimed, write, left) == enqueue_alone(written, next, (left - 1) as nat));
    reveal_with_fuel(enqueue_alone, 4);
}

} // verus!
