//! Operations on a ring whose owner has it to itself: where they stand after each access, and that
//! they come to an end.
use vstd::prelude::*;
use crate::access::{answers, following, full_threshold, lemma_slots, slots, written_word, Memory};
use crate::contents::{
    disarmed, lemma_expected, lemma_head_passed, lemma_written, mark_at, memory_span,
    represents, word_at, Contents,
};
use crate::dequeue::{CatchupOp, CatchupStage, DequeueOp, DequeueStage, LFRING_EMPTY};
use crate::enqueue::{EnqueueOp, EnqueueStage};
use crate::entry::{
    entry_index, entry_safe, lemma_disarmed_word, lemma_emptied_word, lemma_entry, lemma_lag,
    lemma_position_cycle, lemma_word_parts, vacant,
};
use crate::position::{
    counter, lemma_counter_moves, lemma_counters, lemma_slot_in_ring, lemma_slot_window_position,
    moved, precedes, slot_of,
};

verus! {

/// The contents after an index has been put in.
pub open spec fn with_index(contents: Contents, order: usize, index: usize) -> Contents {
    Contents {
        items: contents.items.push(index),
        marks: contents.marks.update(slot_of(contents.tail(), order + 1), contents.tail()),
        ..contents
    }
}

/// Where an enqueue of a ring's owner stands: the contents before it wrote its index are `contents`
/// but for the positions that it skipped, which shortened the overrun, and `start` are the words at
/// its start.
pub open spec fn enqueueing(
    memory: Memory,
    op: EnqueueOp,
    contents: Contents,
    start: Memory,
) -> bool {
    let n = slots(op.order);
    let t = contents.tail();
    let room = contents.items.len() < n;
    let untouched = memory.array == start.array && memory.threshold == start.threshold;
    let claimed = |tail: u64| {
        &&& represents(Memory { tail: counter(t), ..memory }, op.order, contents)
        &&& untouched
        &&& room
        &&& tail == counter(t)
        &&& memory.tail == following(tail)
    };
    let written = {
        &&& represents(memory, op.order, with_index(contents, op.order, op.index as usize))
        &&& memory.array == start.array.update(
            slot_of(t, op.order + 1),
            written_word(counter(t), op.index, op.order),
        )
        &&& room
        &&& contents.overrun == 0
    };
    &&& op.wf()
    &&& contents.recent(memory_span())
    &&& start.threshold <= full_threshold(op.order)
    &&& match op.stage {
        EnqueueStage::ReadTail => represents(memory, op.order, contents) && untouched,
        EnqueueStage::ReadHead { tail } => represents(memory, op.order, contents) && untouched
            && tail == memory.tail,
        EnqueueStage::Claim => represents(memory, op.order, contents) && untouched && room,
        EnqueueStage::Load { tail } => claimed(tail),
        EnqueueStage::CheckHead { tail, entry } => claimed(tail) && entry == word_at(
            memory.array,
            op.order,
            t,
        ),
        EnqueueStage::Write { tail, entry } => claimed(tail) && entry == word_at(
            memory.array,
            op.order,
            t,
        ) && contents.overrun == 0,
        EnqueueStage::ReadThreshold => written && memory.threshold == start.threshold
            && !op.nonempty,
        EnqueueStage::ResetThreshold => written && memory.threshold == start.threshold
            && !op.nonempty,
        EnqueueStage::Done { enqueued } => if enqueued {
            written && memory.threshold == (if op.nonempty {
                start.threshold as int
            } else {
                full_threshold(op.order)
            })
        } else {
            represents(memory, op.order, contents) && untouched && !room
        },
    }
}

pub open spec fn enqueue_rank(stage: EnqueueStage) -> int {
    match stage {
        EnqueueStage::ReadTail => 8,
        EnqueueStage::ReadHead { .. } => 7,
        EnqueueStage::Claim => 6,
        EnqueueStage::Load { .. } => 5,
        EnqueueStage::CheckHead { .. } => 4,
        EnqueueStage::Write { .. } => 3,
        EnqueueStage::ReadThreshold => 2,
        EnqueueStage::ResetThreshold => 1,
        EnqueueStage::Done { .. } => 0,
    }
}

/// The contents after a step of an enqueue that has not written its index: a position that the
/// head has passed already is given up.
pub open spec fn skipped(op: EnqueueOp, next: EnqueueOp, contents: Contents) -> Contents {
    if op.stage is CheckHead && next.stage is ReadTail {
        Contents { overrun: contents.overrun - 1, ..contents }
    } else {
        contents
    }
}

/// What an enqueue finds at the position that it has claimed: a slot that is behind and holds
/// nothing, and that is not safe if the head has passed the position.
proof fn lemma_claimed_slot(memory: Memory, op: EnqueueOp, contents: Contents)
    requires
        op.wf(),
        represents(memory, op.order, contents),
        contents.recent(memory_span()),
        contents.items.len() < slots(op.order),
    ensures
        ({
            let entry = word_at(memory.array, op.order, contents.tail());
            op.inspected(memory.tail, entry) == (if entry_safe(entry, slots(op.order)) {
                EnqueueStage::Write { tail: memory.tail, entry }
            } else {
                EnqueueStage::CheckHead { tail: memory.tail, entry }
            })
        }),
        contents.overrun > 0 ==> !entry_safe(
            word_at(memory.array, op.order, contents.tail()),
            slots(op.order),
        ),
{
    let n = slots(op.order);
    lemma_slots(op.order);
    let t = contents.tail();
    let p = lemma_slot_window_position(t, contents.head, op.order + 1);
    lemma_expected(
        memory.array,
        op.order,
        contents.items,
        contents.head,
        contents.marks,
        p,
    );
    let mark = mark_at(contents.marks, op.order, p);
    assert(contents.marks[slot_of(p, op.order + 1)] < t);
    assert(contents.head - contents.marks[slot_of(p, op.order + 1)] <= memory_span());
    lemma_lag(mark, t, n);
    lemma_position_cycle(t, n);
}

/// The comparison of the counters tells whether every slot is taken.
proof fn lemma_full(memory: Memory, order: usize, contents: Contents)
    requires
        represents(memory, order, contents),
    ensures
        ({
            let bound = moved(memory.head, slots(order));
            (bound == memory.tail || precedes(bound, memory.tail)) == (contents.items.len()
                == slots(order))
        }),
{
    lemma_slots(order);
    let n = slots(order);
    lemma_counters(contents.head + n, contents.tail());
    lemma_counter_moves(contents.head, n);
}

pub open spec fn enqueue_step_ok(
    memory: Memory,
    op: EnqueueOp,
    contents: Contents,
    start: Memory,
) -> bool {
    let access = op.wants()->0;
    let next = op.at(op.next_stage(memory.reply(access)));
    let left = skipped(op, next, contents);
    &&& answers(access, memory.reply(access))
    &&& enqueueing(memory.after(access), next, left, start)
    &&& 0 <= left.overrun <= contents.overrun
    &&& left.overrun < contents.overrun || (left == contents && enqueue_rank(next.stage)
        < enqueue_rank(op.stage))
}

proof fn lemma_enqueue_load(memory: Memory, op: EnqueueOp, contents: Contents, start: Memory)
    requires
        enqueueing(memory, op, contents, start),
        op.stage is Load,
    ensures
        enqueue_step_ok(memory, op, contents, start),
{
    lemma_slots(op.order);
    let t = contents.tail();
    let claimed = Memory { tail: op.stage->Load_tail, ..memory };
    lemma_slot_in_ring(t, op.order + 1);
    lemma_claimed_slot(claimed, op, contents);
    assert(word_at(memory.array, op.order, t) == word_at(claimed.array, op.order, t));
}

proof fn lemma_enqueue_check(memory: Memory, op: EnqueueOp, contents: Contents, start: Memory)
    requires
        enqueueing(memory, op, contents, start),
        op.stage is CheckHead,
    ensures
        enqueue_step_ok(memory, op, contents, start),
{
    lemma_slots(op.order);
    let t = contents.tail();
    lemma_counters(contents.head, t);
    lemma_counter_moves(t, 1);
}

proof fn lemma_enqueue_write(memory: Memory, op: EnqueueOp, contents: Contents, start: Memory)
    requires
        enqueueing(memory, op, contents, start),
        op.stage is Write,
    ensures
        enqueue_step_ok(memory, op, contents, start),
{
    lemma_slots(op.order);
    let t = contents.tail();
    lemma_slot_in_ring(t, op.order + 1);
    lemma_written(memory.array, op.order, contents, op.index, op.stage->Write_tail);
    lemma_counter_moves(t, 1);
    let access = op.wants()->0;
    assert(memory.reply(access) is Swapped);
    let longer = with_index(contents, op.order, op.index as usize);
    assert(represents(memory.after(access), op.order, longer));
}

pub proof fn lemma_enqueue_step(memory: Memory, op: EnqueueOp, contents: Contents, start: Memory)
    requires
        enqueueing(memory, op, contents, start),
        op.wants() is Some,
    ensures
        enqueue_step_ok(memory, op, contents, start),
{
    lemma_slots(op.order);
    match op.stage {
        EnqueueStage::Load { tail } => {
            lemma_enqueue_load(memory, op, contents, start);
        },
        EnqueueStage::CheckHead { tail, entry } => {
            lemma_enqueue_check(memory, op, contents, start);
        },
        EnqueueStage::Write { tail, entry } => {
            lemma_enqueue_write(memory, op, contents, start);
        },
        EnqueueStage::ReadHead { tail } => {
            lemma_full(memory, op.order, contents);
        },
        _ => {},
    }
}

/// Where a dequeue of a ring's owner stands: it started with the contents `first` and the words
/// `start`, and the ring has the contents `now`.
pub open spec fn dequeueing(
    memory: Memory,
    op: DequeueOp,
    first: Contents,
    start: Memory,
    now: Contents,
) -> bool {
    let n = slots(op.order);
    let threshold = start.threshold;
    let visited = now.head - first.head;
    let claimed = Memory { head: counter(now.head), ..memory };
    let spent = if threshold < 0 { 0 } else { threshold as int } + 1;
    let undisturbed = now == first && memory.threshold == threshold && memory.array == start.array;
    // Nothing has been found at the positions visited so far, and their slots are not safe.
    let fruitless = {
        &&& now == (Contents {
            head: first.head + visited,
            overrun: first.overrun + visited,
            ..first
        })
        &&& 0 <= visited <= spent
        &&& visited > 0 ==> first.items.len() == 0
        &&& memory.array == disarmed(start.array, op.order, first.head, visited)
    };
    // Each visited position has cost one of the threshold.
    let searching = {
        &&& fruitless
        &&& visited < spent
        &&& memory.threshold == threshold - visited
        &&& visited > 0 ==> op.nonempty && memory.threshold >= 0
    };
    // The position that was visited last has yet to cost one.
    let passed = {
        &&& fruitless
        &&& 1 <= visited
        &&& memory.threshold == threshold - (visited - 1)
        &&& visited > 1 ==> op.nonempty && memory.threshold >= 0
    };
    &&& op.wf()
    &&& first.recent(memory_span())
    &&& threshold <= full_threshold(op.order)
    &&& first.items.len() == 0 ==> first.overrun + spent <= 0x4000_0000_0000_0000
    &&& op.nonempty && first.items.len() == 0 ==> threshold > i64::MIN
    &&& !op.nonempty ==> threshold >= 0 || op.stage is ReadThreshold || op.stage is Done
    &&& match op.stage {
        DequeueStage::ReadThreshold => represents(memory, op.order, now) && undisturbed
            && !op.nonempty,
        DequeueStage::Claim => represents(memory, op.order, now) && searching,
        DequeueStage::Load { head } => represents(claimed, op.order, now) && searching && head
            == claimed.head && memory.head == following(head),
        DequeueStage::Take { head, entry } => represents(claimed, op.order, now) && undisturbed
            && head == claimed.head && memory.head == following(head) && first.items.len() > 0
            && entry == word_at(memory.array, op.order, now.head),
        DequeueStage::Replace { head, entry, new } => represents(claimed, op.order, now)
            && searching && head == claimed.head && memory.head == following(head)
            && now.items.len() == 0 && entry == word_at(memory.array, op.order, now.head) && new
            == entry & !n,
        DequeueStage::ReadTail { head } => represents(memory, op.order, now) && passed
            && !op.nonempty && memory.head == following(head),
        DequeueStage::CatchUp { op: catchup } => represents(memory, op.order, now) && passed
            && !op.nonempty && catchup == (CatchupOp {
            head: memory.head,
            stage: CatchupStage::Swap { tail: memory.tail },
        }),
        DequeueStage::Spend { drained } => if drained {
            &&& represents(memory, op.order, now)
            &&& first.items.len() == 0
            &&& !op.nonempty
            &&& now == (Contents { head: first.head + 1, overrun: 0, ..first })
            &&& memory.threshold == threshold
            &&& memory.array == disarmed(start.array, op.order, first.head, 1)
        } else {
            represents(memory, op.order, now) && passed && op.nonempty
        },
        DequeueStage::Done { index } => {
            &&& represents(memory, op.order, now)
            &&& if !op.nonempty && threshold < 0 {
                undisturbed && index == LFRING_EMPTY
            } else if first.items.len() > 0 {
                &&& index == first.items[0]
                &&& now == (Contents {
                    items: first.items.drop_first(),
                    head: first.head + 1,
                    overrun: 0,
                    ..first
                })
                &&& memory.threshold == threshold
                &&& memory.array == start.array.update(
                    slot_of(first.head, op.order + 1),
                    word_at(start.array, op.order, first.head) | ((n - 1) as u64),
                )
            } else {
                let visits = if op.nonempty { spent } else { 1 };
                &&& index == LFRING_EMPTY
                &&& now == (Contents {
                    head: first.head + visits,
                    overrun: if op.nonempty { first.overrun + visits } else { 0 },
                    ..first
                })
                &&& memory.threshold == threshold - visits
                &&& memory.array == disarmed(start.array, op.order, first.head, visits)
            }
        },
    }
}

pub open spec fn dequeue_rank(stage: DequeueStage) -> int {
    match stage {
        DequeueStage::ReadThreshold => 8,
        DequeueStage::Claim => 7,
        DequeueStage::Load { .. } => 6,
        DequeueStage::Take { .. } => 5,
        DequeueStage::Replace { .. } => 5,
        DequeueStage::ReadTail { .. } => 4,
        DequeueStage::CatchUp { .. } => 3,
        DequeueStage::Spend { .. } => 2,
        DequeueStage::Done { .. } => 0,
    }
}

/// How many more positions a dequeue may visit.
pub open spec fn budget(memory: Memory, stage: DequeueStage) -> int {
    if stage is Done || memory.threshold < 0 {
        0
    } else {
        memory.threshold as int
    }
}

/// The contents after a step of a dequeue.
pub open spec fn dequeue_progress(op: DequeueOp, next: DequeueOp, now: Contents) -> Contents {
    match op.stage {
        DequeueStage::Take { .. } => Contents {
            items: now.items.drop_first(),
            head: now.head + 1,
            overrun: 0,
            ..now
        },
        DequeueStage::Load { .. } | DequeueStage::Replace { .. } => if next.stage is ReadTail
            || next.stage is Spend {
            Contents { head: now.head + 1, overrun: now.overrun + 1, ..now }
        } else {
            now
        },
        DequeueStage::CatchUp { .. } => Contents { overrun: 0, ..now },
        _ => now,
    }
}

pub open spec fn dequeue_step_ok(
    memory: Memory,
    op: DequeueOp,
    first: Contents,
    start: Memory,
    now: Contents,
) -> bool {
    let access = op.wants()->0;
    let next = op.at(op.next_stage(memory.reply(access)));
    let after = memory.after(access);
    &&& answers(access, memory.reply(access))
    &&& dequeueing(after, next, first, start, dequeue_progress(op, next, now))
    &&& 0 <= budget(after, next.stage) <= budget(memory, op.stage)
    &&& budget(after, next.stage) < budget(memory, op.stage) || dequeue_rank(next.stage)
        < dequeue_rank(op.stage)
}

/// What a dequeue finds at the position that it has claimed.
proof fn lemma_head_slot(memory: Memory, op: DequeueOp, contents: Contents)
    requires
        op.wf(),
        represents(memory, op.order, contents),
        contents.recent(0x4000_0000_0000_0000),
    ensures
        ({
            let n = slots(op.order);
            let entry = word_at(memory.array, op.order, contents.head);
            &&& op.inspected(memory.head, entry) == (if contents.items.len() > 0 {
                DequeueStage::Take { head: memory.head, entry }
            } else if entry_safe(entry, n) {
                DequeueStage::Replace { head: memory.head, entry, new: entry & !n }
            } else {
                op.passed(memory.head)
            })
            &&& contents.items.len() == 0 ==> vacant(entry, n)
        }),
{
    let n = slots(op.order);
    lemma_slots(op.order);
    let h = contents.head;
    lemma_position_cycle(h, n);
    lemma_expected(memory.array, op.order, contents.items, h, contents.marks, h);
    let entry = word_at(memory.array, op.order, h);
    if contents.items.len() > 0 {
        lemma_word_parts(h, contents.items[0] as int, n);
    } else {
        let mark = contents.marks[slot_of(h, op.order + 1)];
        assert(h - mark <= 0x4000_0000_0000_0000);
        lemma_lag(mark, h, n);
        lemma_entry(entry, n);
    }
}

/// A visit that finds nothing, and leaves the slot disarmed.
proof fn lemma_fruitless(
    memory: Memory,
    order: usize,
    first: Contents,
    start: Seq<u64>,
    now: Contents,
)
    requires
        represents(memory, order, now),
        now.items.len() == 0,
        now.overrun < 0x4000_0000_0000_0000,
        first.head <= now.head,
        memory.array == disarmed(start, order, first.head, now.head - first.head),
        vacant(word_at(memory.array, order, now.head), slots(order)),
    ensures
        ({
            let n = slots(order);
            let slot = slot_of(now.head, order + 1);
            let after = memory.array.update(slot, memory.array[slot] & !n);
            &&& after == disarmed(start, order, first.head, now.head - first.head + 1)
            &&& represents(
                Memory { head: following(memory.head), array: after, ..memory },
                order,
                Contents { head: now.head + 1, overrun: now.overrun + 1, ..now },
            )
            &&& !entry_safe(memory.array[slot], n) ==> after == memory.array
            &&& 0 <= slot < n
        }),
{
    let n = slots(order);
    lemma_slots(order);
    let slot = slot_of(now.head, order + 1);
    let w = memory.array[slot];
    lemma_slot_in_ring(now.head, order + 1);
    lemma_disarmed_word(w, n);
    lemma_entry(w, n);
    lemma_head_passed(memory.array, order, now.items, now.head, now.marks, w & !n);
    lemma_counter_moves(now.head, 1);
    if !entry_safe(w, n) {
        assert(memory.array.update(slot, w & !n) =~= memory.array);
    }
}

proof fn lemma_dequeue_load(
    memory: Memory,
    op: DequeueOp,
    first: Contents,
    start: Memory,
    now: Contents,
)
    requires
        dequeueing(memory, op, first, start, now),
        op.stage is Load,
    ensures
        dequeue_step_ok(memory, op, first, start, now),
{
    let n = slots(op.order);
    lemma_slots(op.order);
    let claimed = Memory { head: op.stage->Load_head, ..memory };
    lemma_slot_in_ring(now.head, op.order + 1);
    assert(now.recent(0x4000_0000_0000_0000)) by {
        assert forall|slot: int| 0 <= slot < now.marks.len() implies now.head
            - #[trigger] now.marks[slot] <= 0x4000_0000_0000_0000 by {
            assert(first.head - first.marks[slot] <= memory_span());
        }
    }
    lemma_head_slot(claimed, op, now);
    assert(word_at(memory.array, op.order, now.head) == word_at(claimed.array, op.order, now.head));
    if now.items.len() == 0 {
        lemma_fruitless(claimed, op.order, first, start.array, now);
    } else {
        assert(disarmed(start.array, op.order, first.head, 0) == start.array);
    }
}

proof fn lemma_dequeue_take(
    memory: Memory,
    op: DequeueOp,
    first: Contents,
    start: Memory,
    now: Contents,
)
    requires
        dequeueing(memory, op, first, start, now),
        op.stage is Take,
    ensures
        dequeue_step_ok(memory, op, first, start, now),
{
    let n = slots(op.order);
    lemma_slots(op.order);
    let entry = op.stage->Take_entry;
    let access = op.wants()->0;
    let after = memory.after(access);
    let next = op.at(op.next_stage(memory.reply(access)));
    let rest = dequeue_progress(op, next, now);
    lemma_expected(memory.array, op.order, now.items, now.head, now.marks, now.head);
    lemma_word_parts(now.head, now.items[0] as int, n);
    lemma_slot_in_ring(now.head, op.order + 1);
    assert(entry_index(entry, n) == now.items[0]);
    let emptied = entry | ((n - 1) as u64);
    assert(after.array == memory.array.update(slot_of(now.head, op.order + 1), emptied));
    lemma_emptied_word(entry, n);
    lemma_head_passed(memory.array, op.order, now.items, now.head, now.marks, emptied);
    lemma_counter_moves(now.head, 1);
    assert(represents(after, op.order, rest));
}

proof fn lemma_dequeue_replace(
    memory: Memory,
    op: DequeueOp,
    first: Contents,
    start: Memory,
    now: Contents,
)
    requires
        dequeueing(memory, op, first, start, now),
        op.stage is Replace,
    ensures
        dequeue_step_ok(memory, op, first, start, now),
{
    lemma_slots(op.order);
    let claimed = Memory { head: op.stage->Replace_head, ..memory };
    lemma_slot_in_ring(now.head, op.order + 1);
    lemma_expected(memory.array, op.order, now.items, now.head, now.marks, now.head);
    lemma_fruitless(claimed, op.order, first, start.array, now);
    assert(memory.reply(op.wants()->0) is Swapped);
}

pub proof fn lemma_dequeue_step(
    memory: Memory,
    op: DequeueOp,
    first: Contents,
    start: Memory,
    now: Contents,
)
    requires
        dequeueing(memory, op, first, start, now),
        op.wants() is Some,
    ensures
        dequeue_step_ok(memory, op, first, start, now),
{
    lemma_slots(op.order);
    match op.stage {
        DequeueStage::Load { .. } => {
            lemma_dequeue_load(memory, op, first, start, now);
        },
        DequeueStage::Take { .. } => {
            lemma_dequeue_take(memory, op, first, start, now);
        },
        DequeueStage::Replace { .. } => {
            lemma_dequeue_replace(memory, op, first, start, now);
        },
        DequeueStage::ReadThreshold => {
            assert(disarmed(start.array, op.order, first.head, 0) == start.array);
            assert(dequeue_step_ok(memory, op, first, start, now));
        },
        DequeueStage::Claim => {
            assert(dequeue_step_ok(memory, op, first, start, now));
        },
        DequeueStage::ReadTail { .. } => {
            lemma_counters(now.tail(), now.head);
            assert(dequeue_step_ok(memory, op, first, start, now));
        },
        DequeueStage::CatchUp { .. } => {
            assert(dequeue_step_ok(memory, op, first, start, now));
        },
        DequeueStage::Spend { .. } => {
            assert(dequeue_step_ok(memory, op, first, start, now));
        },
        DequeueStage::Done { .. } => {},
    }
}

} // verus!
