//! What the operations on a ring make of the words that they are given, in plain arithmetic.
//!
//! Words and counters are taken as numbers modulo `2^64` here. The number of slots is `n`, and the
//! tag of a word or of a doubled position is what is left when all bits below `2n` are set.
use vstd::prelude::*;
use vstd::arithmetic::power2::pow2;
use crate::access::{law_ring_sizes, lemma_slots, ring_order, slots, Access, Reply};
use crate::dequeue::{reached, CatchupOp, CatchupStage, DequeueOp, DequeueStage};
use crate::enqueue::{EnqueueOp, EnqueueStage};
use crate::entry::{
    lemma_entry, lemma_entry_against_position, lemma_position_tag, lemma_tag_words, position_cycle,
};
use crate::position::slot_of;

verus! {

/// Whether `x` is less than half the circle of counters behind `y`, or exactly half.
pub open spec fn behind(x: u64, y: u64) -> bool {
    (x - y) % 0x1_0000_0000_0000_0000 >= 0x8000_0000_0000_0000
}

/// The tag of a word.
pub open spec fn word_tag(w: u64, n: u64) -> u64 {
    w | ((2 * n - 1) as u64)
}

/// Law: an enqueue remains the same enqueue. Whatever a step brings, the order of the ring, the
/// index to be enqueued and what the caller vouches for stay as they were.
pub proof fn law_enqueue_stays_the_same(op: EnqueueOp, reply: Reply)
    ensures
        ({
            let next = op.at(op.next_stage(reply));
            &&& next.order == op.order
            &&& next.index == op.index
            &&& next.nonempty == op.nonempty
            &&& next.stage == op.next_stage(reply)
        }),
{
}

/// Law: a dequeue remains the same dequeue, and a catch-up keeps its goal.
pub proof fn law_dequeue_stays_the_same(op: DequeueOp, catchup: CatchupOp, reply: Reply)
    ensures
        ({
            let next = op.at(op.next_stage(reply));
            &&& next.order == op.order
            &&& next.nonempty == op.nonempty
            &&& next.stage == op.next_stage(reply)
        }),
        catchup.at(catchup.next_stage(reply)).head == catchup.head,
{
}

/// Law: an enqueue whose write was refused goes on from the word that was found as if it had just
/// read it.
pub proof fn law_refused_write_looks_again(op: EnqueueOp, tail: u64, entry: u64, found: u64)
    ensures
        ({
            let writing = EnqueueOp { stage: EnqueueStage::Write { tail, entry }, ..op };
            let loading = EnqueueOp { stage: EnqueueStage::Load { tail }, ..op };
            writing.next_stage(Reply::Refused(found)) == loading.next_stage(Reply::Word(found))
        }),
{
}

/// Law: a dequeue whose replacement was refused goes on from the word that was found as if it had
/// just read it. If that is the word of its own position, it takes it.
pub proof fn law_refused_replacement_looks_again(
    op: DequeueOp,
    head: u64,
    entry: u64,
    new: u64,
    found: u64,
)
    requires
        ring_order(op.order),
    ensures
        ({
            let n = slots(op.order);
            let replacing = DequeueOp { stage: DequeueStage::Replace { head, entry, new }, ..op };
            let loading = DequeueOp { stage: DequeueStage::Load { head }, ..op };
            &&& replacing.next_stage(Reply::Refused(found)) == loading.next_stage(
                Reply::Word(found),
            )
            &&& word_tag(found, n) == word_tag(head << 1, n) ==> replacing.next_stage(
                Reply::Refused(found),
            ) == (DequeueStage::Take { head, entry: found })
        }),
{
    lemma_slots(op.order);
    lemma_entry_against_position(found, head, slots(op.order));
}

/// Law: an enqueue refuses exactly when the tail is at least a whole ring ahead of the head, and
/// else claims a position.
pub proof fn law_enqueue_refuses_a_full_ring(op: EnqueueOp, head: u64, tail: u64, ahead: u64)
    requires
        ring_order(op.order),
        op.stage == (EnqueueStage::ReadHead { tail }),
        tail == (head + ahead) % 0x1_0000_0000_0000_0000,
    ensures
        ({
            let n = 2 * pow2(op.order as nat);
            op.next_stage(Reply::Word(head)) == (if n <= ahead <= n + 0x8000_0000_0000_0000 {
                EnqueueStage::Done { enqueued: false }
            } else {
                EnqueueStage::Claim
            })
        }),
{
    law_ring_sizes(op.order);
    lemma_slots(op.order);
}

/// Law: an enqueue writes into a slot whose tag is behind that of its position and that holds no
/// index: at once if all bits below the tag are set, and after a look at the head counter if only
/// the safe bit is missing. The look must find the head no further than the position.
pub proof fn law_enqueue_chooses_its_slot(op: EnqueueOp, tail: u64, entry: u64, head: u64)
    requires
        ring_order(op.order),
    ensures
        ({
            let n = slots(op.order);
            let loading = EnqueueOp { stage: EnqueueStage::Load { tail }, ..op };
            let checking = EnqueueOp { stage: EnqueueStage::CheckHead { tail, entry }, ..op };
            let free = behind(word_tag(entry, n), word_tag(tail << 1, n));
            &&& loading.next_stage(Reply::Word(entry)) == (if free && entry == word_tag(entry, n) {
                EnqueueStage::Write { tail, entry }
            } else if free && entry == word_tag(entry, n) ^ n {
                EnqueueStage::CheckHead { tail, entry }
            } else {
                EnqueueStage::ReadTail
            })
            &&& checking.next_stage(Reply::Word(head)) == (if head == tail || behind(head, tail) {
                EnqueueStage::Write { tail, entry }
            } else {
                EnqueueStage::ReadTail
            })
        }),
{
    let n = slots(op.order);
    lemma_slots(op.order);
    lemma_entry(entry, n);
    lemma_entry_against_position(entry, tail, n);
}

/// Law: after its write, an enqueue has the threshold brought to one less than three times the
/// ring's nominal capacity, unless its caller vouched that the ring holds something. Then it is
/// done, with success.
pub proof fn law_enqueue_restores_the_threshold(op: EnqueueOp, tail: u64, entry: u64, level: i64)
    requires
        ring_order(op.order),
    ensures
        ({
            let full = 3 * pow2(op.order as nat) - 1;
            let done = EnqueueStage::Done { enqueued: true };
            let writing = EnqueueOp { stage: EnqueueStage::Write { tail, entry }, ..op };
            let reading = EnqueueOp { stage: EnqueueStage::ReadThreshold, ..op };
            let storing = EnqueueOp { stage: EnqueueStage::ResetThreshold, ..op };
            &&& writing.next_stage(Reply::Swapped) == (if op.nonempty {
                done
            } else {
                EnqueueStage::ReadThreshold
            })
            &&& reading.wants() == Some(Access::LoadThreshold)
            &&& reading.next_stage(Reply::Level(level)) == (if level == full {
                done
            } else {
                EnqueueStage::ResetThreshold
            })
            &&& storing.wants() matches Some(Access::StoreThreshold { value }) && value == full
            &&& storing.next_stage(Reply::Stored) == done
        }),
{
    law_ring_sizes(op.order);
    lemma_slots(op.order);
}

/// Law: what an enqueue accesses on its way to a slot: the two counters, then the tail counter
/// again, which gives it its position, then the slot of that position. It writes a word that has
/// the tag of its position, the safe bit, and its index.
pub proof fn law_enqueue_accesses(op: EnqueueOp, tail: u64, entry: u64)
    requires
        ring_order(op.order),
        op.index < slots(op.order),
    ensures
        ({
            let n = slots(op.order);
            let slot = slot_of(tail as int, op.order + 1) as usize;
            let at = |stage: EnqueueStage| EnqueueOp { stage, ..op };
            &&& at(EnqueueStage::ReadTail).wants() == Some(Access::LoadTail)
            &&& at(EnqueueStage::ReadTail).next_stage(Reply::Word(tail)) == (
            EnqueueStage::ReadHead { tail })
            &&& at(EnqueueStage::ReadHead { tail }).wants() == Some(Access::LoadHead)
            &&& at(EnqueueStage::Claim).wants() == Some(Access::AddTail)
            &&& at(EnqueueStage::Claim).next_stage(Reply::Word(tail)) == (
            EnqueueStage::Load { tail })
            &&& at(EnqueueStage::Load { tail }).wants() == Some(Access::LoadSlot { slot })
            &&& at(EnqueueStage::CheckHead { tail, entry }).wants() == Some(Access::LoadHead)
            &&& at(EnqueueStage::Write { tail, entry }).wants() matches Some(
                Access::SwapSlot { slot: s, expected, new },
            ) && s == slot && expected == entry && new == word_tag(tail << 1, n) ^ (op.index ^ ((n
                - 1) as u64))
            &&& at(EnqueueStage::Done { enqueued: true }).wants() is None
            &&& at(EnqueueStage::Done { enqueued: false }).wants() is None
        }),
{
    let n = slots(op.order);
    lemma_slots(op.order);
    lemma_position_tag(tail, n);
    lemma_tag_words(position_cycle(tail as int, n), n, op.index);
}

/// Law: a dequeue takes the word in its slot exactly if its tag is that of its position, and then
/// returns the index in the word. Else it clears the safe bit of a word that is behind and has it
/// set, and gives its position up.
pub proof fn law_dequeue_judges_its_slot(op: DequeueOp, head: u64, entry: u64)
    requires
        ring_order(op.order),
    ensures
        ({
            let n = slots(op.order);
            let gives_up = if op.nonempty {
                DequeueStage::Spend { drained: false }
            } else {
                DequeueStage::ReadTail { head }
            };
            let own = word_tag(head << 1, n);
            let new = entry & !n;
            let slot = slot_of(head as int, op.order + 1) as usize;
            let at = |stage: DequeueStage| DequeueOp { stage, ..op };
            &&& at(DequeueStage::Load { head }).next_stage(Reply::Word(entry)) == (
            if word_tag(entry, n) == own {
                DequeueStage::Take { head, entry }
            } else if new != entry && behind(word_tag(entry, n), own) {
                DequeueStage::Replace { head, entry, new }
            } else {
                gives_up
            })
            &&& at(DequeueStage::Replace { head, entry, new }).next_stage(Reply::Swapped)
                == gives_up
            &&& at(DequeueStage::Take { head, entry }).next_stage(Reply::Word(entry)) == (
            DequeueStage::Done { index: (entry & ((n - 1) as u64)) as usize })
            &&& at(DequeueStage::Load { head }).wants() == Some(Access::LoadSlot { slot })
            &&& at(DequeueStage::Take { head, entry }).wants() == Some(
                Access::OrSlot { slot, bits: (n - 1) as u64 },
            )
            &&& at(DequeueStage::Replace { head, entry, new }).wants() == Some(
                Access::SwapSlot { slot, expected: entry, new },
            )
        }),
{
    let n = slots(op.order);
    lemma_slots(op.order);
    lemma_entry(entry, n);
    lemma_entry_against_position(entry, head, n);
}

/// Law: how a dequeue begins and ends. Without a caller who vouches that the ring holds something
/// it first reads the threshold, and a negative one means an empty ring. It claims the position
/// that the head counter gives it. Once it has given a position up, it takes one from the
/// threshold, and tries the next position unless the threshold was used up.
pub proof fn law_dequeue_heeds_the_threshold(op: DequeueOp, head: u64, level: i64, drained: bool)
    ensures
        ({
            let empty = DequeueStage::Done { index: usize::MAX };
            let at = |stage: DequeueStage| DequeueOp { stage, ..op };
            &&& DequeueOp::first_stage(op.nonempty) == (if op.nonempty {
                DequeueStage::Claim
            } else {
                DequeueStage::ReadThreshold
            })
            &&& at(DequeueStage::ReadThreshold).wants() == Some(Access::LoadThreshold)
            &&& at(DequeueStage::ReadThreshold).next_stage(Reply::Level(level)) == (if level < 0 {
                empty
            } else {
                DequeueStage::Claim
            })
            &&& at(DequeueStage::Claim).wants() == Some(Access::AddHead)
            &&& at(DequeueStage::Claim).next_stage(Reply::Word(head)) == (
            DequeueStage::Load { head })
            &&& at(DequeueStage::Spend { drained }).wants() == Some(Access::SubThreshold)
            &&& at(DequeueStage::Spend { drained }).next_stage(Reply::Level(level)) == (
            if drained || level <= 0 {
                empty
            } else {
                DequeueStage::Claim
            })
            &&& at(empty).wants() is None
        }),
{
}

/// Law: a dequeue that has given its position up finds the ring drained exactly if the tail counter
/// is no further than the next position. It then has the tail counter moved there, from wherever it
/// finds it behind, and gives up for good.
pub proof fn law_dequeue_notices_a_drained_ring(
    op: DequeueOp,
    head: u64,
    next: u64,
    tail: u64,
    found: u64,
)
    requires
        next == (head + 1) % 0x1_0000_0000_0000_0000,
    ensures
        ({
            let at = |stage: DequeueStage| DequeueOp { stage, ..op };
            let catching_up = |tail: u64|
                DequeueStage::CatchUp {
                    op: CatchupOp { head: next, stage: CatchupStage::Swap { tail } },
                };
            let given_up = DequeueStage::Spend { drained: true };
            &&& at(DequeueStage::ReadTail { head }).wants() == Some(Access::LoadTail)
            &&& at(DequeueStage::ReadTail { head }).next_stage(Reply::Word(tail)) == (if tail
                == next || behind(tail, next) {
                catching_up(tail)
            } else {
                DequeueStage::Spend { drained: false }
            })
            &&& at(catching_up(tail)).wants() == Some(
                Access::SwapTail { expected: tail, new: next },
            )
            &&& at(catching_up(tail)).next_stage(Reply::Swapped) == given_up
            &&& at(catching_up(tail)).next_stage(Reply::Refused(found)) == (if next == found
                || behind(next, found) {
                given_up
            } else {
                catching_up(found)
            })
        }),
{
}

/// Law: the tail counter has reached a position exactly when it is reached from there by going up
/// at most `2^63` steps, however the counters wrap around on the way.
pub proof fn law_tail_reaches_a_position(tail: u64, position: u64, steps: u64)
    requires
        tail == (position + steps) % 0x1_0000_0000_0000_0000,
    ensures
        reached(tail, position) <==> steps <= 0x8000_0000_0000_0000,
{
}

/// Law: a catch-up that was refused is done exactly if the tail counter has got to its goal or
/// beyond, and else tries again from where the counter was found.
pub proof fn law_catchup_goes_on_until_it_gets_there(op: CatchupOp, tail: u64, found: u64)
    requires
        op.stage == (CatchupStage::Swap { tail }),
    ensures
        op.wants() == Some(Access::SwapTail { expected: tail, new: op.head }),
        op.next_stage(Reply::Swapped) is Done,
        op.next_stage(Reply::Refused(found)) == (if op.head == found || behind(op.head, found) {
            CatchupStage::Done
        } else {
            CatchupStage::Swap { tail: found }
        }),
{
}

} // verus!
