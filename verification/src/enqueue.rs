//! Enqueueing an index, one access at a time.
use vstd::prelude::*;
use crate::access::{
    answers, full_threshold, in_bounds, lemma_slots, ring_order, slot_at, slot_count, slots,
    threshold_of, written_word, Access, Reply,
};
use crate::entry::{
    cycle_precedes, entry_cycle, entry_safe, lemma_entry, lemma_entry_against_position,
    lemma_position_tag, lemma_tag_words, position_cycle, vacant,
};
use crate::position::{lfring_cmp_le, lfring_cmp_lt, moved, precedes, slot_of};

verus! {

/// Where an enqueue stands.
#[derive(Clone, Copy, PartialEq, Eq, Debug, Structural)]
pub enum EnqueueStage {
    /// About to read the tail counter, to see whether the ring is full.
    ReadTail,
    /// About to read the head counter, to compare it with the tail counter.
    ReadHead { tail: u64 },
    /// About to claim a position.
    Claim,
    /// About to read the slot of the claimed position.
    Load { tail: u64 },
    /// Found the slot vacant but not safe; about to read the head counter.
    CheckHead { tail: u64, entry: u64 },
    /// About to write the index into the slot.
    Write { tail: u64, entry: u64 },
    /// About to read the threshold.
    ReadThreshold,
    /// About to set the threshold.
    ResetThreshold,
    Done { enqueued: bool },
}

/// An enqueue of `index`. With `nonempty` the caller vouches that the ring holds something
/// already, and the threshold is left alone.
#[derive(Clone, Copy, PartialEq, Eq, Debug, Structural)]
pub struct EnqueueOp {
    pub order: usize,
    pub index: u64,
    pub nonempty: bool,
    pub stage: EnqueueStage,
}

impl EnqueueOp {
    pub open spec fn wf(self) -> bool {
        ring_order(self.order) && self.index < slots(self.order)
    }

    pub open spec fn at(self, stage: EnqueueStage) -> EnqueueOp {
        EnqueueOp { stage, ..self }
    }

    /// Where the enqueue goes once it has seen `entry` in the slot of its position `tail`: the
    /// slot can be written if it holds nothing and is from an earlier cycle, and either is safe or
    /// has not been passed by the head. Otherwise the enqueue needs another position.
    pub open spec fn inspected(self, tail: u64, entry: u64) -> EnqueueStage {
        let n = slots(self.order);
        if cycle_precedes(entry_cycle(entry, n), position_cycle(tail as int, n), n) && vacant(
            entry,
            n,
        ) {
            if entry_safe(entry, n) {
                EnqueueStage::Write { tail, entry }
            } else {
                EnqueueStage::CheckHead { tail, entry }
            }
        } else {
            EnqueueStage::ReadTail
        }
    }

    /// The access that the enqueue waits for.
    pub open spec fn wants(self) -> Option<Access> {
        match self.stage {
            EnqueueStage::ReadTail => Some(Access::LoadTail),
            EnqueueStage::ReadHead { tail } => Some(Access::LoadHead),
            EnqueueStage::Claim => Some(Access::AddTail),
            EnqueueStage::Load { tail } => Some(
                Access::LoadSlot { slot: slot_of(tail as int, self.order + 1) as usize },
            ),
            EnqueueStage::CheckHead { tail, entry } => Some(Access::LoadHead),
            EnqueueStage::Write { tail, entry } => Some(
                Access::SwapSlot {
                    slot: slot_of(tail as int, self.order + 1) as usize,
                    expected: entry,
                    new: written_word(tail, self.index, self.order),
                },
            ),
            EnqueueStage::ReadThreshold => Some(Access::LoadThreshold),
            EnqueueStage::ResetThreshold => Some(
                Access::StoreThreshold { value: full_threshold(self.order) as i64 },
            ),
            EnqueueStage::Done { .. } => None,
        }
    }

    /// The stage after the access has brought back `reply`.
    pub open spec fn next_stage(self, reply: Reply) -> EnqueueStage {
        match (self.stage, reply) {
            (EnqueueStage::ReadTail, Reply::Word(tail)) => EnqueueStage::ReadHead { tail },
            (EnqueueStage::ReadHead { tail }, Reply::Word(head)) => {
                let bound = moved(head, slots(self.order));
                if bound == tail || precedes(bound, tail) {
                    EnqueueStage::Done { enqueued: false }
                } else {
                    EnqueueStage::Claim
                }
            },
            (EnqueueStage::Claim, Reply::Word(tail)) => EnqueueStage::Load { tail },
            (EnqueueStage::Load { tail }, Reply::Word(entry)) => self.inspected(tail, entry),
            (EnqueueStage::CheckHead { tail, entry }, Reply::Word(head)) => {
                if head == tail || precedes(head, tail) {
                    EnqueueStage::Write { tail, entry }
                } else {
                    EnqueueStage::ReadTail
                }
            },
            (EnqueueStage::Write { tail, entry }, Reply::Swapped) => if self.nonempty {
                EnqueueStage::Done { enqueued: true }
            } else {
                EnqueueStage::ReadThreshold
            },
            (EnqueueStage::Write { tail, entry }, Reply::Refused(found)) => self.inspected(
                tail,
                found,
            ),
            (EnqueueStage::ReadThreshold, Reply::Level(level)) => if level != full_threshold(
                self.order,
            ) {
                EnqueueStage::ResetThreshold
            } else {
                EnqueueStage::Done { enqueued: true }
            },
            (EnqueueStage::ResetThreshold, _) => EnqueueStage::Done { enqueued: true },
            _ => self.stage,
        }
    }

    pub fn new(order: usize, eidx: usize, nonempty: bool) -> (op: EnqueueOp)
        requires
            ring_order(order),
            eidx < slots(order),
        ensures
            op == (EnqueueOp {
                order,
                index: eidx as u64,
                nonempty,
                stage: EnqueueStage::ReadTail,
            }),
    {
        EnqueueOp { order, index: eidx as u64, nonempty, stage: EnqueueStage::ReadTail }
    }

    fn inspect(self, tail: u64, entry: u64) -> (stage: EnqueueStage)
        requires
            self.wf(),
        ensures
            stage == self.inspected(tail, entry),
    {
        proof {
            lemma_slots(self.order);
        }
        let n: u64 = slot_count(self.order);
        let ecycle: u64 = entry | (2 * n - 1);
        let tcycle: u64 = (tail << 1) | (2 * n - 1);
        proof {
            lemma_entry(entry, n);
            lemma_entry_against_position(entry, tail, n);
        }
        if lfring_cmp_lt(ecycle, tcycle) {
            if entry == ecycle {
                EnqueueStage::Write { tail, entry }
            } else if entry == ecycle ^ n {
                EnqueueStage::CheckHead { tail, entry }
            } else {
                EnqueueStage::ReadTail
            }
        } else {
            EnqueueStage::ReadTail
        }
    }

    /// The access to perform next, if the enqueue is not done.
    pub fn access(&self) -> (r: Option<Access>)
        requires
            self.wf(),
        ensures
            r == self.wants(),
            r matches Some(access) ==> in_bounds(access, slots(self.order) as int),
    {
        match self.stage {
            EnqueueStage::ReadTail => Some(Access::LoadTail),
            EnqueueStage::ReadHead { .. } => Some(Access::LoadHead),
            EnqueueStage::Claim => Some(Access::AddTail),
            EnqueueStage::Load { tail } => Some(
                Access::LoadSlot { slot: slot_at(tail, self.order) },
            ),
            EnqueueStage::CheckHead { .. } => Some(Access::LoadHead),
            EnqueueStage::Write { tail, entry } => {
                proof {
                    lemma_slots(self.order);
                }
                let n: u64 = slot_count(self.order);
                let tcycle: u64 = (tail << 1) | (2 * n - 1);
                let eidx: u64 = self.index ^ (n - 1);
                proof {
                    lemma_position_tag(tail, n);
                    lemma_tag_words(position_cycle(tail as int, n), n, self.index);
                }
                Some(
                    Access::SwapSlot {
                        slot: slot_at(tail, self.order),
                        expected: entry,
                        new: tcycle ^ eidx,
                    },
                )
            },
            EnqueueStage::ReadThreshold => Some(Access::LoadThreshold),
            EnqueueStage::ResetThreshold => Some(
                Access::StoreThreshold { value: threshold_of(self.order) },
            ),
            EnqueueStage::Done { .. } => None,
        }
    }

    /// Goes on from what the access brought back.
    pub fn advance(self, reply: Reply) -> (r: EnqueueOp)
        requires
            self.wf(),
            self.wants() matches Some(access) && answers(access, reply),
        ensures
            r == self.at(self.next_stage(reply)),
            r.order == self.order,
            r.index == self.index,
            r.nonempty == self.nonempty,
            r.stage == self.next_stage(reply),
    {
        let stage: EnqueueStage = match (self.stage, reply) {
            (EnqueueStage::ReadTail, Reply::Word(tail)) => EnqueueStage::ReadHead { tail },
            (EnqueueStage::ReadHead { tail }, Reply::Word(head)) => {
                if lfring_cmp_le(head.wrapping_add(slot_count(self.order)), tail) {
                    EnqueueStage::Done { enqueued: false }
                } else {
                    EnqueueStage::Claim
                }
            },
            (EnqueueStage::Claim, Reply::Word(tail)) => EnqueueStage::Load { tail },
            (EnqueueStage::Load { tail }, Reply::Word(entry)) => self.inspect(tail, entry),
            (EnqueueStage::CheckHead { tail, entry }, Reply::Word(head)) => {
                if lfring_cmp_le(head, tail) {
                    EnqueueStage::Write { tail, entry }
                } else {
                    EnqueueStage::ReadTail
                }
            },
            (EnqueueStage::Write { .. }, Reply::Swapped) => {
                if self.nonempty {
                    EnqueueStage::Done { enqueued: true }
                } else {
                    EnqueueStage::ReadThreshold
                }
            },
            (EnqueueStage::Write { tail, .. }, Reply::Refused(found)) => self.inspect(tail, found),
            (EnqueueStage::ReadThreshold, Reply::Level(level)) => {
                if level != threshold_of(self.order) {
                    EnqueueStage::ResetThreshold
                } else {
                    EnqueueStage::Done { enqueued: true }
                }
            },
            (EnqueueStage::ResetThreshold, _) => EnqueueStage::Done { enqueued: true },
            _ => self.stage,
        };
        EnqueueOp { order: self.order, index: self.index, nonempty: self.nonempty, stage }
    }
}

} // verus!
