//! Dequeueing an index, one access at a time.
use vstd::prelude::*;
use crate::access::{
    answers, following, in_bounds, lemma_slots, ring_order, slot_at, slot_count, slots, Access,
    Reply,
};
use crate::entry::{
    cycle_precedes, encode, entry_cycle, entry_index, entry_safe, lemma_entry,
    lemma_entry_against_position, position_cycle,
};
use crate::position::{lfring_cmp_le, lfring_cmp_lt, precedes, slot_of};

verus! {

/// What a dequeue returns when it finds no index.
pub const LFRING_EMPTY: usize = usize::MAX;

/// Whether the tail counter has reached the given position.
pub open spec fn reached(tail: u64, position: u64) -> bool {
    position == tail || precedes(position, tail)
}

/// Where a catch-up stands.
#[derive(Clone, Copy, PartialEq, Eq, Debug, Structural)]
pub enum CatchupStage {
    /// About to move the tail counter, last seen at `tail`.
    Swap { tail: u64 },
    Done,
}

/// Moves the tail counter up to `head`, unless it turns out to have got there.
#[derive(Clone, Copy, PartialEq, Eq, Debug, Structural)]
pub struct CatchupOp {
    pub head: u64,
    pub stage: CatchupStage,
}

impl CatchupOp {
    /// The access that the catch-up waits for.
    pub open spec fn wants(self) -> Option<Access> {
        match self.stage {
            CatchupStage::Swap { tail } => Some(
                Access::SwapTail { expected: tail, new: self.head },
            ),
            CatchupStage::Done => None,
        }
    }

    /// The stage after the access has brought back `reply`.
    pub open spec fn next_stage(self, reply: Reply) -> CatchupStage {
        match (self.stage, reply) {
            (CatchupStage::Swap { .. }, Reply::Refused(found)) => if reached(found, self.head) {
                CatchupStage::Done
            } else {
                CatchupStage::Swap { tail: found }
            },
            _ => CatchupStage::Done,
        }
    }

    pub open spec fn at(self, stage: CatchupStage) -> CatchupOp {
        CatchupOp { stage, ..self }
    }

    pub fn new(tail: u64, head: u64) -> (op: CatchupOp)
        ensures
            op == (CatchupOp { head, stage: CatchupStage::Swap { tail } }),
    {
        CatchupOp { head, stage: CatchupStage::Swap { tail } }
    }

    /// The access to perform next, if the catch-up is not done.
    pub fn access(&self) -> (r: Option<Access>)
        ensures
            r == self.wants(),
    {
        match self.stage {
            CatchupStage::Swap { tail } => Some(
                Access::SwapTail { expected: tail, new: self.head },
            ),
            CatchupStage::Done => None,
        }
    }

    /// Goes on from what the access brought back.
    pub fn advance(self, reply: Reply) -> (r: CatchupOp)
        requires
            self.wants() matches Some(access) && answers(access, reply),
        ensures
            r == self.at(self.next_stage(reply)),
            r.head == self.head,
            r.stage == self.next_stage(reply),
    {
        let stage: CatchupStage = match reply {
            Reply::Refused(found) => {
                if lfring_cmp_le(self.head, found) {
                    CatchupStage::Done
                } else {
                    CatchupStage::Swap { tail: found }
                }
            },
            _ => CatchupStage::Done,
        };
        CatchupOp { head: self.head, stage }
    }
}

/// Where a dequeue stands.
#[derive(Clone, Copy, PartialEq, Eq, Debug, Structural)]
pub enum DequeueStage {
    /// About to read the threshold.
    ReadThreshold,
    /// About to claim a position.
    Claim,
    /// About to read the slot of the claimed position.
    Load { head: u64 },
    /// Found the index of the claimed position; about to mark the slot as vacant.
    Take { head: u64, entry: u64 },
    /// Found the slot behind; about to put `new` there, the same entry marked unsafe.
    Replace { head: u64, entry: u64, new: u64 },
    /// Got nothing at its position; about to read the tail counter.
    ReadTail { head: u64 },
    /// The tail counter is behind.
    CatchUp { op: CatchupOp },
    /// About to take one from the threshold; with `drained` nothing more is to be tried.
    Spend { drained: bool },
    Done { index: usize },
}

/// A dequeue. With `nonempty` the caller vouches that the ring holds something.
#[derive(Clone, Copy, PartialEq, Eq, Debug, Structural)]
pub struct DequeueOp {
    pub order: usize,
    pub nonempty: bool,
    pub stage: DequeueStage,
}

impl DequeueOp {
    pub open spec fn wf(self) -> bool {
        ring_order(self.order)
    }

    pub open spec fn at(self, stage: DequeueStage) -> DequeueOp {
        DequeueOp { stage, ..self }
    }

    /// The stage of a dequeue that starts.
    pub open spec fn first_stage(nonempty: bool) -> DequeueStage {
        if nonempty {
            DequeueStage::Claim
        } else {
            DequeueStage::ReadThreshold
        }
    }

    /// Where the dequeue goes when the slot of its position `head` has nothing for it.
    pub open spec fn passed(self, head: u64) -> DequeueStage {
        if self.nonempty {
            DequeueStage::Spend { drained: false }
        } else {
            DequeueStage::ReadTail { head }
        }
    }

    /// Where the dequeue goes once it has seen `entry` in the slot of its position `head`. An entry
    /// of the position's own cycle is taken. Another one is left where it is, and if it is of an
    /// earlier cycle it is marked unsafe, so that a late enqueue looks at the head counter first.
    pub open spec fn inspected(self, head: u64, entry: u64) -> DequeueStage {
        let n = slots(self.order);
        let cycle = entry_cycle(entry, n);
        let own = position_cycle(head as int, n);
        if cycle == own {
            DequeueStage::Take { head, entry }
        } else if entry_safe(entry, n) && cycle_precedes(cycle, own, n) {
            DequeueStage::Replace {
                head,
                entry,
                new: encode(cycle, false, entry_index(entry, n), n) as u64,
            }
        } else {
            self.passed(head)
        }
    }

    /// The access that the dequeue waits for.
    pub open spec fn wants(self) -> Option<Access> {
        match self.stage {
            DequeueStage::ReadThreshold => Some(Access::LoadThreshold),
            DequeueStage::Claim => Some(Access::AddHead),
            DequeueStage::Load { head } => Some(
                Access::LoadSlot { slot: slot_of(head as int, self.order + 1) as usize },
            ),
            DequeueStage::Take { head, .. } => Some(
                Access::OrSlot {
                    slot: slot_of(head as int, self.order + 1) as usize,
                    bits: (slots(self.order) - 1) as u64,
                },
            ),
            DequeueStage::Replace { head, entry, new, .. } => Some(
                Access::SwapSlot {
                    slot: slot_of(head as int, self.order + 1) as usize,
                    expected: entry,
                    new,
                },
            ),
            DequeueStage::ReadTail { .. } => Some(Access::LoadTail),
            DequeueStage::CatchUp { op } => op.wants(),
            DequeueStage::Spend { .. } => Some(Access::SubThreshold),
            DequeueStage::Done { .. } => None,
        }
    }

    /// The stage after the access has brought back `reply`.
    pub open spec fn next_stage(self, reply: Reply) -> DequeueStage {
        match (self.stage, reply) {
            (DequeueStage::ReadThreshold, Reply::Level(level)) => if level < 0 {
                DequeueStage::Done { index: LFRING_EMPTY }
            } else {
                DequeueStage::Claim
            },
            (DequeueStage::Claim, Reply::Word(head)) => DequeueStage::Load { head },
            (DequeueStage::Load { head }, Reply::Word(entry)) => self.inspected(head, entry),
            (DequeueStage::Take { entry, .. }, _) => DequeueStage::Done {
                index: entry_index(entry, slots(self.order)) as usize,
            },
            (DequeueStage::Replace { head, .. }, Reply::Swapped) => self.passed(head),
            (DequeueStage::Replace { head, .. }, Reply::Refused(found)) => self.inspected(
                head,
                found,
            ),
            (DequeueStage::ReadTail { head }, Reply::Word(tail)) => {
                let after = following(head);
                if tail == after || precedes(tail, after) {
                    DequeueStage::CatchUp {
                        op: CatchupOp { head: after, stage: CatchupStage::Swap { tail } },
                    }
                } else {
                    DequeueStage::Spend { drained: false }
                }
            },
            (DequeueStage::CatchUp { op }, _) => if op.next_stage(reply) is Done {
                DequeueStage::Spend { drained: true }
            } else {
                DequeueStage::CatchUp { op: op.at(op.next_stage(reply)) }
            },
            (DequeueStage::Spend { drained }, Reply::Level(level)) => if drained || level <= 0 {
                DequeueStage::Done { index: LFRING_EMPTY }
            } else {
                DequeueStage::Claim
            },
            _ => self.stage,
        }
    }

    pub fn new(order: usize, nonempty: bool) -> (op: DequeueOp)
        requires
            ring_order(order),
        ensures
            op == (DequeueOp { order, nonempty, stage: DequeueOp::first_stage(nonempty) }),
    {
        if nonempty {
            DequeueOp { order, nonempty, stage: DequeueStage::Claim }
        } else {
            DequeueOp { order, nonempty, stage: DequeueStage::ReadThreshold }
        }
    }

    fn pass(self, head: u64) -> (stage: DequeueStage)
        ensures
            stage == self.passed(head),
    {
        if self.nonempty {
            DequeueStage::Spend { drained: false }
        } else {
            DequeueStage::ReadTail { head }
        }
    }

    fn inspect(self, head: u64, entry: u64) -> (stage: DequeueStage)
        requires
            self.wf(),
        ensures
            stage == self.inspected(head, entry),
    {
        proof {
            lemma_slots(self.order);
        }
        let n: u64 = slot_count(self.order);
        let ecycle: u64 = entry | (2 * n - 1);
        let hcycle: u64 = (head << 1) | (2 * n - 1);
        proof {
            lemma_entry(entry, n);
            lemma_entry_against_position(entry, head, n);
        }
        if ecycle == hcycle {
            return DequeueStage::Take { head, entry };
        }
        // An entry of this position's cycle has been taken, with an index or without. Any other
        // entry is of another cycle.
        let new: u64 = entry & !n;
        if entry != new && lfring_cmp_lt(ecycle, hcycle) {
            DequeueStage::Replace { head, entry, new }
        } else {
            self.pass(head)
        }
    }

    /// The access to perform next, if the dequeue is not done.
    pub fn access(&self) -> (r: Option<Access>)
        requires
            self.wf(),
        ensures
            r == self.wants(),
            r matches Some(access) ==> in_bounds(access, slots(self.order) as int),
    {
        proof {
            lemma_slots(self.order);
        }
        match self.stage {
            DequeueStage::ReadThreshold => Some(Access::LoadThreshold),
            DequeueStage::Claim => Some(Access::AddHead),
            DequeueStage::Load { head } => Some(
                Access::LoadSlot { slot: slot_at(head, self.order) },
            ),
            DequeueStage::Take { head, .. } => Some(
                Access::OrSlot {
                    slot: slot_at(head, self.order),
                    bits: slot_count(self.order) - 1,
                },
            ),
            DequeueStage::Replace { head, entry, new, .. } => Some(
                Access::SwapSlot { slot: slot_at(head, self.order), expected: entry, new },
            ),
            DequeueStage::ReadTail { .. } => Some(Access::LoadTail),
            DequeueStage::CatchUp { op } => op.access(),
            DequeueStage::Spend { .. } => Some(Access::SubThreshold),
            DequeueStage::Done { .. } => None,
        }
    }

    fn taken(self, entry: u64) -> (index: usize)
        requires
            self.wf(),
        ensures
            index == entry_index(entry, slots(self.order)),
    {
        proof {
            lemma_slots(self.order);
            lemma_entry(entry, slots(self.order));
        }
        (entry & (slot_count(self.order) - 1)) as usize
    }

    /// Goes on from what the access brought back.
    pub fn advance(self, reply: Reply) -> (r: DequeueOp)
        requires
            self.wf(),
            self.wants() matches Some(access) && answers(access, reply),
        ensures
            r == self.at(self.next_stage(reply)),
            r.order == self.order,
            r.nonempty == self.nonempty,
            r.stage == self.next_stage(reply),
    {
        let stage: DequeueStage = match (self.stage, reply) {
            (DequeueStage::ReadThreshold, Reply::Level(level)) => {
                if level < 0 {
                    DequeueStage::Done { index: LFRING_EMPTY }
                } else {
                    DequeueStage::Claim
                }
            },
            (DequeueStage::Claim, Reply::Word(head)) => DequeueStage::Load { head },
            (DequeueStage::Load { head }, Reply::Word(entry)) => self.inspect(head, entry),
            (DequeueStage::Take { entry, .. }, _) => DequeueStage::Done {
                index: self.taken(entry),
            },
            (DequeueStage::Replace { head, .. }, Reply::Swapped) => self.pass(head),
            (DequeueStage::Replace { head, .. }, Reply::Refused(found)) => self.inspect(
                head,
                found,
            ),
            (DequeueStage::ReadTail { head }, Reply::Word(tail)) => {
                let after: u64 = head.wrapping_add(1);
                if lfring_cmp_le(tail, after) {
                    DequeueStage::CatchUp { op: CatchupOp::new(tail, after) }
                } else {
                    DequeueStage::Spend { drained: false }
                }
            },
            (DequeueStage::CatchUp { op }, _) => {
                let op: CatchupOp = op.advance(reply);
                match op.stage {
                    CatchupStage::Done => DequeueStage::Spend { drained: true },
                    _ => DequeueStage::CatchUp { op },
                }
            },
            (DequeueStage::Spend { drained }, Reply::Level(level)) => {
                if drained || level <= 0 {
                    DequeueStage::Done { index: LFRING_EMPTY }
                } else {
                    DequeueStage::Claim
                }
            },
            _ => self.stage,
        };
        DequeueOp { order: self.order, nonempty: self.nonempty, stage }
    }
}

} // verus!
