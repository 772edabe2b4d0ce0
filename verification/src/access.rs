//! The ring's operations, cut into single accesses to the words that threads share.
//!
//! An operation says which access it wants next, and goes on from what the access brought back.
//! Whoever runs it performs the accesses: on plain memory that nobody else uses, or on atomic
//! words that other threads use at the same time.
use vstd::prelude::*;
use crate::entry::{
    encode, lemma_entry, lemma_position_cycle, lemma_position_tag, lemma_ring_size,
    lemma_word_parts, position_cycle, ring_size,
};
use crate::position::{
    addressable, lemma_addressable, lemma_slot_in_ring, lemma_two_to, moved, pow2, slot_of,
    threshold_value, two_to,
};

verus! {

/// One access to the shared words of a ring.
#[derive(Clone, Copy, PartialEq, Eq, Debug, Structural)]
pub enum Access {
    LoadHead,
    LoadTail,
    /// Add one to the head counter.
    AddHead,
    /// Add one to the tail counter.
    AddTail,
    /// Replace the tail counter if it still has the expected value.
    SwapTail { expected: u64, new: u64 },
    LoadThreshold,
    StoreThreshold { value: i64 },
    /// Take one from the threshold.
    SubThreshold,
    LoadSlot { slot: usize },
    /// Set bits of a slot.
    OrSlot { slot: usize, bits: u64 },
    /// Replace a slot's word if it still has the expected value.
    SwapSlot { slot: usize, expected: u64, new: u64 },
}

/// What an access brings back.
#[derive(Clone, Copy, PartialEq, Eq, Debug, Structural)]
pub enum Reply {
    /// The word that a load found, or that was there before a change.
    Word(u64),
    /// The threshold that a load found, or that was there before a change.
    Level(i64),
    /// A store is done.
    Stored,
    /// The expected word was there and has been replaced.
    Swapped,
    /// Nothing has been replaced; this word was found.
    Refused(u64),
}

/// Whether `reply` is of the kind that `access` brings back.
pub open spec fn answers(access: Access, reply: Reply) -> bool {
    match access {
        Access::LoadThreshold | Access::SubThreshold => reply is Level,
        Access::StoreThreshold { .. } => reply is Stored,
        Access::SwapTail { .. } | Access::SwapSlot { .. } => reply is Swapped || reply is Refused,
        _ => reply is Word,
    }
}

/// Whether the access stays within a ring of the given number of slots.
pub open spec fn in_bounds(access: Access, slots: int) -> bool {
    match access {
        Access::LoadSlot { slot } => slot < slots,
        Access::OrSlot { slot, .. } => slot < slots,
        Access::SwapSlot { slot, .. } => slot < slots,
        _ => true,
    }
}

/// The number of slots of a ring of the given order, as a word.
pub open spec fn slots(order: usize) -> u64 {
    two_to(order + 1) as u64
}

/// Whether a ring of this order can exist.
pub open spec fn ring_order(order: usize) -> bool {
    addressable(order + 1)
}

/// The threshold of a ring that has just been given an index.
pub open spec fn full_threshold(order: usize) -> int {
    two_to(order as int) + two_to(order + 1) - 1
}

/// The word that an enqueue of `index` at `position` writes.
pub open spec fn written_word(position: u64, index: u64, order: usize) -> u64 {
    encode(position_cycle(position as int, slots(order)), true, index as int, slots(order)) as u64
}

/// The counter after `x`.
pub open spec fn following(x: u64) -> u64 {
    moved(x, 1)
}

/// The level below `x`.
pub open spec fn preceding(x: i64) -> i64 {
    if x == i64::MIN {
        i64::MAX
    } else {
        (x - 1) as i64
    }
}

/// How the number of slots, the order and the threshold fit together.
pub proof fn lemma_slots(order: usize)
    requires
        ring_order(order),
    ensures
        slots(order) == two_to(order + 1),
        slots(order) == 2 * two_to(order as int),
        ring_size(slots(order)),
        2 <= slots(order) <= 0x800_0000_0000_0000,
        slots(order) <= usize::MAX,
        1 <= full_threshold(order) < 0x1000_0000_0000_0000,
        order < 64,
        order + 6 <= usize::BITS,
{
    lemma_addressable(order + 1);
    lemma_two_to(order as int);
    lemma_two_to(order + 1);
}

/// Law: a ring has twice as many slots as its nominal capacity, and its full threshold is one less
/// than three times this capacity.
pub proof fn law_ring_sizes(order: usize)
    requires
        ring_order(order),
    ensures
        slots(order) == 2 * vstd::arithmetic::power2::pow2(order as nat),
        full_threshold(order) == 3 * vstd::arithmetic::power2::pow2(order as nat) - 1,
{
    lemma_slots(order);
}

/// Law: the word that an enqueue writes, bit by bit. Above the bits for the slots stands the
/// position's cycle, below them the index, and the bit in between is set.
pub proof fn law_written_words(position: u64, index: u64, order: usize)
    requires
        ring_order(order),
        index < slots(order),
    ensures
        ({
            let n = slots(order);
            let w = written_word(position, index, order);
            &&& w & ((n - 1) as u64) == index
            &&& w & n == n
            &&& w | ((2 * n - 1) as u64) == (position << 1) | ((2 * n - 1) as u64)
        }),
{
    lemma_slots(order);
    let n = slots(order);
    let cycle = position_cycle(position as int, n);
    let w = written_word(position, index, order);
    lemma_position_cycle(position as int, n);
    lemma_word_parts(position as int, index as int, n);
    lemma_entry(w, n);
    lemma_position_tag(position, n);
    assert(w & n == n) by {
        let v = w & !n;
        assert(v != w);
        let _ = lemma_ring_size(n);
        assert(w & n == n) by (bit_vector)
            requires
                n & ((n - 1) as u64) == 0,
                0 < n,
                w & !n != w,
        ;
    }
}

/// The number of slots of a ring.
pub(crate) fn slot_count(order: usize) -> (n: u64)
    requires
        ring_order(order),
    ensures
        n == slots(order),
{
    proof {
        lemma_slots(order);
    }
    pow2(order + 1) as u64
}

/// The slot of a position.
pub(crate) fn slot_at(position: u64, order: usize) -> (slot: usize)
    requires
        ring_order(order),
    ensures
        slot == slot_of(position as int, order + 1),
        slot < slots(order),
{
    proof {
        lemma_slots(order);
        lemma_slot_in_ring(position as int, order + 1);
    }
    crate::position::map(position, order, pow2(order + 1))
}

/// The threshold of a ring that has just been given an index.
pub(crate) fn threshold_of(order: usize) -> (r: i64)
    requires
        ring_order(order),
    ensures
        r == full_threshold(order),
{
    proof {
        lemma_slots(order);
        lemma_addressable(order + 1);
    }
    threshold_value(pow2(order), pow2(order + 1))
}

/// The shared words of a ring.
pub struct Memory {
    pub head: u64,
    pub tail: u64,
    pub threshold: i64,
    pub array: Seq<u64>,
}

impl Memory {
    /// The words after an access that takes effect.
    pub open spec fn after(self, access: Access) -> Memory {
        match access {
            Access::AddHead => Memory { head: following(self.head), ..self },
            Access::AddTail => Memory { tail: following(self.tail), ..self },
            Access::SwapTail { expected, new } => if self.tail == expected {
                Memory { tail: new, ..self }
            } else {
                self
            },
            Access::StoreThreshold { value } => Memory { threshold: value, ..self },
            Access::SubThreshold => Memory { threshold: preceding(self.threshold), ..self },
            Access::OrSlot { slot, bits } => Memory {
                array: self.array.update(slot as int, self.array[slot as int] | bits),
                ..self
            },
            Access::SwapSlot { slot, expected, new } => if self.array[slot as int] == expected {
                Memory { array: self.array.update(slot as int, new), ..self }
            } else {
                self
            },
            _ => self,
        }
    }

    /// What an access that takes effect brings back.
    pub open spec fn reply(self, access: Access) -> Reply {
        match access {
            Access::LoadHead | Access::AddHead => Reply::Word(self.head),
            Access::LoadTail | Access::AddTail => Reply::Word(self.tail),
            Access::SwapTail { expected, .. } => if self.tail == expected {
                Reply::Swapped
            } else {
                Reply::Refused(self.tail)
            },
            Access::LoadThreshold | Access::SubThreshold => Reply::Level(self.threshold),
            Access::StoreThreshold { .. } => Reply::Stored,
            Access::LoadSlot { slot } => Reply::Word(self.array[slot as int]),
            Access::OrSlot { slot, .. } => Reply::Word(self.array[slot as int]),
            Access::SwapSlot { slot, expected, .. } => if self.array[slot as int] == expected {
                Reply::Swapped
            } else {
                Reply::Refused(self.array[slot as int])
            },
        }
    }
}

} // verus!
