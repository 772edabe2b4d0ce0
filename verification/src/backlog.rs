//! A channel as its users see it.
use vstd::prelude::*;
use crate::scqd_f::{SCQD_CACHE_SIZE, SCQD_INDEX_BLOCK_SIZE};

verus! {

/// What waits in a channel.
pub struct Backlog<T> {
    /// The values that have been pushed and not been popped, the oldest first.
    pub items: Seq<T>,
    /// The number of free slots whose indices the receiver keeps in its cache, out of the
    /// transmitter's reach.
    pub parked: int,
    /// The number of slots.
    pub slots: int,
}

impl<T> Backlog<T> {
    /// Whether the channel can be in this state.
    pub open spec fn valid(self) -> bool {
        &&& 0 <= self.parked < SCQD_CACHE_SIZE
        &&& self.items.len() + self.parked <= self.slots
    }

    /// Whether the transmitter finds a free slot.
    pub open spec fn accepts(self) -> bool {
        self.items.len() + self.parked < self.slots
    }

    /// The state after a value has been accepted.
    pub open spec fn pushed(self, val: T) -> Backlog<T> {
        Backlog { items: self.items.push(val), ..self }
    }

    /// The value that the receiver gets.
    pub open spec fn front(self) -> Option<T> {
        if self.items.len() > 0 {
            Some(self.items[0])
        } else {
            None
        }
    }

    /// The state after the receiver has asked for a value. A full cache gives half of its indices
    /// back.
    pub open spec fn popped(self) -> Backlog<T> {
        if self.items.len() > 0 {
            Backlog {
                items: self.items.drop_first(),
                parked: if self.parked + 1 == SCQD_CACHE_SIZE {
                    SCQD_INDEX_BLOCK_SIZE as int
                } else {
                    self.parked + 1
                },
                ..self
            }
        } else {
            self
        }
    }

    /// The state after all these values have been pushed in turn.
    pub open spec fn pushed_all(self, vals: Seq<T>) -> Backlog<T>
        decreases vals.len(),
    {
        if vals.len() == 0 {
            self
        } else {
            self.pushed_all(vals.drop_last()).pushed(vals.last())
        }
    }

    /// Whether all these values are accepted, if they are pushed in turn.
    pub open spec fn accepts_all(self, vals: Seq<T>) -> bool
        decreases vals.len(),
    {
        vals.len() == 0 || self.accepts_all(vals.drop_last()) && self.pushed_all(
            vals.drop_last(),
        ).accepts()
    }

    /// The state after the receiver has asked this often.
    pub open spec fn popped_times(self, count: nat) -> Backlog<T>
        decreases count,
    {
        if count == 0 {
            self
        } else {
            self.popped_times((count - 1) as nat).popped()
        }
    }
}

/// Law: pushing an accepted value and popping lead from one valid state to another.
pub proof fn law_states_stay_valid<T>(b: Backlog<T>, val: T)
    requires
        b.valid(),
    ensures
        b.accepts() ==> b.pushed(val).valid(),
        b.popped().valid(),
{
}

/// Pushing values in turn appends them.
proof fn lemma_pushed_all<T>(b: Backlog<T>, vals: Seq<T>)
    ensures
        b.pushed_all(vals) == (Backlog { items: b.items + vals, ..b }),
    decreases vals.len(),
{
    if vals.len() == 0 {
        assert(b.items + vals =~= b.items);
    } else {
        lemma_pushed_all(b, vals.drop_last());
        assert(b.items + vals =~= (b.items + vals.drop_last()).push(vals.last()));
    }
}

/// Popping takes values from the front.
proof fn lemma_popped_times<T>(b: Backlog<T>, count: nat)
    requires
        count <= b.items.len(),
    ensures
        b.popped_times(count).items == b.items.skip(count as int),
    decreases count,
{
    if count == 0 {
        assert(b.items.skip(0) =~= b.items);
    } else {
        lemma_popped_times(b, (count - 1) as nat);
        assert(b.items.skip(count - 1).drop_first() =~= b.items.skip(count as int));
    }
}

/// Law: first in, first out. If values are pushed in turn, the pops that follow return first what
/// was waiting before, and then these values in the order in which they were pushed.
pub proof fn law_fifo<T>(b: Backlog<T>, vals: Seq<T>, k: nat)
    requires
        k < vals.len(),
    ensures
        b.pushed_all(vals).popped_times(b.items.len() + k).front() == Some(vals[k as int]),
        forall|i: int|
            0 <= i < b.items.len() ==> #[trigger] b.pushed_all(vals).popped_times(
                i as nat,
            ).front() == Some(b.items[i]),
{
    lemma_pushed_all(b, vals);
    let c = b.pushed_all(vals);
    lemma_popped_times(c, b.items.len() + k);
    assert forall|i: int| 0 <= i < b.items.len() implies #[trigger] b.pushed_all(
        vals,
    ).popped_times(i as nat).front() == Some(b.items[i]) by {
        lemma_popped_times(c, i as nat);
    }
}

/// Law: once every value has been popped, the next pop finds nothing.
pub proof fn law_drained_is_empty<T>(b: Backlog<T>)
    ensures
        b.popped_times(b.items.len()).front() is None,
{
    lemma_popped_times(b, b.items.len());
}

/// Law: values are accepted as long as they fit into the slots that are neither taken nor parked,
/// and no longer.
pub proof fn law_capacity<T>(b: Backlog<T>, vals: Seq<T>)
    ensures
        b.accepts_all(vals) <==> vals.len() == 0 || b.items.len() + vals.len() + b.parked
            <= b.slots,
    decreases vals.len(),
{
    if vals.len() > 0 {
        law_capacity(b, vals.drop_last());
        lemma_pushed_all(b, vals.drop_last());
    }
}

/// Law: a push is refused only when fewer than a cache's worth of slots is free.
pub proof fn law_refused_only_when_nearly_full<T>(b: Backlog<T>)
    requires
        b.valid(),
        !b.accepts(),
    ensures
        b.slots - b.items.len() < SCQD_CACHE_SIZE,
{
}

/// Law: a channel with more than sixteen slots that has nothing waiting accepts a value.
pub proof fn law_empty_channel_accepts<T>(b: Backlog<T>)
    requires
        b.valid(),
        b.slots >= SCQD_CACHE_SIZE,
        b.items.len() == 0,
    ensures
        b.accepts(),
{
}

/// Law: pushing and popping do not get in each other's way. On a channel that has something waiting
/// and accepts a value, both orders lead to the same state, and the receiver gets the same value.
pub proof fn law_push_and_pop_commute<T>(b: Backlog<T>, val: T)
    requires
        b.items.len() > 0,
    ensures
        b.pushed(val).popped() == b.popped().pushed(val),
        b.pushed(val).front() == b.front(),
{
    assert(b.items.push(val).drop_first() =~= b.items.drop_first().push(val));
}

} // verus!
