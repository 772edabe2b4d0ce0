//! The queue at one fixed size, with operations that are named for trying.
use vstd::prelude::*;
use crate::contents::memory_span;
use crate::scqd_f::{fits, pop_leads, push_leads, Handle, Queue};

verus! {

/// Log2 of the number of slots.
pub const SCQD_ORDER: usize = 18;

/// The transmitting end of a channel.
pub struct Tx {
    end: crate::scqd_f::Tx,
}

/// The receiving end of a channel.
pub struct Rx {
    end: crate::scqd_f::Rx,
}

impl Tx {
    /// What this end keeps.
    pub closed spec fn cache(self) -> Handle {
        self.end.cache()
    }

    /// Whether this is the transmitting end of the channel that `queue` belongs to.
    pub open spec fn of<T>(self, queue: Queue<T>) -> bool {
        self.cache().wf() && self.cache().held() == queue.tx_held()
    }

    /// Puts a value at the end of the queue. Gives the value back if no free index is available.
    pub fn try_enqueue<T>(&mut self, queue: &mut Queue<T>, val: T) -> (result: Result<(), T>)
        requires
            old(queue).wf(),
            old(self).of(*old(queue)),
            old(queue).recent(memory_span()),
        ensures
            final(queue).wf(),
            forall|within: int|
                0 <= within && #[trigger] old(queue).recent(within) ==> final(queue).recent(
                    within + 1,
                ),
            final(self).of(*final(queue)),
            final(queue).rx_held() == old(queue).rx_held(),
            (result is Ok) <==> old(queue)@.items.len() + old(queue)@.parked < old(queue)@.slots,
            result is Ok ==> final(queue)@.items == old(queue)@.items.push(val),
            result is Err ==> result == Err::<(), T>(val) && final(queue)@.items
                == old(queue)@.items && final(self).cache() == old(self).cache(),
            final(queue)@.parked == old(queue)@.parked,
            final(queue)@.slots == old(queue)@.slots,
            push_leads(
                old(self).cache(),
                *old(queue),
                val,
                result,
                final(self).cache(),
                *final(queue),
            ),
    {
        self.end.push(queue, val)
    }

    /// Says that nothing more will be sent. The channel keeps no record of it, so the receiver
    /// notices nothing.
    pub fn close(&self) {
    }
}

impl Rx {
    /// What this end keeps.
    pub closed spec fn cache(self) -> Handle {
        self.end.cache()
    }

    /// Whether this is the receiving end of the channel that `queue` belongs to.
    pub open spec fn of<T>(self, queue: Queue<T>) -> bool {
        self.cache().wf() && self.cache().held() == queue.rx_held()
    }

    /// Takes the oldest value out of the queue, if there is one.
    pub fn try_dequeue<T>(&mut self, queue: &mut Queue<T>) -> (result: Option<T>)
        requires
            old(queue).wf(),
            old(self).of(*old(queue)),
            old(queue).recent(memory_span()),
        ensures
            final(queue).wf(),
            forall|within: int|
                0 <= within && #[trigger] old(queue).recent(within) ==> final(queue).recent(
                    within + 1,
                ),
            final(self).of(*final(queue)),
            final(queue).tx_held() == old(queue).tx_held(),
            old(queue)@.items.len() > 0 ==> result == Some(old(queue)@.items[0])
                && final(queue)@.items == old(queue)@.items.drop_first() && final(queue)@.parked
                == (if old(queue)@.parked == 31 {
                16
            } else {
                old(queue)@.parked + 1
            }),
            old(queue)@.items.len() == 0 ==> result is None && final(queue)@.items
                == old(queue)@.items && final(queue)@.parked == old(queue)@.parked
                && final(self).cache() == old(self).cache(),
            final(queue)@.slots == old(queue)@.slots,
            pop_leads(old(self).cache(), *old(queue), result, final(self).cache(), *final(queue)),
    {
        self.end.pop(queue)
    }
}

/// A channel: the queue, and its two ends.
pub fn channel<T>() -> (channel: (Queue<T>, Tx, Rx))
    requires
        fits::<T>(SCQD_ORDER),
    ensures
        channel.0.wf(),
        channel.1.of(channel.0),
        channel.2.of(channel.0),
        channel.0@.items == Seq::<T>::empty(),
        channel.0@.parked == 0,
        channel.0@.slots == 0x4_0000,
        channel.0.fresh(SCQD_ORDER),
        channel.0.recent(0x8_0000),
        channel.1.cache().blank(),
        channel.2.cache().blank(),
{
    proof {
        vstd::arithmetic::power2::lemma2_to64();
        vstd::arithmetic::power2::lemma2_to64_rest();
    }
    let (queue, tx, rx) = crate::scqd_f::open(SCQD_ORDER);
    (queue, Tx { end: tx }, Rx { end: rx })
}

} // verus!
