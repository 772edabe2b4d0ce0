//! A FIFO queue with a fixed number of value slots.
//!
//! Values lie in an array of slots. Three rings manage the indices of these slots:
//! - `aq` holds the indices of the queued values, in order;
//! - `fq1` holds the ids of blocks of free indices;
//! - `fq2` holds the ids of blocks whose indices have been handed out.
//!
//! The transmitter takes free indices a block at a time into a cache of its own. The receiver
//! collects the indices of the values it has taken out in a cache too, and returns them a block at
//! a time.
use std::mem::ManuallyDrop;
use vstd::prelude::*;
use vstd::arithmetic::power2::{
    lemma2_to64, lemma2_to64_rest, lemma_pow2_strictly_increases, lemma_pow2_unfold,
};
use vstd::std_specs::bits::u64_leading_zeros;
use crate::access::{lemma_slots, ring_order, slots};
use crate::backlog::{law_capacity, Backlog};
use crate::dequeue::LFRING_EMPTY;
use crate::layout::{
    initial_places, law_indices_move, lemma_fresh, lemma_layout_sizes, lemma_lent, lemma_popped,
    lemma_pushed, lemma_reclaimed, Layout, Place,
};
use crate::contents::{lemma_recent, memory_span};
use crate::lfring::{lemma_ages_by_one, LFRing};
use crate::position::{lemma_two_to, lemma_two_to_adds, pow2, two_to};

verus! {

/// Indices per block.
pub const SCQD_INDEX_BLOCK_SIZE: usize = 16;

/// Indices that a cache has room for.
pub const SCQD_CACHE_SIZE: usize = 32;

/// Log2 of the number of slots of a queue that is asked for no particular capacity.
pub const DEFAULT_SCQD_ORDER: usize = 18;

/// Whether `order` is the smallest order, from 4 up, of a queue with room for `capacity` items; a
/// capacity of zero asks for the default order.
pub open spec fn order_for(capacity: usize, order: usize) -> bool {
    if capacity == 0 {
        order == DEFAULT_SCQD_ORDER
    } else {
        4 <= order && capacity <= two_to(order as int) && (order > 4 ==> two_to(order - 1)
            < capacity)
    }
}

proof fn lemma_leading_zeros(i: u64)
    ensures
        0 <= u64_leading_zeros(i) <= 64,
        i < two_to(64 - u64_leading_zeros(i)),
        i > 0 ==> u64_leading_zeros(i) < 64 && two_to(63 - u64_leading_zeros(i)) <= i,
    decreases i,
{
    reveal(u64_leading_zeros);
    lemma2_to64();
    lemma2_to64_rest();
    if i > 0 {
        lemma_leading_zeros(i / 2);
        let bits = 64 - u64_leading_zeros(i / 2);
        if bits < 64 {
            lemma_two_to(bits);
        }
        if bits > 0 {
            lemma_two_to(bits - 1);
        }
        reveal_with_fuel(u64_leading_zeros, 2);
    }
}

/// The order of a queue for `capacity` items: the capacity is rounded up to a power of two, and to
/// sixteen slots at least.
pub fn capacity_to_order(capacity: usize) -> (order: usize)
    ensures
        order_for(capacity, order),
        capacity == 0 ==> order == 18,
        capacity > 0 ==> 4 <= order <= 64,
        capacity > 0 ==> capacity <= vstd::arithmetic::power2::pow2(order as nat),
        capacity > 0 && order > 4 ==> vstd::arithmetic::power2::pow2((order - 1) as nat) < capacity,
{
    if capacity == 0 {
        return DEFAULT_SCQD_ORDER;
    }
    let largest: u64 = (capacity - 1) as u64;
    proof {
        lemma_leading_zeros(largest);
        lemma2_to64();
        if largest > 0 {
            lemma_two_to(63 - u64_leading_zeros(largest));
        }
    }
    let bits_needed: usize = 64 - largest.leading_zeros() as usize;
    if bits_needed < 4 {
        proof {
            lemma_pow2_strictly_increases(bits_needed as nat, 4);
        }
        4
    } else {
        bits_needed
    }
}

/// A cache of free indices: a stack.
pub struct Handle {
    owned_cache: Vec<usize>,
    local_size: usize,
}

impl Handle {
    /// All entries of the cache, those that are not in use included.
    pub closed spec fn entries(self) -> Seq<usize> {
        self.owned_cache@
    }

    /// The number of entries in use.
    pub closed spec fn size(self) -> int {
        self.local_size as int
    }

    /// The indices in the cache, the one that was put in last at the end.
    pub open spec fn held(self) -> Seq<usize> {
        self.entries().take(self.size())
    }

    pub open spec fn wf(self) -> bool {
        self.entries().len() == SCQD_CACHE_SIZE && 0 <= self.size() <= SCQD_CACHE_SIZE
    }

    /// Whether this is a new cache: it holds nothing, and its entries are zero.
    pub open spec fn blank(self) -> bool {
        self.size() == 0 && self.entries() == Seq::new(SCQD_CACHE_SIZE as nat, |i: int| 0usize)
    }

    /// A cache that holds nothing.
    pub fn new() -> (handle: Self)
        ensures
            handle.wf(),
            handle.blank(),
            handle.held() == Seq::<usize>::empty(),
    {
        let mut owned_cache: Vec<usize> = Vec::new();
        let mut i: usize = 0;
        while i < SCQD_CACHE_SIZE
            invariant
                i <= SCQD_CACHE_SIZE,
                owned_cache@ =~= Seq::new(i as nat, |j: int| 0usize),
            decreases SCQD_CACHE_SIZE - i,
        {
            owned_cache.push(0);
            i = i + 1;
        }
        Handle { owned_cache, local_size: 0 }
    }

    /// The number of indices in the cache.
    pub fn len(&self) -> (len: usize)
        requires
            self.wf(),
        ensures
            len == self.held().len(),
            len == self.size(),
            len <= SCQD_CACHE_SIZE,
    {
        self.local_size
    }

    /// Takes out the index that was put in last.
    pub fn take(&mut self) -> (index: Option<usize>)
        requires
            old(self).wf(),
        ensures
            final(self).wf(),
            final(self).entries() == old(self).entries(),
            match index {
                Some(index) => old(self).held() == final(self).held().push(index),
                None => old(self).held().len() == 0 && *final(self) == *old(self),
            },
    {
        if self.local_size == 0 {
            return None;
        }
        self.local_size = self.local_size - 1;
        let index: usize = self.owned_cache[self.local_size];
        assert(old(self).held() =~= self.held().push(index));
        Some(index)
    }

    /// Puts an index in. Returns whether there was room.
    pub fn put(&mut self, index: usize) -> (stored: bool)
        requires
            old(self).wf(),
        ensures
            final(self).wf(),
            stored == (old(self).held().len() < SCQD_CACHE_SIZE),
            stored ==> {
                &&& final(self).size() == old(self).size() + 1
                &&& final(self).held() == old(self).held().push(index)
                &&& final(self).entries() == old(self).entries().update(old(self).size(), index)
            },
            !stored ==> *final(self) == *old(self),
    {
        if self.local_size >= SCQD_CACHE_SIZE {
            return false;
        }
        self.owned_cache.set(self.local_size, index);
        self.local_size = self.local_size + 1;
        assert(self.held() =~= old(self).held().push(index));
        true
    }
}

/// Whether the values of a queue with `2^order` slots fit into the largest object that can be
/// allocated.
pub open spec fn fits<T>(order: usize) -> bool {
    vstd::layout::size_of::<T>() * two_to(order as int) <= isize::MAX
}

/// The shared part of a channel. Values that are still in it when it is dropped are given up
/// without being dropped themselves.
pub struct Queue<T> {
    order: usize,
    aq: Box<LFRing>,
    fq1: Box<LFRing>,
    fq2: Box<LFRing>,
    idx: Vec<usize>,
    val: Vec<Option<ManuallyDrop<T>>>,
    /// Where each slot's index is.
    places: Ghost<Seq<Place>>,
    /// What the transmitter's cache holds.
    tx_held: Ghost<Seq<usize>>,
    /// What the receiver's cache holds.
    rx_held: Ghost<Seq<usize>>,
}

/// Whether the ring can be relied on: it never overran, and it looks for what it holds.
spec fn attentive(ring: LFRing, order: usize) -> bool {
    &&& ring.wf(order)
    &&& ring.overrun() == 0
    &&& ring@.len() > 0 ==> ring.patience() >= 0
}

impl<T> View for Queue<T> {
    type V = Backlog<T>;

    closed spec fn view(&self) -> Backlog<T> {
        Backlog {
            items: self.items(),
            parked: self.rx_held@.len() as int,
            slots: two_to(self.order as int),
        }
    }
}

impl<T> Queue<T> {
    /// What each slot holds.
    pub closed spec fn stored(self) -> Seq<Option<T>> {
        self.val@.map_values(
            |cell: Option<ManuallyDrop<T>>|
                match cell {
                    Some(val) => Some(val@),
                    None => None,
                },
        )
    }

    /// The ring of the queued values' indices.
    pub closed spec fn value_ring(self) -> LFRing {
        *self.aq
    }

    /// The ring of the free blocks.
    pub closed spec fn free_ring(self) -> LFRing {
        *self.fq1
    }

    /// The ring of the blocks whose indices have been handed out.
    pub closed spec fn used_ring(self) -> LFRing {
        *self.fq2
    }

    /// Whether the words of all three rings date back no more than this many positions.
    pub open spec fn recent(self, within: int) -> bool {
        &&& self.value_ring().recent(within)
        &&& self.free_ring().recent(within)
        &&& self.used_ring().recent(within)
    }

    /// The queued values, the oldest first.
    spec fn items(self) -> Seq<T> {
        Seq::new(self.aq@.len(), |k: int| self.stored()[self.aq@[k] as int]->0)
    }

    /// Which index is where.
    pub closed spec fn layout(self) -> Layout {
        Layout {
            order: self.order,
            aq: self.aq@,
            fq1: self.fq1@,
            fq2: self.fq2@,
            tx: self.tx_held@,
            rx: self.rx_held@,
            idx: self.idx@,
            places: self.places@,
        }
    }

    spec fn block_order(self) -> usize {
        (self.order - 4) as usize
    }

    spec fn consistent(self) -> bool {
        &&& self.layout().consistent()
        &&& attentive(*self.aq, self.order)
        &&& attentive(*self.fq1, self.block_order())
        &&& attentive(*self.fq2, self.block_order())
        &&& self.val@.len() == two_to(self.order as int)
        &&& forall|k: int|
            0 <= k < self.aq@.len() ==> self.stored()[#[trigger] self.aq@[k] as int] is Some
    }

    /// Whether every index is in exactly one place, and the caches are as full as they get between
    /// two operations.
    pub closed spec fn wf(self) -> bool {
        &&& self.consistent()
        &&& self.tx_held@.len() < SCQD_INDEX_BLOCK_SIZE
        &&& self.rx_held@.len() < SCQD_CACHE_SIZE
    }

    /// The free indices in the transmitter's cache.
    pub open spec fn tx_held(self) -> Seq<usize> {
        self.layout().tx
    }

    /// The free indices in the receiver's cache.
    pub open spec fn rx_held(self) -> Seq<usize> {
        self.layout().rx
    }

    /// Whether this is a new queue of `2^order` slots: nothing has been put in any slot or taken
    /// from any ring, and entry `i` of the blocks is the index `i`.
    pub open spec fn fresh(self, order: usize) -> bool {
        &&& self.layout().fresh(order)
        &&& self.value_ring().fresh(order)
        &&& self.free_ring().fresh((order - 4) as usize)
        &&& self.used_ring().fresh((order - 4) as usize)
        &&& self.stored() == Seq::new(two_to(order as int) as nat, |i: int| None::<T>)
    }

    /// What holds of a channel between two operations: it is in a valid state, every index is kept
    /// in exactly one place, and the values lie in the slots whose indices are queued.
    pub proof fn lemma_wf(self)
        requires
            self.wf(),
        ensures
            self@.valid(),
            self.layout().consistent(),
            self.layout().slots() == self@.slots,
            self.layout().aq.len() == self@.items.len(),
            self.rx_held().len() == self@.parked,
            self.tx_held().len() < SCQD_INDEX_BLOCK_SIZE,
            self.stored().len() == self@.slots,
            forall|k: int|
                0 <= k < self@.items.len() ==> self.stored()[#[trigger] self.layout().aq[k] as int]
                    == Some(self@.items[k]),
            self.value_ring()@ == self.layout().aq,
            self.free_ring()@ == self.layout().fq1,
            self.used_ring()@ == self.layout().fq2,
            self.value_ring().wf(self.layout().order),
            self.free_ring().wf((self.layout().order - 4) as usize),
            self.used_ring().wf((self.layout().order - 4) as usize),
    {
        lemma_layout_sizes(self.layout());
    }

    /// Moves a free block into the transmitter's cache. Returns whether there was one.
    fn lend_block(&mut self, handle: &mut Handle) -> (lent: bool)
        requires
            old(self).consistent(),
            old(self).free_ring().recent(memory_span()),
            old(self).used_ring().recent(memory_span()),
            old(handle).wf(),
            old(handle).held() == old(self).tx_held@,
            old(handle).held().len() == 0,
        ensures
            final(self).consistent(),
            final(handle).wf(),
            final(handle).held() == final(self).tx_held@,
            final(self).order == old(self).order,
            final(self).rx_held == old(self).rx_held,
            final(self).items() == old(self).items(),
            lent == (old(self).fq1@.len() > 0),
            final(self).val == old(self).val,
            final(self).aq == old(self).aq,
            old(self).free_ring().dequeue_leads(
                old(self).block_order(),
                false,
                if lent {
                    old(self).fq1@[0]
                } else {
                    LFRING_EMPTY
                },
                final(self).free_ring(),
            ),
            lent ==> {
                &&& final(self).layout() == old(self).layout().lent()
                &&& old(self).used_ring().enqueue_leads(
                    old(self).block_order(),
                    old(self).fq1@[0],
                    false,
                    true,
                    final(self).used_ring(),
                )
                &&& final(handle).entries() == final(self).tx_held@ + old(handle).entries().skip(16)
            },
            !lent ==> {
                &&& final(self).layout() == old(self).layout()
                &&& final(self).fq2 == old(self).fq2
                &&& *final(handle) == *old(handle)
            },
    {
        let ghost before = self.layout();
        proof {
            lemma_layout_sizes(before);
            self.fq1.lemma_wf(self.block_order());
        }
        let block_order: usize = self.order - 4;
        let bidx: usize = self.fq1.dequeue(block_order, false);
        if bidx == LFRING_EMPTY {
            assert(self.items() =~= old(self).items());
            return false;
        }
        let start: usize = bidx * SCQD_INDEX_BLOCK_SIZE;
        let mut i: usize = 0;
        while i < SCQD_INDEX_BLOCK_SIZE
            invariant
                i <= 16,
                handle.wf(),
                start == 16 * bidx,
                start + 16 <= self.idx@.len(),
                handle.size() == i,
                handle.held() =~= Seq::new(i as nat, |j: int| self.idx@[start + j]),
                handle.entries().skip(16) =~= old(handle).entries().skip(16),
            decreases 16 - i,
        {
            let stored: bool = handle.put(self.idx[start + i]);
            i = i + 1;
        }
        let enqueued: bool = self.fq2.enqueue(block_order, bidx, false);
        assert(enqueued);
        proof {
            lemma_lent(before);
            let after = before.lent();
            self.tx_held@ = after.tx;
            self.places@ = after.places;
            assert(handle.held() =~= after.tx);
            assert(handle.entries() =~= after.tx + old(handle).entries().skip(16));
            assert(self.layout() == after);
            assert(self.items() =~= old(self).items());
        }
        true
    }

    /// Returns the upper half of the receiver's full cache as a free block.
    fn reclaim_block(&mut self, handle: &mut Handle)
        requires
            old(self).consistent(),
            old(self).free_ring().recent(memory_span()),
            old(self).used_ring().recent(memory_span()),
            old(handle).wf(),
            old(handle).held() == old(self).rx_held@,
            old(handle).held().len() == SCQD_CACHE_SIZE,
        ensures
            final(self).consistent(),
            final(handle).wf(),
            final(handle).held() == final(self).rx_held@,
            final(self).order == old(self).order,
            final(self).tx_held == old(self).tx_held,
            final(self).items() == old(self).items(),
            final(self).layout() == old(self).layout().reclaimed(),
            final(self).val == old(self).val,
            final(self).aq == old(self).aq,
            old(self).used_ring().dequeue_leads(
                old(self).block_order(),
                false,
                old(self).fq2@[0],
                final(self).used_ring(),
            ),
            old(self).free_ring().enqueue_leads(
                old(self).block_order(),
                old(self).fq2@[0],
                false,
                true,
                final(self).free_ring(),
            ),
            final(handle).entries() == old(handle).entries(),
    {
        let ghost before = self.layout();
        proof {
            lemma_layout_sizes(before);
            self.fq2.lemma_wf(self.block_order());
        }
        let block_order: usize = self.order - 4;
        let bidx: usize = self.fq2.dequeue(block_order, false);
        assert(bidx != LFRING_EMPTY);
        let start: usize = bidx * SCQD_INDEX_BLOCK_SIZE;
        let mut i: usize = SCQD_INDEX_BLOCK_SIZE;
        while i > 0
            invariant
                i <= 16,
                handle.wf(),
                start == 16 * bidx,
                start + 16 <= self.idx@.len(),
                self.idx@.len() == before.idx.len(),
                before.rx.len() == 32,
                handle.held() =~= before.rx.take(16 + i),
                handle.entries() == old(handle).entries(),
                forall|j: int|
                    0 <= j < before.idx.len() ==> #[trigger] self.idx@[j] == (if start + i <= j
                        < start + 16 {
                        before.rx[j - start + 16]
                    } else {
                        before.idx[j]
                    }),
                self.aq == old(self).aq,
                self.val == old(self).val,
                self.order == old(self).order,
                self.tx_held == old(self).tx_held,
                self.places == old(self).places,
                self.fq1 == old(self).fq1,
                bidx == old(self).fq2@[0],
                block_order == old(self).block_order(),
                old(self).used_ring().dequeue_leads(block_order, false, bidx, self.used_ring()),
                attentive(*self.fq2, block_order),
                self.fq2@ == old(self).fq2@.drop_first(),
            decreases i,
        {
            i = i - 1;
            let ghost held = handle.held();
            match handle.take() {
                Some(index) => {
                    proof {
                        assert(held.last() == index);
                        assert(handle.held() =~= held.drop_last());
                    }
                    self.idx.set(start + i, index);
                },
                None => {},
            }
        }
        let enqueued: bool = self.fq1.enqueue(block_order, bidx, false);
        assert(enqueued);
        proof {
            lemma_reclaimed(before);
            let after = before.reclaimed();
            self.rx_held@ = after.rx;
            self.places@ = after.places;
            assert(self.idx@ =~= after.idx);
            assert(self.layout() == after);
            assert(self.items() =~= old(self).items());
        }
    }

    /// A queue of `2^order` slots, all of them free.
    pub fn new(order: usize) -> (queue: Self)
        requires
            4 <= order,
            ring_order(order),
            fits::<T>(order),
        ensures
            queue.wf(),
            queue@ == (Backlog {
                items: Seq::<T>::empty(),
                parked: 0,
                slots: two_to(order as int),
            }),
            queue.fresh(order),
            queue.recent(two_to(order + 1)),
    {
        proof {
            lemma_slots(order);
            lemma_two_to(order as int);
            lemma_two_to(order - 4);
            lemma_two_to_adds(4, order - 4);
            lemma2_to64();
        }
        let total_slots: usize = pow2(order);
        let aq: Box<LFRing> = LFRing::init_empty(order);
        let fq1: Box<LFRing> = LFRing::init_full(order - 4);
        let fq2: Box<LFRing> = LFRing::init_empty(order - 4);
        let mut idx: Vec<usize> = Vec::with_capacity(total_slots);
        let mut val: Vec<Option<ManuallyDrop<T>>> = Vec::with_capacity(total_slots);
        let mut i: usize = 0;
        while i < total_slots
            invariant
                i <= total_slots,
                idx@ =~= Seq::new(i as nat, |j: int| j as usize),
                val@ =~= Seq::new(i as nat, |j: int| None::<ManuallyDrop<T>>),
            decreases total_slots - i,
        {
            idx.push(i);
            val.push(None);
            i = i + 1;
        }
        let queue: Queue<T> = Queue {
            order,
            aq,
            fq1,
            fq2,
            idx,
            val,
            places: Ghost(initial_places(order)),
            tx_held: Ghost(Seq::empty()),
            rx_held: Ghost(Seq::empty()),
        };
        proof {
            lemma_fresh(queue.layout(), order);
            lemma_layout_sizes(queue.layout());
            let block_slots = slots((order - 4) as usize) as int;
            lemma_slots((order - 4) as usize);
            lemma_slots(order);
            assert(block_slots == 2 * two_to(order - 4));
            assert(two_to(order + 1) == 2 * two_to(order as int));
            assert(two_to(order as int) == 16 * two_to(order - 4));
            assert(block_slots <= two_to(order + 1));
            lemma_recent(queue.fq1.contents(), block_slots, two_to(order + 1));
            lemma_recent(queue.fq2.contents(), block_slots, two_to(order + 1));
            assert(queue.stored() =~= Seq::new(total_slots as nat, |i: int| None::<T>));
            assert(queue.items() =~= Seq::<T>::empty());
        }
        queue
    }
}

/// What a push does to the transmitter's cache and the queue. It succeeds if and only if the
/// channel accepts a value. The value then goes into the slot whose index is on top of the cache,
/// which has been filled from the first free block if it held nothing. A refused push moves
/// nothing; it only costs the ring of free blocks some of its patience.
pub open spec fn push_leads<T>(
    cache: Handle,
    queue: Queue<T>,
    val: T,
    result: Result<(), T>,
    cache_after: Handle,
    queue_after: Queue<T>,
) -> bool {
    let layout = queue.layout();
    let block_order = (layout.order - 4) as usize;
    &&& result is Ok <==> queue@.accepts()
    &&& match result {
        Ok(_) => {
            let index = queue_after.layout().aq.last();
            &&& queue_after@ == queue@.pushed(val)
            &&& queue_after.stored() == queue.stored().update(index as int, Some(val))
            &&& queue.value_ring().enqueue_leads(
                layout.order,
                index,
                false,
                true,
                queue_after.value_ring(),
            )
            &&& if queue.tx_held().len() > 0 {
                &&& queue_after.layout() == layout.pushed()
                &&& queue_after.free_ring() == queue.free_ring()
                &&& queue_after.used_ring() == queue.used_ring()
                &&& cache_after.entries() == cache.entries()
            } else {
                let block = layout.fq1[0];
                &&& queue_after.layout() == layout.lent().pushed()
                &&& queue.free_ring().dequeue_leads(
                    block_order,
                    false,
                    block,
                    queue_after.free_ring(),
                )
                &&& queue.used_ring().enqueue_leads(
                    block_order,
                    block,
                    false,
                    true,
                    queue_after.used_ring(),
                )
                &&& cache_after.entries() == layout.lent().tx + cache.entries().skip(16)
            }
        },
        Err(refused) => {
            &&& refused == val
            &&& queue.tx_held().len() == 0
            &&& layout.fq1.len() == 0
            &&& queue_after@ == queue@
            &&& queue_after.layout() == layout
            &&& queue_after.stored() == queue.stored()
            &&& queue_after.value_ring() == queue.value_ring()
            &&& queue_after.used_ring() == queue.used_ring()
            &&& queue.free_ring().dequeue_leads(
                block_order,
                false,
                LFRING_EMPTY,
                queue_after.free_ring(),
            )
            &&& cache_after == cache
        },
    }
}

/// What a pop does to the receiver's cache and the queue. It takes the oldest value out of its
/// slot, and the slot's index goes on top of the cache. If this fills the cache, its upper half
/// goes back to the free blocks. A pop that finds nothing moves nothing; it only costs the ring of
/// queued values some of its patience.
pub open spec fn pop_leads<T>(
    cache: Handle,
    queue: Queue<T>,
    result: Option<T>,
    cache_after: Handle,
    queue_after: Queue<T>,
) -> bool {
    let layout = queue.layout();
    let block_order = (layout.order - 4) as usize;
    let index = if result is None {
        LFRING_EMPTY
    } else {
        layout.aq[0]
    };
    &&& result == queue@.front()
    &&& queue_after@ == queue@.popped()
    &&& queue.value_ring().dequeue_leads(layout.order, false, index, queue_after.value_ring())
    &&& if result is None {
        &&& queue_after.layout() == layout
        &&& queue_after.stored() == queue.stored()
        &&& cache_after == cache
    } else {
        &&& queue_after.layout() == (if queue.rx_held().len() + 1 < SCQD_CACHE_SIZE {
            layout.popped()
        } else {
            layout.popped().reclaimed()
        })
        &&& queue_after.stored() == queue.stored().update(index as int, None)
        &&& cache_after.entries() == cache.entries().update(queue.rx_held().len() as int, index)
    }
    &&& if result is Some && queue.rx_held().len() + 1 == SCQD_CACHE_SIZE {
        let block = layout.fq2[0];
        &&& queue.used_ring().dequeue_leads(block_order, false, block, queue_after.used_ring())
        &&& queue.free_ring().enqueue_leads(
            block_order,
            block,
            false,
            true,
            queue_after.free_ring(),
        )
    } else {
        &&& queue_after.used_ring() == queue.used_ring()
        &&& queue_after.free_ring() == queue.free_ring()
    }
}

/// A push ages the rings by one position at most.
proof fn lemma_push_ages<T>(
    cache: Handle,
    queue: Queue<T>,
    val: T,
    result: Result<(), T>,
    cache_after: Handle,
    queue_after: Queue<T>,
)
    requires
        queue.consistent(),
        queue_after.consistent(),
        queue_after.order == queue.order,
        push_leads(cache, queue, val, result, cache_after, queue_after),
    ensures
        forall|within: int|
            0 <= within && #[trigger] queue.recent(within) ==> queue_after.recent(within + 1),
{
    let block_order = queue.block_order();
    lemma_ages_by_one(queue.value_ring(), queue_after.value_ring(), queue.order);
    lemma_ages_by_one(queue.free_ring(), queue_after.free_ring(), block_order);
    lemma_ages_by_one(queue.used_ring(), queue_after.used_ring(), block_order);
}

/// A pop ages the rings by one position at most.
proof fn lemma_pop_ages<T>(
    cache: Handle,
    queue: Queue<T>,
    result: Option<T>,
    cache_after: Handle,
    queue_after: Queue<T>,
)
    requires
        queue.consistent(),
        queue_after.consistent(),
        queue_after.order == queue.order,
        pop_leads(cache, queue, result, cache_after, queue_after),
    ensures
        forall|within: int|
            0 <= within && #[trigger] queue.recent(within) ==> queue_after.recent(within + 1),
{
    let block_order = queue.block_order();
    lemma_ages_by_one(queue.value_ring(), queue_after.value_ring(), queue.order);
    lemma_ages_by_one(queue.free_ring(), queue_after.free_ring(), block_order);
    lemma_ages_by_one(queue.used_ring(), queue_after.used_ring(), block_order);
}

/// The transmitting end of a channel.
pub struct Tx {
    handle: Handle,
}

/// The receiving end of a channel.
pub struct Rx {
    handle: Handle,
}

impl Tx {
    /// The transmitter's cache.
    pub closed spec fn cache(self) -> Handle {
        self.handle
    }

    /// Whether this is the transmitting end of the channel that `queue` belongs to.
    pub open spec fn of<T>(self, queue: Queue<T>) -> bool {
        self.cache().wf() && self.cache().held() == queue.tx_held()
    }

    /// Puts a value at the end of the queue. Gives the value back if no free slot is left: every
    /// slot has a value in it, or its index is in the receiver's cache.
    pub fn push<T>(&mut self, queue: &mut Queue<T>, val: T) -> (result: Result<(), T>)
        requires
            old(queue).wf(),
            old(self).of(*old(queue)),
            old(queue).recent(memory_span()),
        ensures
            final(queue).wf(),
            forall|within: int|
                0 <= within && #[trigger] old(queue).recent(within) ==> final(queue).recent(
                    within + 1,
                ),
            final(self).of(*final(queue)),
            final(queue).rx_held() == old(queue).rx_held(),
            (result is Ok) <==> old(queue)@.items.len() + old(queue)@.parked < old(queue)@.slots,
            result is Ok ==> final(queue)@.items == old(queue)@.items.push(val),
            result is Err ==> result == Err::<(), T>(val) && final(queue)@.items
                == old(queue)@.items && final(self).cache() == old(self).cache(),
            final(queue)@.parked == old(queue)@.parked,
            final(queue)@.slots == old(queue)@.slots,
            push_leads(
                old(self).cache(),
                *old(queue),
                val,
                result,
                final(self).cache(),
                *final(queue),
            ),
    {
        proof {
            lemma_layout_sizes(queue.layout());
        }
        if self.handle.len() == 0 {
            let lent: bool = queue.lend_block(&mut self.handle);
            if !lent {
                proof {
                    lemma_push_ages(
                        old(self).cache(),
                        *old(queue),
                        val,
                        Err(val),
                        self.cache(),
                        *queue,
                    );
                }
                return Err(val);
            }
        }
        let ghost before = queue.layout();
        let ghost values = queue.items();
        let ghost stored = queue.stored();
        proof {
            lemma_layout_sizes(before);
            lemma_pushed(before);
            queue.aq.lemma_wf(queue.order);
        }
        let ghost held = self.handle.held();
        match self.handle.take() {
            Some(idx) => {
                proof {
                    assert(held.last() == idx);
                    assert(self.handle.held() =~= held.drop_last());
                    let top = before.tx.len() - 1;
                    assert(before.at(before.tx[top], Place::Tx(top)));
                }
                queue.val.set(idx, Some(ManuallyDrop::new(val)));
                let order: usize = queue.order;
                let enqueued: bool = queue.aq.enqueue(order, idx, false);
                assert(enqueued);
                proof {
                    let after = before.pushed();
                    queue.tx_held@ = after.tx;
                    queue.places@ = after.places;
                    assert(queue.layout() == after);
                    assert forall|k: int| 0 <= k < before.aq.len() implies before.aq[k] != idx by {
                        assert(before.at(before.aq[k], Place::Queued));
                    }
                    assert(queue.stored() =~= stored.update(idx as int, Some(val)));
                    assert(queue.items() =~= values.push(val));
                    lemma_push_ages(
                        old(self).cache(),
                        *old(queue),
                        val,
                        Ok(()),
                        self.cache(),
                        *queue,
                    );
                }
                Ok(())
            },
            None => Err(val),
        }
    }
}

impl Rx {
    /// The receiver's cache.
    pub closed spec fn cache(self) -> Handle {
        self.handle
    }

    /// Whether this is the receiving end of the channel that `queue` belongs to.
    pub open spec fn of<T>(self, queue: Queue<T>) -> bool {
        self.cache().wf() && self.cache().held() == queue.rx_held()
    }

    /// Takes the oldest value out of the queue. The index of its slot goes into the receiver's
    /// cache, and when this is full, half of it goes back to the free blocks.
    pub fn pop<T>(&mut self, queue: &mut Queue<T>) -> (result: Option<T>)
        requires
            old(queue).wf(),
            old(self).of(*old(queue)),
            old(queue).recent(memory_span()),
        ensures
            final(queue).wf(),
            forall|within: int|
                0 <= within && #[trigger] old(queue).recent(within) ==> final(queue).recent(
                    within + 1,
                ),
            final(self).of(*final(queue)),
            final(queue).tx_held() == old(queue).tx_held(),
            old(queue)@.items.len() > 0 ==> result == Some(old(queue)@.items[0])
                && final(queue)@.items == old(queue)@.items.drop_first() && final(queue)@.parked
                == (if old(queue)@.parked == 31 {
                16
            } else {
                old(queue)@.parked + 1
            }),
            old(queue)@.items.len() == 0 ==> result is None && final(queue)@.items
                == old(queue)@.items && final(queue)@.parked == old(queue)@.parked
                && final(self).cache() == old(self).cache(),
            final(queue)@.slots == old(queue)@.slots,
            pop_leads(old(self).cache(), *old(queue), result, final(self).cache(), *final(queue)),
    {
        let ghost before = queue.layout();
        let ghost values = queue.items();
        proof {
            lemma_layout_sizes(before);
            queue.aq.lemma_wf(queue.order);
        }
        let order: usize = queue.order;
        let idx: usize = queue.aq.dequeue(order, false);
        if idx == LFRING_EMPTY {
            assert(queue.items() =~= values);
            proof {
                lemma_pop_ages(old(self).cache(), *old(queue), None, self.cache(), *queue);
            }
            return None;
        }
        proof {
            lemma_popped(before);
            assert(before.at(before.aq[0], Place::Queued));
        }
        let val: Option<T> = match queue.val[idx].take() {
            Some(val) => Some(ManuallyDrop::into_inner(val)),
            None => None,
        };
        let stored: bool = self.handle.put(idx);
        assert(stored);
        proof {
            let after = before.popped();
            queue.rx_held@ = after.rx;
            queue.places@ = after.places;
            assert(queue.layout() == after);
            assert forall|k: int| 0 < k < before.aq.len() implies before.aq[k] != idx by {}
            assert(queue.stored() =~= old(queue).stored().update(idx as int, None));
            assert(queue.items() =~= values.drop_first());
        }
        if self.handle.len() == SCQD_CACHE_SIZE {
            queue.reclaim_block(&mut self.handle);
        }
        proof {
            lemma_pop_ages(old(self).cache(), *old(queue), val, self.cache(), *queue);
        }
        val
    }
}

/// A channel with `2^order` slots: the queue, and its two ends.
pub(crate) fn open<T>(order: usize) -> (channel: (Queue<T>, Tx, Rx))
    requires
        4 <= order,
        ring_order(order),
        fits::<T>(order),
    ensures
        channel.0.wf(),
        channel.1.of(channel.0),
        channel.2.of(channel.0),
        channel.0@ == (Backlog {
            items: Seq::<T>::empty(),
            parked: 0,
            slots: two_to(order as int),
        }),
        channel.0.fresh(order),
        channel.0.recent(two_to(order + 1)),
        channel.1.cache().blank(),
        channel.2.cache().blank(),
{
    let queue: Queue<T> = Queue::new(order);
    let tx: Tx = Tx { handle: Handle::new() };
    let rx: Rx = Rx { handle: Handle::new() };
    (queue, tx, rx)
}

/// A channel for `capacity` values: the queue, and its two ends. The capacity is rounded up to a
/// power of two, and to sixteen slots at least; a capacity of zero asks for the default. A larger
/// capacity than the machine can address rings or values for is ruled out.
///
/// Sixteen slots are not recycled: the receiver's cache has room for them all and gives indices
/// back only when it is full, so a channel with a capacity of up to sixteen passes sixteen values
/// in all.
pub fn channel<T>(capacity: usize) -> (channel: (Queue<T>, Tx, Rx))
    requires
        capacity <= usize::MAX / 64 + 1,
        forall|order: usize| #[trigger] order_for(capacity, order) ==> fits::<T>(order),
    ensures
        channel.0.wf(),
        channel.1.of(channel.0),
        channel.2.of(channel.0),
        channel.0@.items == Seq::<T>::empty(),
        channel.0@.parked == 0,
        capacity <= channel.0@.slots,
        capacity == 0 ==> channel.0@.slots == 0x4_0000,
        capacity > 0 ==> channel.0@.slots == 16 || 16 < channel.0@.slots < 2 * capacity,
        exists|k: nat| channel.0@.slots == #[trigger] vstd::arithmetic::power2::pow2(k),
        channel.0.recent(2 * channel.0@.slots),
        channel.1.cache().blank(),
        channel.2.cache().blank(),
        exists|order: usize| #[trigger]
            order_for(capacity, order) && channel.0@.slots == two_to(order as int)
                && channel.0.fresh(order),
{
    let order: usize = capacity_to_order(capacity);
    proof {
        lemma_order_fits(capacity, order);
        lemma_slots(order);
        law_smallest_order(capacity, order);
        lemma2_to64();
        lemma2_to64_rest();
    }
    open(order)
}

/// Law: the order for a capacity is the smallest one, from four up, whose power of two holds the
/// capacity. So the number of slots is sixteen, or less than twice the capacity. No capacity at all
/// means eighteen.
pub proof fn law_smallest_order(capacity: usize, order: usize)
    requires
        order_for(capacity, order),
    ensures
        capacity == 0 ==> order == 18,
        capacity > 0 ==> ({
            let n = vstd::arithmetic::power2::pow2(order as nat);
            &&& 4 <= order
            &&& capacity <= n
            &&& n == 16 || 16 < n < 2 * capacity
            &&& forall|smaller: nat|
                4 <= smaller < order ==> #[trigger] vstd::arithmetic::power2::pow2(smaller)
                    < capacity
        }),
{
    lemma2_to64();
    if capacity > 0 && order > 4 {
        lemma_pow2_unfold(order as nat);
        lemma_pow2_strictly_increases(4, order as nat);
        assert forall|smaller: nat| 4 <= smaller < order implies
            #[trigger] vstd::arithmetic::power2::pow2(smaller) < capacity by {
            if smaller < order - 1 {
                lemma_pow2_strictly_increases(smaller, (order - 1) as nat);
            }
        }
    }
}

/// Law: a capacity has one order.
pub proof fn law_one_order(capacity: usize, a: usize, b: usize)
    requires
        order_for(capacity, a),
        order_for(capacity, b),
    ensures
        a == b,
{
    let (low, high) = if a < b {
        (a, b)
    } else {
        (b, a)
    };
    if low < high - 1 {
        lemma_pow2_strictly_increases(low as nat, (high - 1) as nat);
    }
}

/// Law: a new channel takes as many values as it was made for.
pub proof fn law_channel_takes_its_capacity<T>(capacity: usize, order: usize, vals: Seq<T>)
    requires
        order_for(capacity, order),
        vals.len() <= capacity,
    ensures
        (Backlog {
            items: Seq::<T>::empty(),
            parked: 0,
            slots: two_to(order as int),
        }).accepts_all(vals),
{
    law_capacity(
        Backlog { items: Seq::<T>::empty(), parked: 0, slots: two_to(order as int) },
        vals,
    );
}

/// Law: a new cache holds nothing, and its thirty-two entries are zero.
pub proof fn law_new_caches_are_blank(cache: Handle)
    requires
        cache.blank(),
    ensures
        cache.held().len() == 0,
        cache.entries().len() == 32,
        forall|i: int| 0 <= i < 32 ==> #[trigger] cache.entries()[i] == 0,
{
}

/// Law: a push succeeds exactly if some slot has no value and its index is not in the receiver's
/// cache. Then the value is the last of those that wait, and lies in a slot whose index was in the
/// transmitter's cache, or else in the first free block. If it is refused, the value comes back,
/// and the same values wait.
pub proof fn law_push_appends<T>(
    cache: Handle,
    queue: Queue<T>,
    val: T,
    result: Result<(), T>,
    cache_after: Handle,
    queue_after: Queue<T>,
)
    requires
        queue.wf(),
        queue_after.wf(),
        push_leads(cache, queue, val, result, cache_after, queue_after),
    ensures
        ({
            let (before, after) = (queue.layout(), queue_after.layout());
            let waiting = queue@.items;
            &&& result is Ok <==> waiting.len() + before.rx.len()
                < vstd::arithmetic::power2::pow2(before.order as nat)
            &&& after.rx == before.rx && after.idx == before.idx && after.order == before.order
            &&& match result {
                Ok(_) => {
                    let index = after.aq[after.aq.len() - 1];
                    &&& queue_after@.items == waiting + seq![val]
                    &&& queue_after.stored() == queue.stored().update(index as int, Some(val))
                    &&& after.aq == before.aq + seq![index]
                    &&& if before.tx.len() > 0 {
                        &&& before.tx == after.tx + seq![index]
                        &&& after.fq1 == before.fq1 && after.fq2 == before.fq2
                    } else {
                        let block = before.fq1[0];
                        &&& index == before.idx[16 * block + 15]
                        &&& after.tx == before.idx.subrange(16 * block, 16 * block + 15)
                        &&& before.fq1 == seq![block] + after.fq1
                        &&& after.fq2 == before.fq2 + seq![block]
                    }
                },
                Err(refused) => {
                    &&& refused == val
                    &&& queue_after@.items == waiting
                    &&& queue_after.stored() == queue.stored()
                    &&& after == before
                    &&& cache_after == cache
                },
            }
        }),
{
    queue.lemma_wf();
    queue_after.lemma_wf();
    let (before, after) = (queue.layout(), queue_after.layout());
    lemma_layout_sizes(before);
    law_indices_move(before);
    if result is Ok {
        assert(queue@.items.push(val) =~= queue@.items + seq![val]);
        if before.tx.len() == 0 {
            let lent = before.lent();
            let block = before.fq1[0];
            law_indices_move(lent);
            assert(block < before.blocks());
            assert(after.tx =~= before.idx.subrange(16 * block, 16 * block + 15));
        }
        assert(after.aq =~= before.aq + seq![after.aq.last()]);
        if before.tx.len() > 0 {
            assert(before.tx =~= after.tx + seq![after.aq.last()]);
        }
    }
}

/// Law: a pop returns the first of the values that wait, and takes it out of its slot, whose index
/// goes on top of the receiver's cache. If that makes thirty-two, the upper sixteen become the
/// contents of the block that was handed out first, and that block is free. If no value waits, the
/// pop returns nothing, and the same indices are in the same places.
pub proof fn law_pop_takes_the_oldest<T>(
    cache: Handle,
    queue: Queue<T>,
    result: Option<T>,
    cache_after: Handle,
    queue_after: Queue<T>,
)
    requires
        queue.wf(),
        queue_after.wf(),
        pop_leads(cache, queue, result, cache_after, queue_after),
    ensures
        ({
            let (before, after) = (queue.layout(), queue_after.layout());
            let waiting = queue@.items;
            &&& result is Some <==> waiting.len() > 0
            &&& after.tx == before.tx && after.order == before.order
            &&& match result {
                Some(val) => {
                    let index = before.aq[0];
                    let held = before.rx + seq![index];
                    &&& waiting == seq![val] + queue_after@.items
                    &&& queue.stored()[index as int] == Some(val)
                    &&& queue_after.stored() == queue.stored().update(index as int, None)
                    &&& before.aq == seq![index] + after.aq
                    &&& if held.len() < 32 {
                        &&& after.rx == held
                        &&& after.idx == before.idx
                        &&& after.fq1 == before.fq1 && after.fq2 == before.fq2
                    } else {
                        let block = before.fq2[0];
                        &&& after.rx == held.subrange(0, 16)
                        &&& after.idx.subrange(16 * block, 16 * block + 16) == held.subrange(16, 32)
                        &&& forall|i: int|
                            0 <= i < before.idx.len() && !(16 * block <= i < 16 * block + 16)
                                ==> #[trigger] after.idx[i] == before.idx[i]
                        &&& before.fq2 == seq![block] + after.fq2
                        &&& after.fq1 == before.fq1 + seq![block]
                    }
                },
                None => {
                    &&& queue_after@.items == waiting
                    &&& queue_after.stored() == queue.stored()
                    &&& after == before
                    &&& cache_after == cache
                },
            }
        }),
{
    queue.lemma_wf();
    queue_after.lemma_wf();
    let (before, after) = (queue.layout(), queue_after.layout());
    lemma_layout_sizes(before);
    law_indices_move(before);
    if result is Some {
        let popped = before.popped();
        assert(queue@.items =~= seq![queue@.items[0]] + queue_after@.items);
        assert(queue.stored()[before.aq[0] as int] == Some(queue@.items[0]));
        assert(popped.rx =~= before.rx + seq![before.aq[0]]);
        if before.rx.len() == 31 {
            law_indices_move(popped);
            let block = before.fq2[0];
            assert(block < before.blocks());
            assert(after.idx.subrange(16 * block, 16 * block + 16) =~= popped.rx.subrange(16, 32));
        }
    }
}

/// One use of a channel.
pub enum Use<T> {
    /// A push of a value, and its result.
    Push(T, Result<(), T>),
    /// A pop, and its result.
    Pop(Option<T>),
}

/// The values that the first `count` uses have put in, in order.
pub open spec fn accepted<T>(uses: Seq<Use<T>>, count: int) -> Seq<T>
    decreases count,
{
    if count <= 0 {
        Seq::empty()
    } else {
        match uses[count - 1] {
            Use::Push(val, Ok(_)) => accepted(uses, count - 1).push(val),
            _ => accepted(uses, count - 1),
        }
    }
}

/// The values that the first `count` uses have taken out, in order.
pub open spec fn received<T>(uses: Seq<Use<T>>, count: int) -> Seq<T>
    decreases count,
{
    if count <= 0 {
        Seq::empty()
    } else {
        match uses[count - 1] {
            Use::Pop(Some(val)) => received(uses, count - 1).push(val),
            _ => received(uses, count - 1),
        }
    }
}

/// Whether a push leads from one queue to the other.
pub open spec fn pushes_to<T>(
    before: Queue<T>,
    val: T,
    result: Result<(), T>,
    after: Queue<T>,
) -> bool {
    exists|cache: Handle, cache_after: Handle|
        push_leads(cache, before, val, result, cache_after, after)
}

/// Whether a pop leads from one queue to the other.
pub open spec fn pops_to<T>(before: Queue<T>, result: Option<T>, after: Queue<T>) -> bool {
    exists|cache: Handle, cache_after: Handle|
        pop_leads(cache, before, result, cache_after, after)
}

/// Whether a use leads from one queue to the next.
pub open spec fn queue_used_at<T>(queues: Seq<Queue<T>>, uses: Seq<Use<T>>, i: int) -> bool {
    match uses[i] {
        Use::Push(val, result) => pushes_to(queues[i], val, result, queues[i + 1]),
        Use::Pop(result) => pops_to(queues[i], result, queues[i + 1]),
    }
}

/// Whether the queues come from a new one of `2^order` slots by these uses.
pub open spec fn channel_run<T>(queues: Seq<Queue<T>>, uses: Seq<Use<T>>, order: usize) -> bool {
    &&& queues.len() == uses.len() + 1
    &&& queues[0].wf()
    &&& queues[0].fresh(order)
    &&& forall|j: int| 0 <= j < uses.len() ==> #[trigger] queue_used_at(queues, uses, j)
}

/// How many indices the receiver keeps in its cache after so many pops that returned a value.
pub open spec fn kept_back(pops: int) -> int {
    if pops < 32 {
        pops
    } else {
        16 + pops % 16
    }
}

/// Law: a channel is first in, first out. At any time, the values that were accepted are the values
/// that were received, in the same order, and then those that wait.
pub proof fn law_channel_is_first_in_first_out<T>(
    queues: Seq<Queue<T>>,
    uses: Seq<Use<T>>,
    order: usize,
    i: int,
)
    requires
        channel_run(queues, uses, order),
        0 <= i < queues.len(),
    ensures
        accepted(uses, i) == received(uses, i) + queues[i]@.items,
        queues[i]@.slots == vstd::arithmetic::power2::pow2(order as nat),
        queues[i]@.parked == kept_back(received(uses, i).len() as int),
    decreases i,
{
    if i == 0 {
        queues[0].lemma_wf();
        assert(accepted(uses, 0) =~= received(uses, 0) + queues[0]@.items);
    } else {
        law_channel_is_first_in_first_out(queues, uses, order, i - 1);
        assert(queue_used_at(queues, uses, i - 1));
        let (before, after) = (queues[i - 1]@, queues[i]@);
        let got = received(uses, i - 1);
        match uses[i - 1] {
            Use::Push(val, result) => {
                assert(got + before.items.push(val) =~= (got + before.items).push(val));
            },
            Use::Pop(result) => {
                if before.items.len() > 0 {
                    assert(got + before.items =~= got.push(before.items[0])
                        + before.items.drop_first());
                }
            },
        }
    }
}

/// Law: what a use of a channel returns. A pop returns the first accepted value that has not been
/// received, if there is one, and else nothing. A push is refused exactly if the values that wait
/// and the indices that the receiver keeps back are as many as the slots, and then it gives the
/// value back.
pub proof fn law_channel_answers<T>(
    queues: Seq<Queue<T>>,
    uses: Seq<Use<T>>,
    order: usize,
    i: int,
)
    requires
        channel_run(queues, uses, order),
        0 <= i < uses.len(),
    ensures
        ({
            let (put, got) = (accepted(uses, i), received(uses, i));
            match uses[i] {
                Use::Push(val, result) => {
                    &&& result is Ok <==> put.len() - got.len() + kept_back(got.len() as int)
                        < vstd::arithmetic::power2::pow2(order as nat)
                    &&& result matches Err(refused) ==> refused == val
                },
                Use::Pop(result) => result == (if got.len() < put.len() {
                    Some(put[got.len() as int])
                } else {
                    None
                }),
            }
        }),
{
    law_channel_is_first_in_first_out(queues, uses, order, i);
    assert(queue_used_at(queues, uses, i));
}

/// Law: a new channel accepts as many values as it was asked to have room for, whatever they are,
/// as long as nothing is popped.
pub proof fn law_new_channel_accepts_its_capacity<T>(
    queues: Seq<Queue<T>>,
    uses: Seq<Use<T>>,
    capacity: usize,
    order: usize,
    i: int,
)
    requires
        order_for(capacity, order),
        channel_run(queues, uses, order),
        0 <= i < capacity,
        i < uses.len(),
        forall|j: int| 0 <= j <= i ==> (#[trigger] uses[j]) is Push,
    ensures
        uses[i]->Push_1 is Ok,
{
    law_channel_answers(queues, uses, order, i);
    law_smallest_order(capacity, order);
    lemma_only_pushes(uses, i);
}

proof fn lemma_only_pushes<T>(uses: Seq<Use<T>>, i: int)
    requires
        0 <= i <= uses.len(),
        forall|j: int| 0 <= j < i ==> (#[trigger] uses[j]) is Push,
    ensures
        received(uses, i).len() == 0,
        accepted(uses, i).len() <= i,
    decreases i,
{
    if i > 0 {
        lemma_only_pushes(uses, i - 1);
        assert(uses[i - 1] is Push);
    }
}

/// Law: a refused push changes nothing that a user can see. The value comes back, the transmitter
/// keeps its cache as it was, every index and every value stays where it is, and all later pops
/// return what they would have returned.
pub proof fn law_refused_push_changes_nothing<T>(
    cache: Handle,
    queue: Queue<T>,
    val: T,
    refused: T,
    cache_after: Handle,
    queue_after: Queue<T>,
)
    requires
        push_leads(cache, queue, val, Err(refused), cache_after, queue_after),
    ensures
        refused == val,
        cache_after == cache,
        queue_after.layout() == queue.layout(),
        queue_after.stored() == queue.stored(),
        forall|k: nat| #[trigger]
            queue_after@.popped_times(k).front() == queue@.popped_times(k).front(),
{
}

/// A capacity that leaves room for the rings' words has an order for which rings can exist.
proof fn lemma_order_fits(capacity: usize, order: usize)
    requires
        order_for(capacity, order),
        capacity <= usize::MAX / 64 + 1,
    ensures
        4 <= order,
        ring_order(order),
{
    lemma2_to64();
    lemma2_to64_rest();
    let most = usize::BITS - 6;
    assert(usize::MAX / 64 + 1 == two_to(most));
    if order > 4 && order > most {
        if order - 1 > most {
            lemma_pow2_strictly_increases(most as nat, (order - 1) as nat);
        }
    }
}

} // verus!
