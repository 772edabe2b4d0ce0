//! A ring of indices, for an owner that has it to itself.
//!
//! The ring runs its operations step by step, as threads that share one do; here every access hits
//! memory that nobody else touches.
use vstd::prelude::*;
use crate::access::{
    full_threshold, in_bounds, law_ring_sizes, law_written_words, lemma_slots, ring_order, slots,
    threshold_of, written_word, Access, Memory, Reply,
};
use crate::contents::{
    all_indices, disarmed, filled_slots, first_marks, holds, lemma_recent, lemma_unused_marks,
    memory_span, represents, unused_marks, unused_slots, word_at, Contents,
};
use crate::dequeue::{reached, CatchupOp, CatchupStage, DequeueOp, DequeueStage, LFRING_EMPTY};
use crate::enqueue::{EnqueueOp, EnqueueStage};
use crate::position::{
    lemma_counter_moves, lemma_counter_small, lemma_counters, lemma_slot_in_ring, moved, pow2,
    slot_of, two_to,
};
use crate::solo::{
    budget, dequeue_progress, dequeue_rank, dequeueing, enqueue_rank, enqueueing,
    lemma_dequeue_step, lemma_enqueue_step, skipped, with_index,
};

verus! {

/// A ring of indices below twice its nominal capacity.
pub struct LFRing {
    head: u64,
    tail: u64,
    threshold: i64,
    array: Vec<u64>,
    contents: Ghost<Contents>,
}

impl View for LFRing {
    type V = Seq<usize>;

    /// The indices in the ring, the oldest first.
    closed spec fn view(&self) -> Seq<usize> {
        self.contents@.items
    }
}

impl LFRing {
    /// The words of the ring.
    pub closed spec fn memory(self) -> Memory {
        Memory {
            head: self.head,
            tail: self.tail,
            threshold: self.threshold,
            array: self.array@,
        }
    }

    /// Whether this is a ring of the given order in a state that its operations lead to.
    pub closed spec fn wf(self, order: usize) -> bool {
        &&& represents(self.memory(), order, self.contents@)
        &&& self.contents@.overrun <= 0x2000_0000_0000_0000
    }

    /// What the words stand for.
    pub closed spec fn contents(self) -> Contents {
        self.contents@
    }

    /// How many more fruitless visits the ring puts up with before it takes itself for empty. Once
    /// this is negative, a dequeue that has not been told otherwise does not even look.
    pub closed spec fn patience(self) -> int {
        self.threshold as int
    }

    /// How far the head has run past the tail, which it does only when a dequeue is told that the
    /// ring is not empty while it is.
    pub closed spec fn overrun(self) -> int {
        self.contents@.overrun
    }

    /// The head counter.
    pub closed spec fn head_counter(self) -> u64 {
        self.head
    }

    /// The tail counter.
    pub closed spec fn tail_counter(self) -> u64 {
        self.tail
    }

    /// Whether no slot's word dates back more than this many positions.
    pub open spec fn recent(self, within: int) -> bool {
        self.contents().recent(within)
    }

    /// What a well-formed ring guarantees.
    pub proof fn lemma_wf(self, order: usize)
        requires
            self.wf(order),
        ensures
            ring_order(order),
            self@.len() <= two_to(order + 1),
            forall|i: int| 0 <= i < self@.len() ==> (#[trigger] self@[i]) < two_to(order + 1),
            i64::MIN <= self.patience() <= full_threshold(order),
            0 <= self.overrun() <= 0x2000_0000_0000_0000,
            self.overrun() > 0 ==> self@.len() == 0,
            represents(self.memory(), order, self.contents()),
            self.memory().head == self.head_counter(),
            self.memory().tail == self.tail_counter(),
            self.memory().threshold == self.patience(),
            self.contents().items == self@,
            self.contents().overrun == self.overrun(),
    {
        lemma_slots(order);
        reveal(holds);
    }

    /// Whether this is a new ring: it holds nothing and takes itself for empty, or it holds each
    /// index below `2^order` once.
    pub open spec fn fresh(self, order: usize) -> bool {
        &&& self.wf(order)
        &&& self.overrun() == 0
        &&& self.head_counter() == 0
        &&& self.contents().head == 0
        &&& self.recent(slots(order) as int)
        &&& {
            ||| {
                &&& self@ == Seq::<usize>::empty()
                &&& self.patience() == -1
                &&& self.tail_counter() == 0
            }
            ||| {
                &&& self@ == all_indices(order)
                &&& self.patience() == full_threshold(order)
                &&& self.tail_counter() == two_to(order as int)
            }
        }
    }

    /// What an enqueue does: unless each of the slots holds an index, it appends the index, makes
    /// up for an overrun, and restores the ring's patience if the caller has not vouched that the
    /// ring holds something.
    pub open spec fn enqueue_leads(
        self,
        order: usize,
        eidx: usize,
        nonempty: bool,
        enqueued: bool,
        after: LFRing,
    ) -> bool {
        &&& enqueued == (self@.len() < two_to(order + 1))
        &&& after.head_counter() == self.head_counter()
        &&& if enqueued {
            let position = moved(self.tail_counter(), self.overrun() as u64);
            &&& after@ == self@.push(eidx)
            &&& after.overrun() == 0
            &&& after.contents() == with_index(
                Contents { overrun: 0, ..self.contents() },
                order,
                eidx,
            )
            &&& after.memory().array == self.memory().array.update(
                slot_of(position as int, order + 1),
                written_word(position, eidx as u64, order),
            )
            &&& after.tail_counter() == moved(position, 1)
            &&& after.patience() == (if nonempty {
                self.patience()
            } else {
                full_threshold(order)
            })
        } else {
            &&& after@ == self@
            &&& after.overrun() == self.overrun()
            &&& after.contents() == self.contents()
            &&& after.memory() == self.memory()
            &&& after.tail_counter() == self.tail_counter()
            &&& after.patience() == self.patience()
        }
    }

    /// What a dequeue does. A ring that is out of patience is left as it is, unless the caller has
    /// vouched that it holds something. Otherwise the oldest index comes out, and if there is none
    /// the search for it costs patience.
    pub open spec fn dequeue_leads(
        self,
        order: usize,
        nonempty: bool,
        index: usize,
        after: LFRing,
    ) -> bool {
        let head = self.contents().head;
        if !nonempty && self.patience() < 0 {
            &&& index == LFRING_EMPTY
            &&& after@ == self@
            &&& after.contents() == self.contents()
            &&& after.memory() == self.memory()
            &&& after.patience() == self.patience()
            &&& after.overrun() == self.overrun()
            &&& after.head_counter() == self.head_counter()
            &&& after.tail_counter() == self.tail_counter()
        } else if self@.len() > 0 {
            &&& index == self@[0]
            &&& after@ == self@.drop_first()
            &&& after.contents() == (Contents {
                items: self@.drop_first(),
                head: head + 1,
                overrun: 0,
                ..self.contents()
            })
            &&& after.memory().array == self.memory().array.update(
                slot_of(head, order + 1),
                word_at(self.memory().array, order, head) | ((slots(order) - 1) as u64),
            )
            &&& after.patience() == self.patience()
            &&& after.overrun() == 0
            &&& after.head_counter() == moved(self.head_counter(), 1)
            &&& after.tail_counter() == self.tail_counter()
        } else {
            let visits = if nonempty && self.patience() >= 0 {
                self.patience() + 1
            } else {
                1
            };
            let overrun = if nonempty {
                self.overrun() + visits
            } else {
                0
            };
            &&& index == LFRING_EMPTY
            &&& after@ == self@
            &&& after.contents() == (Contents { head: head + visits, overrun, ..self.contents() })
            &&& after.memory().array == disarmed(self.memory().array, order, head, visits)
            &&& after.patience() == self.patience() - visits
            &&& after.overrun() == overrun
            &&& after.head_counter() == moved(self.head_counter(), visits as u64)
            &&& after.tail_counter() == if nonempty {
                self.tail_counter()
            } else {
                after.head_counter()
            }
        }
    }

    /// A ring that holds nothing.
    pub fn init_empty(order: usize) -> (ring: Box<LFRing>)
        requires
            ring_order(order),
        ensures
            ring.fresh(order),
            ring@ == Seq::<usize>::empty(),
            ring.memory().array == Seq::new(slots(order) as nat, |i: int| u64::MAX),
            ring.patience() == -1,
            ring.overrun() == 0,
            ring.head_counter() == 0,
            ring.tail_counter() == 0,
    {
        proof {
            lemma_slots(order);
        }
        let array: Vec<u64> = unused_slots(order);
        proof {
            lemma_counter_small(0);
            lemma_unused_marks(order, 0);
            assert(array@ =~= Seq::new(slots(order) as nat, |i: int| u64::MAX));
        }
        Box::new(
            LFRing {
                head: 0,
                tail: 0,
                threshold: -1,
                array,
                contents: Ghost(
                    Contents {
                        items: Seq::empty(),
                        head: 0,
                        overrun: 0,
                        marks: unused_marks(order),
                    },
                ),
            },
        )
    }

    /// A ring that holds each index below `2^order` once.
    pub fn init_full(order: usize) -> (ring: Box<LFRing>)
        requires
            ring_order(order),
        ensures
            ring.fresh(order),
            ring@ == all_indices(order),
            ring.patience() == full_threshold(order),
            ring.overrun() == 0,
            ring.head_counter() == 0,
            ring.tail_counter() == two_to(order as int),
            ring.patience() == 3 * vstd::arithmetic::power2::pow2(order as nat) - 1,
            ring@.len() == vstd::arithmetic::power2::pow2(order as nat),
            forall|i: int|
                0 <= i < two_to(order as int) ==> ring.memory().array[#[trigger] slot_of(
                    i,
                    order + 1,
                )] == slots(order) + slot_of(i, order as int),
            forall|i: int|
                two_to(order as int) <= i < slots(order) ==> ring.memory().array[
                    #[trigger] slot_of(i, order + 1)] == u64::MAX,
    {
        proof {
            lemma_slots(order);
        }
        let array: Vec<u64> = filled_slots(order);
        proof {
            lemma_counter_small(0);
            lemma_counter_small(two_to(order as int));
            lemma_unused_marks(order, 0);
        }
        Box::new(
            LFRing {
                head: 0,
                tail: pow2(order) as u64,
                threshold: threshold_of(order),
                array,
                contents: Ghost(
                    Contents {
                        items: all_indices(order),
                        head: 0,
                        overrun: 0,
                        marks: first_marks(order, two_to(order as int)),
                    },
                ),
            },
        )
    }

    fn perform(&mut self, access: Access) -> (reply: Reply)
        requires
            in_bounds(access, old(self).memory().array.len() as int),
        ensures
            final(self).memory() == old(self).memory().after(access),
            reply == old(self).memory().reply(access),
            final(self).contents == old(self).contents,
    {
        match access {
            Access::LoadHead => Reply::Word(self.head),
            Access::LoadTail => Reply::Word(self.tail),
            Access::AddHead => {
                let found: u64 = self.head;
                self.head = found.wrapping_add(1);
                Reply::Word(found)
            },
            Access::AddTail => {
                let found: u64 = self.tail;
                self.tail = found.wrapping_add(1);
                Reply::Word(found)
            },
            Access::SwapTail { expected, new } => {
                if self.tail == expected {
                    self.tail = new;
                    Reply::Swapped
                } else {
                    Reply::Refused(self.tail)
                }
            },
            Access::LoadThreshold => Reply::Level(self.threshold),
            Access::StoreThreshold { value } => {
                self.threshold = value;
                Reply::Stored
            },
            Access::SubThreshold => {
                let found: i64 = self.threshold;
                self.threshold = found.wrapping_sub(1);
                Reply::Level(found)
            },
            Access::LoadSlot { slot } => Reply::Word(self.array[slot]),
            Access::OrSlot { slot, bits } => {
                let found: u64 = self.array[slot];
                self.array.set(slot, found | bits);
                Reply::Word(found)
            },
            Access::SwapSlot { slot, expected, new } => {
                let found: u64 = self.array[slot];
                if found == expected {
                    self.array.set(slot, new);
                    Reply::Swapped
                } else {
                    Reply::Refused(found)
                }
            },
        }
    }

    /// Enqueues an index. Returns whether there was room: a ring is full when each of its
    /// `2^(order + 1)` slots holds an index.
    pub fn enqueue(&mut self, order: usize, eidx: usize, nonempty: bool) -> (enqueued: bool)
        requires
            old(self).wf(order),
            old(self).recent(memory_span()),
            eidx < two_to(order + 1),
        ensures
            final(self).wf(order),
            old(self).enqueue_leads(order, eidx, nonempty, enqueued, *final(self)),
            enqueued <==> old(self)@.len() < vstd::arithmetic::power2::pow2((order + 1) as nat),
            enqueued ==> final(self)@ == old(self)@.push(eidx),
            !enqueued ==> final(self)@ == old(self)@,
            final(self).patience() == (if enqueued && !nonempty {
                3 * vstd::arithmetic::power2::pow2(order as nat) - 1
            } else {
                old(self).patience()
            }),
    {
        proof {
            lemma_slots(order);
        }
        let ghost mut contents = self.contents@;
        let ghost start = self.memory();
        let mut op: EnqueueOp = EnqueueOp::new(order, eidx, nonempty);
        loop
            invariant
                enqueueing(self.memory(), op, contents, start),
                op.order == order,
                op.index == eidx,
                op.nonempty == nonempty,
                start == old(self).memory(),
                old(self).wf(order),
                contents == (Contents { overrun: contents.overrun, ..old(self).contents@ }),
                0 <= contents.overrun <= old(self).contents@.overrun,
                self.head == old(self).head,
                contents.items.len() == two_to(order + 1) ==> self.memory() == old(self).memory(),
                self.contents@ == old(self).contents@,
            decreases contents.overrun, enqueue_rank(op.stage),
        {
            match op.access() {
                Some(access) => {
                    proof {
                        lemma_enqueue_step(self.memory(), op, contents, start);
                    }
                    let ghost before = op;
                    let reply: Reply = self.perform(access);
                    op = op.advance(reply);
                    proof {
                        contents = skipped(before, op, contents);
                    }
                },
                None => {
                    let enqueued: bool = match op.stage {
                        EnqueueStage::Done { enqueued } => enqueued,
                        _ => false,
                    };
                    proof {
                        lemma_slots(order);
                        let first = old(self).contents@;
                        lemma_counter_moves(first.tail(), first.overrun as u64);
                        lemma_counter_moves(contents.tail(), 1);
                        lemma_slot_in_ring(contents.tail(), order + 1);
                        if enqueued {
                            contents = with_index(contents, order, eidx);
                        }
                    }
                    self.contents = Ghost(contents);
                    return enqueued;
                },
            }
        }
    }

    /// Dequeues the oldest index, or returns `LFRING_EMPTY` when there is none or the ring has run
    /// out of patience. With `nonempty` the caller vouches that the ring holds an index; if it does
    /// not, the ring spends its patience on looking for one.
    pub fn dequeue(&mut self, order: usize, nonempty: bool) -> (index: usize)
        requires
            old(self).wf(order),
            old(self).recent(memory_span()),
            nonempty && old(self)@.len() == 0 ==> old(self).patience() > i64::MIN
                && old(self).overrun() + full_threshold(order) < 0x2000_0000_0000_0000,
        ensures
            final(self).wf(order),
            old(self).dequeue_leads(order, nonempty, index, *final(self)),
            old(self)@.len() > 0 && (nonempty || old(self).patience() >= 0) ==> index
                == old(self)@[0] && final(self)@ == old(self)@.drop_first(),
            old(self)@.len() == 0 || !nonempty && old(self).patience() < 0 ==> index == usize::MAX
                && final(self)@ == old(self)@,
    {
        proof {
            lemma_slots(order);
        }
        let ghost first = self.contents@;
        let ghost mut now = first;
        let ghost start = self.memory();
        let mut op: DequeueOp = DequeueOp::new(order, nonempty);
        loop
            invariant
                dequeueing(self.memory(), op, first, start, now),
                op.order == order,
                op.nonempty == nonempty,
                start == old(self).memory(),
                first == old(self).contents@,
                old(self).wf(order),
                nonempty && old(self)@.len() == 0 ==> old(self).overrun() + full_threshold(order)
                    < 0x2000_0000_0000_0000,
                self.contents@ == old(self).contents@,
                !nonempty && start.threshold < 0 ==> self.memory() == old(self).memory(),
            decreases budget(self.memory(), op.stage), dequeue_rank(op.stage),
        {
            match op.access() {
                Some(access) => {
                    proof {
                        lemma_dequeue_step(self.memory(), op, first, start, now);
                    }
                    let ghost before = op;
                    let reply: Reply = self.perform(access);
                    op = op.advance(reply);
                    proof {
                        now = dequeue_progress(before, op, now);
                    }
                },
                None => {
                    proof {
                        lemma_slots(order);
                        lemma_counter_moves(first.head, 1);
                        lemma_counter_moves(first.head, (now.head - first.head) as u64);
                    }
                    self.contents = Ghost(now);
                    return match op.stage {
                        DequeueStage::Done { index } => index,
                        _ => LFRING_EMPTY,
                    };
                },
            }
        }
    }

    /// Moves the tail counter, last seen at `tail`, up to `head`. If the counter is elsewhere, it
    /// is moved only if it has not got that far.
    pub fn __lfring_catchup(&mut self, tail: u64, head: u64)
        ensures
            final(self).tail_counter() == (if old(self).tail_counter() == tail || !reached(
                old(self).tail_counter(),
                head,
            ) {
                head
            } else {
                old(self).tail_counter()
            }),
            final(self).memory() == (Memory {
                tail: final(self).tail_counter(),
                ..old(self).memory()
            }),
            final(self).head_counter() == old(self).head_counter(),
            final(self)@ == old(self)@,
            final(self).patience() == old(self).patience(),
            final(self).overrun() == (if old(self)@.len() == 0 && head == old(
                self,
            ).head_counter() {
                0
            } else {
                old(self).overrun()
            }),
            forall|order: usize| #[trigger]
                old(self).wf(order) && (old(self)@.len() == 0 && head == old(self).head_counter()
                    || final(self).tail_counter() == old(self).tail_counter()) ==> final(self).wf(
                    order,
                ),
    {
        let ghost before = *self;
        let mut op: CatchupOp = CatchupOp::new(tail, head);
        loop
            invariant
                op.head == head,
                before == *old(self),
                self.contents == before.contents,
                match op.stage {
                    CatchupStage::Swap { tail: seen } => {
                        &&& self.memory() == before.memory()
                        &&& seen == tail || seen == before.tail && !reached(before.tail, head)
                    },
                    CatchupStage::Done => {
                        self.memory() == (Memory {
                            tail: if before.tail == tail || !reached(before.tail, head) {
                                head
                            } else {
                                before.tail
                            },
                            ..before.memory()
                        })
                    },
                },
            decreases
                    match op.stage {
                        CatchupStage::Swap { tail: seen } => if seen == before.tail {
                            1int
                        } else {
                            2int
                        },
                        CatchupStage::Done => 0int,
                    },
        {
            match op.access() {
                Some(access) => {
                    let reply: Reply = self.perform(access);
                    op = op.advance(reply);
                },
                None => {
                    let ghost settled = if before@.len() == 0 && head == before.head {
                        Contents { overrun: 0, ..self.contents@ }
                    } else {
                        self.contents@
                    };
                    self.contents = Ghost(settled);
                    proof {
                        assert forall|order: usize| #[trigger]
                            before.wf(order) && (before@.len() == 0 && head == before.head
                                || self.tail == before.tail) implies self.wf(order) by {
                            let contents = before.contents@;
                            lemma_slots(order);
                            lemma_counters(contents.head, contents.tail());
                        }
                    }
                    return;
                },
            }
        }
    }
}

/// Law: an enqueue appends its index to a ring that has a slot for it, and is refused by a ring
/// with an index in each of its slots, of which there are twice as many as its nominal capacity. A
/// refused enqueue changes no word. A successful one changes one slot, whose word then holds the
/// index; it moves the tail counter, and not the head counter; and it leaves the threshold at three
/// times the nominal capacity less one, unless the caller vouched that the ring holds something.
pub proof fn law_enqueue_appends(
    ring: LFRing,
    order: usize,
    eidx: usize,
    nonempty: bool,
    enqueued: bool,
    after: LFRing,
)
    requires
        ring.wf(order),
        after.wf(order),
        eidx < slots(order),
        ring.enqueue_leads(order, eidx, nonempty, enqueued, after),
    ensures
        ({
            let half = vstd::arithmetic::power2::pow2(order as nat);
            let (before, now) = (ring.memory(), after.memory());
            &&& enqueued <==> ring@.len() < 2 * half
            &&& after@ == (if enqueued {
                ring@ + seq![eidx]
            } else {
                ring@
            })
            &&& !enqueued ==> now == before
            &&& now.head == before.head
            &&& enqueued ==> now.threshold == (if nonempty {
                before.threshold as int
            } else {
                3 * half - 1
            })
            &&& enqueued ==> now.tail == (before.tail + ring.overrun() + 1)
                % 0x1_0000_0000_0000_0000
            &&& enqueued ==> exists|slot: int, w: u64|
                0 <= slot < 2 * half && w & ((2 * half - 1) as u64) == eidx && now.array
                    == #[trigger] before.array.update(slot, w)
        }),
{
    ring.lemma_wf(order);
    after.lemma_wf(order);
    lemma_slots(order);
    law_ring_sizes(order);
    if enqueued {
        let position = moved(ring.tail_counter(), ring.overrun() as u64);
        let slot = slot_of(position as int, order + 1);
        let w = written_word(position, eidx as u64, order);
        lemma_slot_in_ring(position as int, order + 1);
        law_written_words(position, eidx as u64, order);
        lemma_moved_on(ring.tail_counter(), ring.overrun());
        let n = 2 * vstd::arithmetic::power2::pow2(order as nat);
        assert(0 <= slot < n && w & ((n - 1) as u64) == eidx);
        assert(after.memory().array == ring.memory().array.update(slot, w));
        assert(ring@.push(eidx) =~= ring@ + seq![eidx]);
    }
}

/// A counter that makes up for an overrun and goes on by one.
proof fn lemma_moved_on(counter: u64, overrun: int)
    requires
        0 <= overrun <= 0x2000_0000_0000_0000,
    ensures
        moved(moved(counter, overrun as u64), 1) == (counter + overrun + 1)
            % 0x1_0000_0000_0000_0000,
{
}

/// Law: a dequeue takes the oldest index out of a ring that holds one, unless the threshold is
/// negative and the caller has not vouched for the ring; then, and if the ring holds none, it
/// returns the largest `usize` and takes nothing out. Finding an index costs nothing of the
/// threshold; not finding one costs one for each position that is visited.
pub proof fn law_dequeue_takes_the_oldest(
    ring: LFRing,
    order: usize,
    nonempty: bool,
    index: usize,
    after: LFRing,
)
    requires
        ring.wf(order),
        after.wf(order),
        ring.dequeue_leads(order, nonempty, index, after),
    ensures
        ({
            let (before, now) = (ring.memory(), after.memory());
            let looks = nonempty || before.threshold >= 0;
            let visits = if !looks {
                0
            } else if ring@.len() > 0 || !nonempty || before.threshold < 0 {
                1
            } else {
                before.threshold + 1
            };
            &&& looks && ring@.len() > 0 ==> ring@ == seq![index] + after@
            &&& !looks || ring@.len() == 0 ==> index == usize::MAX && after@ == ring@
            &&& now.threshold == before.threshold - (if ring@.len() > 0 {
                0
            } else {
                visits
            })
            &&& now.head == (before.head + visits) % 0x1_0000_0000_0000_0000
            &&& now.tail == (if looks && ring@.len() == 0 && !nonempty {
                now.head
            } else {
                before.tail
            })
            &&& !looks ==> now == before
        }),
{
    ring.lemma_wf(order);
    after.lemma_wf(order);
    lemma_slots(order);
    if ring@.len() > 0 && (nonempty || ring.patience() >= 0) {
        assert(ring@ =~= seq![index] + ring@.drop_first());
    }
}

/// One use of a ring by a caller who vouches for nothing.
pub enum RingUse {
    /// An enqueue of an index, and whether it succeeded.
    Put(usize, bool),
    /// A dequeue, and what it returned.
    Got(usize),
}

/// The indices that the first `count` uses have put in, in order.
pub open spec fn put_in(uses: Seq<RingUse>, count: int) -> Seq<usize>
    decreases count,
{
    if count <= 0 {
        Seq::empty()
    } else {
        match uses[count - 1] {
            RingUse::Put(index, true) => put_in(uses, count - 1).push(index),
            _ => put_in(uses, count - 1),
        }
    }
}

/// The indices that the first `count` uses have taken out, in order.
pub open spec fn taken_out(uses: Seq<RingUse>, count: int) -> Seq<usize>
    decreases count,
{
    if count <= 0 {
        Seq::empty()
    } else {
        match uses[count - 1] {
            RingUse::Got(index) => if index == usize::MAX {
                taken_out(uses, count - 1)
            } else {
                taken_out(uses, count - 1).push(index)
            },
            _ => taken_out(uses, count - 1),
        }
    }
}

/// Whether a use leads from one ring to the next.
pub open spec fn ring_used_at(
    rings: Seq<LFRing>,
    uses: Seq<RingUse>,
    order: usize,
    i: int,
) -> bool {
    &&& rings[i + 1].wf(order)
    &&& match uses[i] {
        RingUse::Put(index, enqueued) => rings[i].enqueue_leads(
            order,
            index,
            false,
            enqueued,
            rings[i + 1],
        ),
        RingUse::Got(index) => rings[i].dequeue_leads(order, false, index, rings[i + 1]),
    }
}

/// Law: a ring is first in, first out. What it held at first, and then what was put in, is what has
/// been taken out, in the same order, and then what is still in it. A dequeue comes back without an
/// index only if nothing is in the ring, and an enqueue is refused only if as many indices are in
/// it as it has slots.
pub proof fn law_ring_is_first_in_first_out(
    rings: Seq<LFRing>,
    uses: Seq<RingUse>,
    order: usize,
    i: int,
)
    requires
        rings.len() == uses.len() + 1,
        rings[0].fresh(order),
        forall|j: int| 0 <= j < uses.len() ==> #[trigger] ring_used_at(rings, uses, order, j),
        0 <= i < rings.len(),
    ensures
        rings[0]@ + put_in(uses, i) == taken_out(uses, i) + rings[i]@,
        i < uses.len() ==> match uses[i] {
            RingUse::Put(_, enqueued) => enqueued <==> rings[i]@.len()
                < 2 * vstd::arithmetic::power2::pow2(order as nat),
            RingUse::Got(index) => index == usize::MAX <==> rings[i]@.len() == 0,
        },
    decreases i,
{
    lemma_slots(order);
    lemma_ring_used(rings, uses, order, i);
    rings[i].lemma_wf(order);
    if i < uses.len() {
        assert(ring_used_at(rings, uses, order, i));
        match uses[i] {
            RingUse::Got(index) => {
                law_empty_exactly_when_nothing_is_held(rings, order, i, index, rings[i + 1]);
            },
            _ => {},
        }
    }
    if i == 0 {
        assert(rings[0]@ + put_in(uses, 0) =~= taken_out(uses, 0) + rings[0]@);
    } else {
        law_ring_is_first_in_first_out(rings, uses, order, i - 1);
        assert(ring_used_at(rings, uses, order, i - 1));
        let (before, after) = (rings[i - 1]@, rings[i]@);
        let (put, got) = (put_in(uses, i - 1), taken_out(uses, i - 1));
        match uses[i - 1] {
            RingUse::Put(index, enqueued) => {
                if enqueued {
                    assert(rings[0]@ + put.push(index) =~= (rings[0]@ + put).push(index));
                    assert(got + before.push(index) =~= (got + before).push(index));
                }
            },
            RingUse::Got(index) => {
                if index != usize::MAX {
                    assert(got + before =~= got.push(index) + after);
                }
            },
        }
    }
}

/// Rings that are used one after the other are used without a caller who vouches for them.
proof fn lemma_ring_used(rings: Seq<LFRing>, uses: Seq<RingUse>, order: usize, i: int)
    requires
        rings.len() == uses.len() + 1,
        rings[0].fresh(order),
        forall|j: int| 0 <= j < uses.len() ==> #[trigger] ring_used_at(rings, uses, order, j),
        0 <= i < rings.len(),
    ensures
        rings[i].wf(order),
        forall|j: int| 0 <= j < rings.len() - 1 ==> #[trigger] used_at(rings, order, j),
{
    assert forall|j: int| 0 <= j < rings.len() - 1 implies #[trigger] used_at(
        rings,
        order,
        j,
    ) by {
        assert(ring_used_at(rings, uses, order, j));
    }
    law_threshold_stays_in_range(rings, order, i);
}

/// Whether an enqueue or a dequeue leads from one ring to the other, and the caller vouches for
/// nothing.
pub open spec fn plain_use(before: LFRing, after: LFRing, order: usize) -> bool {
    &&& after.wf(order)
    &&& {
        ||| exists|eidx: usize, enqueued: bool|
            before.enqueue_leads(order, eidx, false, enqueued, after)
        ||| exists|index: usize| before.dequeue_leads(order, false, index, after)
    }
}

/// Whether a ring comes from the one before it by such a use.
pub open spec fn used_at(rings: Seq<LFRing>, order: usize, i: int) -> bool {
    plain_use(rings[i], rings[i + 1], order)
}

/// Law: as long as no caller vouches for anything, the threshold of a ring stays between minus one
/// and three times the ring's nominal capacity less one.
pub proof fn law_threshold_stays_in_range(rings: Seq<LFRing>, order: usize, i: int)
    requires
        rings.len() > 0,
        rings[0].fresh(order),
        forall|j: int| 0 <= j < rings.len() - 1 ==> #[trigger] used_at(rings, order, j),
        0 <= i < rings.len(),
    ensures
        rings[i].wf(order),
        -1 <= rings[i].patience() <= 3 * two_to(order as int) - 1,
    decreases i,
{
    if i == 0 {
        rings[0].lemma_wf(order);
        lemma_slots(order);
    } else {
        law_threshold_stays_in_range(rings, order, i - 1);
        rings[i - 1].lemma_wf(order);
        lemma_slots(order);
        assert(used_at(rings, order, i - 1));
    }
}

/// Law: as long as no caller vouches for anything, a ring that holds an index looks for it, so a
/// dequeue finds the ring empty exactly when it holds nothing.
pub proof fn law_empty_exactly_when_nothing_is_held(
    rings: Seq<LFRing>,
    order: usize,
    i: int,
    index: usize,
    after: LFRing,
)
    requires
        rings.len() > 0,
        rings[0].fresh(order),
        forall|j: int| 0 <= j < rings.len() - 1 ==> #[trigger] used_at(rings, order, j),
        0 <= i < rings.len(),
        rings[i].dequeue_leads(order, false, index, after),
    ensures
        rings[i]@.len() > 0 ==> rings[i].patience() >= 0 && index == rings[i]@[0],
        index == LFRING_EMPTY <==> rings[i]@.len() == 0,
{
    law_threshold_stays_in_range(rings, order, i);
    lemma_looks_for_what_it_holds(rings, order, i);
    rings[i].lemma_wf(order);
    lemma_slots(order);
}

/// A ring that holds an index has patience left.
proof fn lemma_looks_for_what_it_holds(rings: Seq<LFRing>, order: usize, i: int)
    requires
        rings.len() > 0,
        rings[0].fresh(order),
        forall|j: int| 0 <= j < rings.len() - 1 ==> #[trigger] used_at(rings, order, j),
        0 <= i < rings.len(),
    ensures
        rings[i]@.len() > 0 ==> rings[i].patience() >= 0,
    decreases i,
{
    law_threshold_stays_in_range(rings, order, i);
    rings[i].lemma_wf(order);
    lemma_slots(order);
    if i > 0 {
        lemma_looks_for_what_it_holds(rings, order, i - 1);
        assert(used_at(rings, order, i - 1));
    }
}

/// Law: a dequeue that the caller does not vouch for changes no word of a ring whose threshold is
/// negative. On any other ring, if it finds nothing, it lowers the threshold.
pub proof fn law_fruitless_dequeue(ring: LFRing, order: usize, index: usize, after: LFRing)
    requires
        ring.wf(order),
        ring.dequeue_leads(order, false, index, after),
    ensures
        ring.patience() < 0 ==> index == LFRING_EMPTY && after.memory() == ring.memory() && after@
            == ring@,
        ring.patience() >= 0 && index == LFRING_EMPTY ==> after.patience() < ring.patience(),
{
    ring.lemma_wf(order);
    lemma_slots(order);
}

/// Whether an enqueue or a dequeue leads from one ring to the other.
pub open spec fn some_use(before: LFRing, after: LFRing, order: usize) -> bool {
    ||| exists|eidx: usize, nonempty: bool, enqueued: bool|
        before.enqueue_leads(order, eidx, nonempty, enqueued, after)
    ||| exists|nonempty: bool, index: usize| before.dequeue_leads(order, nonempty, index, after)
}

/// Law: the words of a ring age only as fast as its head moves. An enqueue ages none of them, and a
/// dequeue ages them by the positions that it visits.
pub proof fn law_words_age_with_the_head(before: LFRing, after: LFRing, order: usize, within: int)
    requires
        before.wf(order),
        before.recent(within),
        0 <= within,
        some_use(before, after, order),
    ensures
        after.recent(within + after.contents().head - before.contents().head),
{
    before.lemma_wf(order);
    lemma_slots(order);
    let (b, a) = (before.contents(), after.contents());
    lemma_slot_in_ring(b.head + b.items.len(), order + 1);
    assert(a.marks == b.marks || a.marks == b.marks.update(
        slot_of(b.head + b.items.len(), order + 1),
        b.head + b.items.len(),
    ) && a.head == b.head);
    assert forall|slot: int| 0 <= slot < a.marks.len() implies a.head - #[trigger] a.marks[slot]
        <= within + a.head - b.head by {
        assert(b.head - b.marks[slot] <= within);
    }
}

/// A ring that is left alone, or used once by a caller who vouches for nothing, ages by one at
/// most.
pub proof fn lemma_ages_by_one(before: LFRing, after: LFRing, order: usize)
    requires
        before.wf(order),
        before == after || plain_use(before, after, order),
    ensures
        forall|within: int|
            0 <= within && #[trigger] before.recent(within) ==> after.recent(within + 1),
{
    assert forall|within: int| 0 <= within && #[trigger] before.recent(within) implies after.recent(
        within + 1,
    ) by {
        if before == after {
            lemma_recent(before.contents(), within, within + 1);
        } else {
            law_words_age_with_the_head(before, after, order, within);
            let moves = after.contents().head - before.contents().head;
            lemma_recent(after.contents(), within + moves, within + 1);
        }
    }
}

} // verus!
