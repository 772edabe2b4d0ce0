//! Operations of several threads on one ring, interleaved by hand.
use scqd::access::{Access, Reply};
use scqd::dequeue::{CatchupOp, DequeueOp, DequeueStage, LFRING_EMPTY};
use scqd::enqueue::{EnqueueOp, EnqueueStage};
use scqd::contents::unused_slots;

struct Words {
    head: u64,
    tail: u64,
    threshold: i64,
    array: Vec<u64>,
}

impl Words {
    fn new(order: usize) -> Words {
        Words { head: 0, tail: 0, threshold: -1, array: unused_slots(order) }
    }

    fn perform(&mut self, access: Access) -> Reply {
        match access {
            Access::LoadHead => Reply::Word(self.head),
            Access::LoadTail => Reply::Word(self.tail),
            Access::AddHead => {
                self.head += 1;
                Reply::Word(self.head - 1)
            }
            Access::AddTail => {
                self.tail += 1;
                Reply::Word(self.tail - 1)
            }
            Access::SwapTail { expected, new } => {
                if self.tail == expected {
                    self.tail = new;
                    Reply::Swapped
                } else {
                    Reply::Refused(self.tail)
                }
            }
            Access::LoadThreshold => Reply::Level(self.threshold),
            Access::StoreThreshold { value } => {
                self.threshold = value;
                Reply::Stored
            }
            Access::SubThreshold => {
                self.threshold -= 1;
                Reply::Level(self.threshold + 1)
            }
            Access::LoadSlot { slot } => Reply::Word(self.array[slot]),
            Access::OrSlot { slot, bits } => {
                let found = self.array[slot];
                self.array[slot] = found | bits;
                Reply::Word(found)
            }
            Access::SwapSlot { slot, expected, new } => {
                let found = self.array[slot];
                if found == expected {
                    self.array[slot] = new;
                    Reply::Swapped
                } else {
                    Reply::Refused(found)
                }
            }
        }
    }

    fn step_enqueue(&mut self, op: EnqueueOp) -> EnqueueOp {
        match op.access() {
            Some(access) => op.advance(self.perform(access)),
            None => op,
        }
    }

    fn step_dequeue(&mut self, op: DequeueOp) -> DequeueOp {
        match op.access() {
            Some(access) => op.advance(self.perform(access)),
            None => op,
        }
    }

    fn enqueue(&mut self, mut op: EnqueueOp) -> bool {
        loop {
            if let EnqueueStage::Done { enqueued } = op.stage {
                return enqueued;
            }
            op = self.step_enqueue(op);
        }
    }

    fn dequeue(&mut self, mut op: DequeueOp) -> usize {
        loop {
            if let DequeueStage::Done { index } = op.stage {
                return index;
            }
            op = self.step_dequeue(op);
        }
    }
}

#[test]
fn a_slow_enqueue_finds_its_position_gone() {
    let mut words = Words::new(2);
    assert!(words.enqueue(EnqueueOp::new(2, 1, false)));
    // One thread claims a position and falls asleep.
    let mut slow = EnqueueOp::new(2, 2, false);
    while !matches!(slow.stage, EnqueueStage::Write { .. }) {
        slow = words.step_enqueue(slow);
    }
    assert_eq!(words.dequeue(DequeueOp::new(2, false)), 1);
    // A dequeue gives the sleeper's position up.
    assert_eq!(words.dequeue(DequeueOp::new(2, false)), LFRING_EMPTY);
    // The sleeper has to take another one.
    slow = words.step_enqueue(slow);
    assert!(!matches!(slow.stage, EnqueueStage::Done { .. }));
    assert!(words.enqueue(slow));
    assert_eq!(words.dequeue(DequeueOp::new(2, false)), 2);
    assert_eq!(words.dequeue(DequeueOp::new(2, false)), LFRING_EMPTY);
}

#[test]
fn a_slow_dequeue_keeps_its_index() {
    let mut words = Words::new(1);
    assert!(words.enqueue(EnqueueOp::new(1, 0, false)));
    assert!(words.enqueue(EnqueueOp::new(1, 1, false)));
    let mut slow = DequeueOp::new(1, false);
    while !matches!(slow.stage, DequeueStage::Load { .. }) {
        slow = words.step_dequeue(slow);
    }
    // The others go round the ring; the slot of the slow dequeue is marked and left alone.
    assert_eq!(words.dequeue(DequeueOp::new(1, false)), 1);
    for i in 0..10 {
        assert!(words.enqueue(EnqueueOp::new(1, i % 2, false)));
        assert_eq!(words.dequeue(DequeueOp::new(1, false)), i % 2);
    }
    assert_eq!(words.dequeue(slow), 0);
    assert_eq!(words.dequeue(DequeueOp::new(1, false)), LFRING_EMPTY);
}

#[test]
fn a_replacement_that_fails_is_tried_again() {
    let mut words = Words::new(2);
    let mut op = EnqueueOp::new(2, 3, false);
    while !matches!(op.stage, EnqueueStage::Write { .. }) {
        op = words.step_enqueue(op);
    }
    let before = op;
    let found = match op.access() {
        Some(Access::SwapSlot { expected, .. }) => expected,
        _ => panic!("no replacement"),
    };
    op = op.advance(Reply::Refused(found));
    assert_eq!(op, before);
    assert!(words.enqueue(op));
    assert_eq!(words.dequeue(DequeueOp::new(2, false)), 3);
}

#[test]
fn catching_up_stops_at_a_tail_that_has_got_there() {
    let op = CatchupOp::new(3, 7);
    assert_eq!(op.access(), Some(Access::SwapTail { expected: 3, new: 7 }));
    let again = op.advance(Reply::Refused(5));
    assert_eq!(again.access(), Some(Access::SwapTail { expected: 5, new: 7 }));
    assert_eq!(op.advance(Reply::Refused(7)).access(), None);
    assert_eq!(op.advance(Reply::Refused(9)).access(), None);
    assert_eq!(op.advance(Reply::Swapped).access(), None);
}

#[test]
fn a_full_ring_refuses() {
    let mut words = Words::new(1);
    for i in 0..4 {
        assert!(words.enqueue(EnqueueOp::new(1, i % 2, false)));
    }
    assert!(!words.enqueue(EnqueueOp::new(1, 0, false)));
    assert_eq!(words.tail, 4);
}

#[test]
fn interleaved_threads_lose_and_repeat_nothing_in_time() {
    // A small generator decides who goes next.
    let mut seed: u64 = 12345;
    let mut pick = |n: u64| {
        seed = seed.wrapping_mul(6364136223846793005).wrapping_add(1442695040888963407);
        (seed >> 33) % n
    };
    let order = 3;
    let mut words = Words::new(order);
    // The indices that are not in the ring; each thread that enqueues owns the one it puts in.
    let mut free: Vec<usize> = (0..8).collect();
    let mut enqueues: Vec<EnqueueOp> = Vec::new();
    let mut dequeues: Vec<DequeueOp> = Vec::new();
    let mut inside = vec![false; 8];
    let mut passed = 0;
    for _ in 0..400_000 {
        match pick(8) {
            0 if !free.is_empty() && enqueues.len() < 4 => {
                let index = free.remove(0);
                enqueues.push(EnqueueOp::new(order, index, false));
            }
            1 if dequeues.len() < 4 => dequeues.push(DequeueOp::new(order, false)),
            2 | 3 | 4 if !enqueues.is_empty() => {
                let k = pick(enqueues.len() as u64) as usize;
                let before = enqueues[k];
                enqueues[k] = match before.stage {
                    // An enqueue that would come too late looks again.
                    EnqueueStage::Write { tail, entry }
                        if entry & 16 == 0 && words.head > tail =>
                    {
                        before.advance(Reply::Refused(entry))
                    }
                    _ => words.step_enqueue(before),
                };
                if matches!(before.stage, EnqueueStage::Write { .. })
                    && matches!(enqueues[k].stage, EnqueueStage::ReadThreshold)
                {
                    let index = before.index as usize;
                    assert!(!inside[index]);
                    inside[index] = true;
                }
                if let EnqueueStage::Done { enqueued } = enqueues[k].stage {
                    assert!(enqueued);
                    enqueues.remove(k);
                }
            }
            _ if !dequeues.is_empty() => {
                let k = pick(dequeues.len() as u64) as usize;
                dequeues[k] = words.step_dequeue(dequeues[k]);
                if let DequeueStage::Done { index } = dequeues[k].stage {
                    if index != LFRING_EMPTY {
                        assert!(inside[index]);
                        inside[index] = false;
                        free.push(index);
                        passed += 1;
                    }
                    dequeues.remove(k);
                }
            }
            _ => {}
        }
    }
    assert!(passed > 1000);
    // In the end every index is found.
    for op in dequeues {
        let index = words.dequeue(op);
        if index != LFRING_EMPTY {
            assert!(inside[index]);
            inside[index] = false;
            free.push(index);
        }
    }
    for op in enqueues {
        let index = op.index as usize;
        if !matches!(op.stage, EnqueueStage::ReadThreshold | EnqueueStage::ResetThreshold) {
            inside[index] = true;
        }
        assert!(words.enqueue(op));
    }
    loop {
        let index = words.dequeue(DequeueOp::new(order, false));
        if index == LFRING_EMPTY {
            break;
        }
        assert!(inside[index]);
        inside[index] = false;
        free.push(index);
    }
    free.sort();
    assert_eq!(free, (0..8).collect::<Vec<usize>>());
}

#[test]
fn an_empty_answer_means_that_every_index_is_claimed() {
    let mut words = Words::new(3);
    assert!(words.enqueue(EnqueueOp::new(3, 4, false)));
    assert_eq!(words.threshold, 23);
    assert_eq!(words.dequeue(DequeueOp::new(3, false)), 4);
    // A dequeue claims the next position and falls asleep.
    let mut slow = DequeueOp::new(3, false);
    while !matches!(slow.stage, DequeueStage::Load { .. }) {
        slow = words.step_dequeue(slow);
    }
    assert!(words.enqueue(EnqueueOp::new(3, 5, false)));
    // The index is spoken for, so another dequeue gets nothing.
    assert_eq!(words.dequeue(DequeueOp::new(3, false)), LFRING_EMPTY);
    assert_eq!((words.head, words.tail, words.threshold), (3, 3, 22));
    // The next index is for the next dequeue, whoever comes first.
    assert!(words.enqueue(EnqueueOp::new(3, 6, false)));
    assert_eq!(words.threshold, 23);
    assert_eq!(words.dequeue(DequeueOp::new(3, false)), 6);
    assert_eq!(words.dequeue(slow), 5);
}

#[test]
fn a_used_up_threshold_is_an_empty_answer_at_once() {
    let mut words = Words::new(1);
    assert!(words.enqueue(EnqueueOp::new(1, 1, false)));
    assert_eq!(words.threshold, 5);
    assert_eq!(words.dequeue(DequeueOp::new(1, false)), 1);
    for left in (-1..5).rev() {
        assert_eq!(words.dequeue(DequeueOp::new(1, false)), LFRING_EMPTY);
        assert_eq!(words.threshold, left);
    }
    assert_eq!(words.head, 7);
    assert_eq!(words.dequeue(DequeueOp::new(1, false)), LFRING_EMPTY);
    assert_eq!((words.head, words.threshold), (7, -1));
    assert!(words.enqueue(EnqueueOp::new(1, 0, false)));
    assert_eq!(words.dequeue(DequeueOp::new(1, false)), 0);
}

#[test]
fn a_fruitless_dequeue_clears_the_safe_bit_and_nothing_else() {
    let mut words = Words::new(4);
    assert_eq!(words.dequeue(DequeueOp::new(4, true)), LFRING_EMPTY);
    assert_eq!(words.array[0], u64::MAX - 32);
    assert!(words.array[1..].iter().all(|w| *w == u64::MAX));
    assert_eq!((words.head, words.tail, words.threshold), (1, 0, -2));
    // The next visit to the slot, a lap later, leaves it as it is.
    words.head = 32;
    assert_eq!(words.dequeue(DequeueOp::new(4, true)), LFRING_EMPTY);
    assert_eq!(words.array[0], u64::MAX - 32);
}

#[test]
fn an_index_that_comes_too_late_is_not_found() {
    let mut words = Words::new(1);
    // Leave the slot of the second position unsafe, and come back to it a lap later.
    assert!(words.enqueue(EnqueueOp::new(1, 0, false)));
    assert_eq!(words.dequeue(DequeueOp::new(1, false)), 0);
    assert_eq!(words.dequeue(DequeueOp::new(1, false)), LFRING_EMPTY);
    for _ in 2..5 {
        assert!(words.enqueue(EnqueueOp::new(1, 0, false)));
        assert_eq!(words.dequeue(DequeueOp::new(1, false)), 0);
    }
    assert_eq!((words.head, words.tail), (5, 5));
    // An enqueue looks at the head counter and falls asleep.
    let mut slow = EnqueueOp::new(1, 1, false);
    while !matches!(slow.stage, EnqueueStage::CheckHead { .. }) {
        slow = words.step_enqueue(slow);
    }
    slow = words.step_enqueue(slow);
    assert!(matches!(slow.stage, EnqueueStage::Write { tail: 5, .. }));
    // A dequeue gives the position up, and then the index is written.
    assert_eq!(words.dequeue(DequeueOp::new(1, false)), LFRING_EMPTY);
    assert!(words.enqueue(slow));
    assert_eq!(words.dequeue(DequeueOp::new(1, false)), LFRING_EMPTY);
}
