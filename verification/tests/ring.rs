use scqd::dequeue::LFRING_EMPTY;
use scqd::contents::{filled_slots, unused_slots};
use scqd::lfring::LFRing;

#[test]
fn a_ring_returns_indices_in_order() {
    let mut ring = LFRing::init_empty(3);
    for i in [5, 2, 7, 2, 0] {
        assert!(ring.enqueue(3, i, false));
    }
    for i in [5, 2, 7, 2, 0] {
        assert_eq!(ring.dequeue(3, false), i);
    }
    assert_eq!(ring.dequeue(3, false), LFRING_EMPTY);
}

#[test]
fn an_empty_ring_stays_empty() {
    let mut ring = LFRing::init_empty(5);
    for _ in 0..200 {
        assert_eq!(ring.dequeue(5, false), LFRING_EMPTY);
    }
    assert!(ring.enqueue(5, 31, false));
    assert_eq!(ring.dequeue(5, false), 31);
    for _ in 0..200 {
        assert_eq!(ring.dequeue(5, false), LFRING_EMPTY);
    }
    assert!(ring.enqueue(5, 30, false));
    assert_eq!(ring.dequeue(5, false), 30);
}

#[test]
fn a_full_ring_holds_every_index_once() {
    let mut ring = LFRing::init_full(6);
    let mut seen = vec![false; 64];
    let first = ring.dequeue(6, false);
    assert_eq!(first, 0);
    seen[first] = true;
    let second = ring.dequeue(6, false);
    assert_eq!(second, 16);
    seen[second] = true;
    for _ in 2..64 {
        let index = ring.dequeue(6, false);
        assert!(!seen[index]);
        seen[index] = true;
    }
    assert_eq!(ring.dequeue(6, false), LFRING_EMPTY);
}

#[test]
fn a_ring_of_one_works() {
    let mut ring = LFRing::init_full(0);
    assert_eq!(ring.dequeue(0, false), 0);
    assert_eq!(ring.dequeue(0, false), LFRING_EMPTY);
    assert!(ring.enqueue(0, 0, false));
    assert_eq!(ring.dequeue(0, false), 0);
}

#[test]
fn enqueue_fails_when_every_slot_is_taken() {
    let mut ring = LFRing::init_empty(2);
    for i in 0..8 {
        assert!(ring.enqueue(2, i, false));
    }
    assert!(!ring.enqueue(2, 3, false));
    assert!(!ring.enqueue(2, 3, false));
    assert_eq!(ring.dequeue(2, false), 0);
    assert!(ring.enqueue(2, 3, false));
    assert!(!ring.enqueue(2, 3, false));
    for i in [1, 2, 3, 4, 5, 6, 7, 3] {
        assert_eq!(ring.dequeue(2, false), i);
    }
    assert_eq!(ring.dequeue(2, false), LFRING_EMPTY);
}

#[test]
fn many_laps() {
    let mut ring = LFRing::init_empty(4);
    for i in 0..10_000usize {
        assert!(ring.enqueue(4, i % 16, false));
        assert!(ring.enqueue(4, (i + 5) % 16, false));
        assert_eq!(ring.dequeue(4, false), i % 16);
        assert_eq!(ring.dequeue(4, false), (i + 5) % 16);
        if i % 3 == 0 {
            assert_eq!(ring.dequeue(4, false), LFRING_EMPTY);
        }
    }
}

#[test]
fn an_unwatched_enqueue_does_not_restore_patience() {
    let mut ring = LFRing::init_empty(2);
    // The ring starts without patience, and an enqueue that vouches for others leaves it so.
    assert!(ring.enqueue(2, 1, true));
    assert_eq!(ring.dequeue(2, false), LFRING_EMPTY);
    assert_eq!(ring.dequeue(2, true), 1);
    assert!(ring.enqueue(2, 2, false));
    assert_eq!(ring.dequeue(2, false), 2);
}

#[test]
fn a_misled_dequeue_gives_up_and_the_ring_recovers() {
    let mut ring = LFRing::init_empty(2);
    assert!(ring.enqueue(2, 1, false));
    assert_eq!(ring.dequeue(2, true), 1);
    assert_eq!(ring.dequeue(2, true), LFRING_EMPTY);
    assert_eq!(ring.dequeue(2, true), LFRING_EMPTY);
    assert_eq!(ring.dequeue(2, false), LFRING_EMPTY);
    assert!(ring.enqueue(2, 3, false));
    assert_eq!(ring.dequeue(2, false), 3);
}

#[test]
fn catching_up_moves_an_idle_tail() {
    let mut ring = LFRing::init_empty(2);
    assert!(ring.enqueue(2, 1, false));
    assert_eq!(ring.dequeue(2, true), 1);
    // The head runs away from the tail, which stays at one.
    assert_eq!(ring.dequeue(2, true), LFRING_EMPTY);
    // The counter is not at nine hundred, and has not got to thirteen.
    ring.__lfring_catchup(900, 13);
    assert!(ring.enqueue(2, 2, false));
    assert_eq!(ring.dequeue(2, true), 2);
    // Now it is at fourteen and beyond ten, so it stays.
    ring.__lfring_catchup(900, 10);
    assert!(ring.enqueue(2, 3, false));
    assert_eq!(ring.dequeue(2, true), 3);
}

#[test]
fn fresh_slots() {
    assert_eq!(unused_slots(1), vec![u64::MAX; 4]);
    // Sixteen slots; the eight indices are in the first half of the first lap.
    let slots = filled_slots(3);
    assert_eq!(slots.len(), 16);
    for i in 0..8 {
        assert_eq!(slots[i], 16 + i as u64);
    }
    for i in 8..16 {
        assert_eq!(slots[i], u64::MAX);
    }
}

#[test]
fn a_ring_is_found_empty_exactly_when_it_holds_nothing() {
    let mut ring = LFRing::init_full(2);
    let mut held = 4usize;
    for i in 0..5000usize {
        if (i * i) % 7 < 3 && held < 8 {
            assert!(ring.enqueue(2, i % 4, false));
            held += 1;
        } else {
            let found = ring.dequeue(2, false) != LFRING_EMPTY;
            assert_eq!(found, held > 0);
            if found {
                held -= 1;
            }
        }
    }
}
