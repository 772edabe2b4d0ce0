use std::rc::Rc;
use scqd::mpsc;
use scqd::scqd_f::{capacity_to_order, channel, Handle, Queue};

#[test]
fn capacities_are_rounded_up() {
    assert_eq!(capacity_to_order(0), 18);
    assert_eq!(capacity_to_order(1), 4);
    assert_eq!(capacity_to_order(16), 4);
    assert_eq!(capacity_to_order(17), 5);
    assert_eq!(capacity_to_order(32), 5);
    assert_eq!(capacity_to_order(33), 6);
    assert_eq!(capacity_to_order(1000), 10);
    assert_eq!(capacity_to_order(1024), 10);
    assert_eq!(capacity_to_order(1025), 11);
    assert_eq!(capacity_to_order(usize::MAX), usize::BITS as usize);
}

#[test]
fn a_new_channel_takes_its_capacity() {
    let (mut queue, mut tx, mut rx) = channel::<u32>(1000);
    for i in 0..1024 {
        assert_eq!(tx.push(&mut queue, i), Ok(()));
    }
    assert_eq!(tx.push(&mut queue, 7), Err(7));
    assert_eq!(tx.push(&mut queue, 8), Err(8));
    for i in 0..1024 {
        assert_eq!(rx.pop(&mut queue), Some(i));
    }
    assert_eq!(rx.pop(&mut queue), None);
    assert_eq!(rx.pop(&mut queue), None);
}

#[test]
fn the_smallest_channel_parks_its_slots_with_the_receiver() {
    let (mut queue, mut tx, mut rx) = channel::<usize>(3);
    for i in 0..16 {
        assert!(tx.push(&mut queue, i).is_ok());
    }
    assert_eq!(tx.push(&mut queue, 16), Err(16));
    for i in 0..16 {
        assert_eq!(rx.pop(&mut queue), Some(i));
    }
    // All sixteen indices are in the receiver's cache now, which gives none back.
    assert_eq!(tx.push(&mut queue, 17), Err(17));
    assert_eq!(rx.pop(&mut queue), None);
}

#[test]
fn the_receiver_gives_indices_back_a_block_at_a_time() {
    let (mut queue, mut tx, mut rx) = channel::<usize>(64);
    for i in 0..64 {
        assert!(tx.push(&mut queue, i).is_ok());
    }
    for i in 0..31 {
        assert_eq!(rx.pop(&mut queue), Some(i));
    }
    // Thirty-one indices are parked.
    assert_eq!(tx.push(&mut queue, 0), Err(0));
    assert_eq!(rx.pop(&mut queue), Some(31));
    // Sixteen of them have come back.
    for i in 64..80 {
        assert!(tx.push(&mut queue, i).is_ok());
    }
    assert_eq!(tx.push(&mut queue, 0), Err(0));
    for i in 32..80 {
        assert_eq!(rx.pop(&mut queue), Some(i));
    }
    assert_eq!(rx.pop(&mut queue), None);
}

#[test]
fn values_pass_in_order_for_a_long_time() {
    let (mut queue, mut tx, mut rx) = channel::<String>(128);
    let mut sent = 0;
    let mut received = 0;
    for round in 0..2000usize {
        for _ in 0..(round * 7) % 50 {
            if tx.push(&mut queue, format!("value {}", sent)).is_ok() {
                sent += 1;
            } else {
                assert!(sent - received > 128 - 32);
            }
        }
        for _ in 0..(round * 11) % 47 {
            match rx.pop(&mut queue) {
                Some(val) => {
                    assert_eq!(val, format!("value {}", received));
                    received += 1;
                }
                None => assert_eq!(sent, received),
            }
        }
    }
    assert!(received > 10_000);
}

#[test]
fn pushing_and_popping_commute() {
    let (mut a, mut a_tx, mut a_rx) = channel::<u8>(16);
    let (mut b, mut b_tx, mut b_rx) = channel::<u8>(16);
    assert!(a_tx.push(&mut a, 1).is_ok());
    assert!(b_tx.push(&mut b, 1).is_ok());
    assert!(a_tx.push(&mut a, 2).is_ok());
    assert_eq!(a_rx.pop(&mut a), Some(1));
    assert_eq!(b_rx.pop(&mut b), Some(1));
    assert!(b_tx.push(&mut b, 2).is_ok());
    assert_eq!(a_rx.pop(&mut a), Some(2));
    assert_eq!(b_rx.pop(&mut b), Some(2));
}

#[test]
fn the_default_channel_has_many_slots() {
    let (mut queue, mut tx, mut rx) = channel::<usize>(0);
    for i in 0..262144 {
        assert!(tx.push(&mut queue, i).is_ok());
    }
    assert!(tx.push(&mut queue, 0).is_err());
    assert_eq!(rx.pop(&mut queue), Some(0));
}

#[test]
fn a_queue_can_be_made_for_an_order() {
    let queue: Queue<u8> = Queue::new(4);
    drop(queue);
}

#[test]
fn a_cache_is_a_stack() {
    let mut handle = Handle::new();
    assert_eq!(handle.len(), 0);
    assert_eq!(handle.take(), None);
    for i in 0..32 {
        assert!(handle.put(100 + i));
    }
    assert!(!handle.put(7));
    assert_eq!(handle.len(), 32);
    for i in (0..32).rev() {
        assert_eq!(handle.take(), Some(100 + i));
    }
    assert_eq!(handle.take(), None);
}

#[test]
fn the_fixed_channel_works_like_the_other() {
    let (mut queue, mut tx, mut rx) = mpsc::channel::<i64>();
    assert_eq!(rx.try_dequeue(&mut queue), None);
    for i in 0..100 {
        assert_eq!(tx.try_enqueue(&mut queue, -i), Ok(()));
    }
    tx.close();
    for i in 0..100 {
        assert_eq!(rx.try_dequeue(&mut queue), Some(-i));
    }
    assert_eq!(rx.try_dequeue(&mut queue), None);
}

#[test]
fn the_fixed_channel_refuses_when_it_is_full() {
    let (mut queue, mut tx, mut rx) = mpsc::channel::<usize>();
    for i in 0..262144 {
        assert!(tx.try_enqueue(&mut queue, i).is_ok());
    }
    assert_eq!(tx.try_enqueue(&mut queue, 5), Err(5));
    assert_eq!(rx.try_dequeue(&mut queue), Some(0));
}

#[test]
fn a_refused_push_leaves_the_channel_alone() {
    let (mut queue, mut tx, mut rx) = channel::<String>(16);
    for i in 0..16 {
        assert_eq!(tx.push(&mut queue, format!("{}", i)), Ok(()));
    }
    for _ in 0..100 {
        assert_eq!(tx.push(&mut queue, String::from("late")), Err(String::from("late")));
    }
    for i in 0..16 {
        assert_eq!(rx.pop(&mut queue), Some(format!("{}", i)));
    }
    assert_eq!(rx.pop(&mut queue), None);
}

#[test]
fn an_empty_pop_leaves_the_channel_alone() {
    let (mut queue, mut tx, mut rx) = channel::<u16>(32);
    for _ in 0..500 {
        assert_eq!(rx.pop(&mut queue), None);
    }
    for i in 0..32 {
        assert_eq!(tx.push(&mut queue, i), Ok(()));
    }
    assert_eq!(tx.push(&mut queue, 32), Err(32));
    for i in 0..32 {
        assert_eq!(rx.pop(&mut queue), Some(i));
    }
}

#[test]
fn values_in_a_dropped_channel_are_not_dropped() {
    let token = Rc::new(7);
    let (mut queue, mut tx, mut rx) = channel::<Rc<i32>>(16);
    for _ in 0..3 {
        assert!(tx.push(&mut queue, Rc::clone(&token)).is_ok());
    }
    assert_eq!(Rc::strong_count(&token), 4);
    // A value that is popped is the receiver's to drop.
    drop(rx.pop(&mut queue));
    assert_eq!(Rc::strong_count(&token), 3);
    drop(queue);
    assert_eq!(Rc::strong_count(&token), 3);
}

#[test]
fn an_empty_channel_of_two_blocks_accepts_values_for_ever() {
    let (mut queue, mut tx, mut rx) = channel::<u32>(32);
    for i in 0..1000 {
        assert_eq!(tx.push(&mut queue, i), Ok(()));
        assert_eq!(rx.pop(&mut queue), Some(i));
        assert_eq!(rx.pop(&mut queue), None);
    }
}
