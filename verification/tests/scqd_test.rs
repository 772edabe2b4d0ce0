//! Repeated push and pop operations, with timing.
use scqd::scqd_f;
use std::time::Instant;

const NUM_TIMES: usize = 10;
const CAPACITY: usize = 1000;

/// Pushes and pops, and measures the time between the first push and the last pop.
#[test]
fn test_scqd_timing() {
    let (mut queue, mut tx, mut rx) = scqd_f::channel::<usize>(CAPACITY);

    let start = Instant::now();

    for i in 0..NUM_TIMES {
        match tx.push(&mut queue, i) {
            Ok(()) => {
                println!("Pushed value: {}", i);
            }
            Err(_) => {
                panic!("Failed to push value {} - queue is full", i);
            }
        }
    }

    println!("\n--- All {} values pushed ---\n", NUM_TIMES);

    for i in 0..NUM_TIMES {
        match rx.pop(&mut queue) {
            Some(val) => {
                println!("Popped value: {}", val);
                assert_eq!(val, i, "Expected value {}, got {}", i, val);
            }
            None => {
                panic!("Failed to pop value {}: queue is empty", i);
            }
        }
    }

    let end = Instant::now();
    let elapsed = end.duration_since(start);

    println!("\n--- All {} values popped ---\n", NUM_TIMES);
    println!("Elapsed time: {:?}", elapsed);
    println!("Time per operation: {:?}", elapsed / (NUM_TIMES as u32 * 2));
}
