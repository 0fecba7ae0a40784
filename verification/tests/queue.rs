use lifts::order::{binary_add, binary_remove, locate, Ranked};
use lifts::targets::{change, next_target, QueueOp};
use lifts::types::{difference, Direction, LiftError, Passenger};

#[test]
fn difference_check() {
    assert_eq!(difference(10, 10), 0);
    assert_eq!(difference(100, 10), 90);
    assert_eq!(difference(10, 100), 90);
    assert_eq!(difference(-2, 3), 5);
}

#[test]
fn difference_is_symmetric_and_zero_only_on_equal_floors() {
    let floors = [-7, -1, 0, 1, 3, 12, i32::MIN, i32::MAX];
    for &x in floors.iter() {
        for &y in floors.iter() {
            assert_eq!(difference(x, y), difference(y, x));
            assert!(difference(x, y) >= 0);
            assert_eq!(difference(x, y) == 0, x == y);
        }
    }
}

#[test]
fn difference_spans_the_whole_range() {
    assert_eq!(difference(i32::MIN, i32::MAX), 4294967295);
    assert_eq!(difference(i32::MAX, i32::MIN), 4294967295);
    assert_eq!(difference(i32::MIN, 0), 2147483648);
}

#[test]
fn insert_keeps_the_queue_ascending() {
    let mut queue: Vec<i32> = Vec::new();
    for floor in [5, 2, 8, -1, 3] {
        binary_add(&mut queue, floor);
    }
    assert_eq!(queue, vec![-1, 2, 3, 5, 8]);
}

#[test]
fn insert_twice_is_insert_once() {
    let mut queue: Vec<i32> = vec![2, 8];
    binary_add(&mut queue, 5);
    let once = queue.clone();
    binary_add(&mut queue, 5);
    assert_eq!(queue, once);
    assert_eq!(queue, vec![2, 5, 8]);
}

#[test]
fn insert_at_both_ends() {
    let mut queue: Vec<i32> = vec![2, 5];
    binary_add(&mut queue, 1);
    binary_add(&mut queue, 9);
    assert_eq!(queue, vec![1, 2, 5, 9]);
}

#[test]
fn remove_takes_the_floor_out() {
    let mut queue: Vec<i32> = vec![2, 5, 8];
    assert!(binary_remove(&mut queue, 5));
    assert_eq!(queue, vec![2, 8]);
}

#[test]
fn remove_of_an_absent_floor_changes_nothing() {
    let mut queue: Vec<i32> = vec![2, 5, 8];
    assert!(!binary_remove(&mut queue, 4));
    assert_eq!(queue, vec![2, 5, 8]);
    let mut empty: Vec<i32> = Vec::new();
    assert!(!binary_remove(&mut empty, 4));
    assert!(empty.is_empty());
}

#[test]
fn queue_stays_strictly_ascending_under_any_changes() {
    let mut queue: Vec<i32> = Vec::new();
    let mut seed: u32 = 12345;
    for _ in 0..500 {
        seed = seed.wrapping_mul(1103515245).wrapping_add(12345);
        let floor = ((seed >> 16) % 21) as i32 - 10;
        if (seed >> 8) % 3 == 0 {
            change(&mut queue, QueueOp::Remove(floor));
            assert!(!queue.contains(&floor));
        } else {
            change(&mut queue, QueueOp::Insert(floor));
            assert!(queue.contains(&floor));
        }
        for pair in queue.windows(2) {
            assert!(pair[0] < pair[1]);
        }
    }
}

#[test]
fn locate_finds_the_place() {
    let queue: Vec<i32> = vec![2, 5, 8];
    assert_eq!(locate(&queue, &2), Ok(0));
    assert_eq!(locate(&queue, &5), Ok(1));
    assert_eq!(locate(&queue, &8), Ok(2));
    assert_eq!(locate(&queue, &1), Err(0));
    assert_eq!(locate(&queue, &3), Err(1));
    assert_eq!(locate(&queue, &6), Err(2));
    assert_eq!(locate(&queue, &9), Err(3));
    let empty: Vec<i32> = Vec::new();
    assert_eq!(locate(&empty, &9), Err(0));
}

#[test]
fn locate_agrees_with_the_standard_search() {
    let queue: Vec<i32> = vec![-4, -1, 0, 3, 7, 11, 12];
    for floor in -6..15 {
        assert_eq!(locate(&queue, &floor), queue.binary_search(&floor));
    }
}

#[test]
fn next_target_on_an_empty_queue_fails() {
    let queue: Vec<i32> = Vec::new();
    for direction in [Direction::Up, Direction::Down, Direction::Stopped] {
        for floor in [-3, 0, 4] {
            assert_eq!(next_target(&queue, floor, direction), Err(LiftError::NoTargets));
        }
    }
}

#[test]
fn scan_serves_the_own_floor_then_continues_upwards() {
    let mut queue: Vec<i32> = vec![2, 5, 8];
    assert_eq!(next_target(&queue, 5, Direction::Up), Ok((5, Direction::Up)));
    binary_remove(&mut queue, 5);
    assert_eq!(next_target(&queue, 5, Direction::Up), Ok((8, Direction::Up)));
}

#[test]
fn scan_continues_downwards_when_going_down() {
    let queue: Vec<i32> = vec![2, 8];
    assert_eq!(next_target(&queue, 5, Direction::Down), Ok((2, Direction::Down)));
    assert_eq!(next_target(&queue, 5, Direction::Stopped), Ok((2, Direction::Stopped)));
}

#[test]
fn scan_reverses_when_all_targets_are_below() {
    let queue: Vec<i32> = vec![2, 5, 8];
    assert_eq!(next_target(&queue, 9, Direction::Up), Ok((8, Direction::Down)));
    assert_eq!(next_target(&queue, 9, Direction::Stopped), Ok((8, Direction::Down)));
    assert_eq!(next_target(&queue, 9, Direction::Down), Ok((8, Direction::Down)));
}

#[test]
fn scan_reverses_when_all_targets_are_above() {
    let queue: Vec<i32> = vec![2, 5, 8];
    assert_eq!(next_target(&queue, 1, Direction::Down), Ok((2, Direction::Up)));
    assert_eq!(next_target(&queue, 1, Direction::Stopped), Ok((2, Direction::Up)));
    assert_eq!(next_target(&queue, 1, Direction::Up), Ok((2, Direction::Up)));
}

#[test]
fn scan_turns_round_at_the_last_target_going_up() {
    let queue: Vec<i32> = vec![2, 5, 8];
    assert_eq!(next_target(&queue, 8, Direction::Up), Ok((8, Direction::Down)));
    assert_eq!(next_target(&queue, 8, Direction::Down), Ok((8, Direction::Down)));
    assert_eq!(next_target(&queue, 8, Direction::Stopped), Ok((8, Direction::Stopped)));
}

#[test]
fn scan_turns_round_at_the_first_target_going_down() {
    let queue: Vec<i32> = vec![2, 5, 8];
    assert_eq!(next_target(&queue, 2, Direction::Down), Ok((2, Direction::Up)));
    assert_eq!(next_target(&queue, 2, Direction::Up), Ok((2, Direction::Up)));
    assert_eq!(next_target(&queue, 2, Direction::Stopped), Ok((2, Direction::Stopped)));
}

#[test]
fn scan_on_a_single_target() {
    let queue: Vec<i32> = vec![4];
    assert_eq!(next_target(&queue, 4, Direction::Up), Ok((4, Direction::Down)));
    assert_eq!(next_target(&queue, 4, Direction::Down), Ok((4, Direction::Up)));
    assert_eq!(next_target(&queue, 3, Direction::Down), Ok((4, Direction::Up)));
    assert_eq!(next_target(&queue, 5, Direction::Up), Ok((4, Direction::Down)));
}

#[test]
fn passengers_are_ordered_by_pickup_destination_and_riding() {
    let mut riding = Passenger::new(3, 9);
    riding.riding = true;
    let people = [
        Passenger::new(-2, 5),
        Passenger::new(3, 1),
        Passenger::new(3, 9),
        riding,
        Passenger::new(4, 0),
    ];
    for (i, a) in people.iter().enumerate() {
        for (j, b) in people.iter().enumerate() {
            assert_eq!(a.precedes(b), i < j);
            assert_eq!(a.precedes(b), a < b);
        }
    }
}

#[test]
fn passengers_are_inserted_once() {
    let mut people: Vec<Passenger> = Vec::new();
    binary_add(&mut people, Passenger::new(3, 9));
    binary_add(&mut people, Passenger::new(1, 2));
    binary_add(&mut people, Passenger::new(3, 9));
    assert_eq!(people, vec![Passenger::new(1, 2), Passenger::new(3, 9)]);
}

#[test]
fn new_passenger_is_waiting() {
    let p = Passenger::new(7, 2);
    assert_eq!(p.from_floor, 7);
    assert_eq!(p.to_floor, 2);
    assert!(!p.riding);
}

#[test]
fn error_messages() {
    assert_eq!(LiftError::NoTargets.message(), "There are no more targets.");
    assert_eq!(LiftError::NoLiftAvailable.message(), "Could not respond to passenger.");
}
