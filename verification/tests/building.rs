use lifts::building::{sequence, Building};
use lifts::lift::{Pause, Phase};
use lifts::types::{Direction, LiftError, Passenger};

/// Steps lift `index` until it rests with nothing to do; returns the
/// simulated time in milliseconds.
fn run_until_idle(building: &mut Building, index: usize) -> u64 {
    let mut elapsed: u64 = 0;
    for _ in 0..100_000 {
        let lift = building.lift(index).unwrap();
        if lift.phase() == Phase::Ready && lift.targets().is_empty()
            && lift.get_info().1 == Direction::Stopped
        {
            return elapsed;
        }
        elapsed += building.step_lift(index).unwrap().millis();
    }
    panic!("lift {} never came to rest", index);
}

#[test]
fn sequence_counts_from_zero() {
    assert_eq!(sequence(0), Vec::<u32>::new());
    assert_eq!(sequence(4), vec![0, 1, 2, 3]);
}

#[test]
fn new_building_has_idle_lifts() {
    let building = Building::new(-2, 10, 3);
    assert_eq!(building.bottom_floor, -2);
    assert_eq!(building.top_floor, 10);
    assert_eq!(building.lift_count(), 3);
    for i in 0..3 {
        let lift = building.lift(i).unwrap();
        assert_eq!(lift.id() as usize, i);
        assert_eq!(lift.get_info(), (0, Direction::Stopped, false));
        assert!(lift.targets().is_empty());
        assert!(lift.passengers().is_empty());
    }
    assert!(building.lift(3).is_none());
}

#[test]
fn max_value_is_the_span_of_the_floors() {
    assert_eq!(Building::new(0, 10, 1).max_value(), 10);
    assert_eq!(Building::new(-2, 10, 1).max_value(), 12);
    assert_eq!(Building::new(3, 3, 1).max_value(), 0);
    assert_eq!(Building::new(i32::MIN, i32::MAX, 0).max_value(), 4294967295);
}

#[test]
fn abs_floor_is_measured_from_the_bottom() {
    let building = Building::new(-2, 10, 1);
    assert_eq!(building.abs_floor(-2), 0);
    assert_eq!(building.abs_floor(0), 2);
    assert_eq!(building.abs_floor(10), 12);
    assert_eq!(building.abs_floor(-3), 0);
    assert_eq!(Building::new(-1, 10, 1).abs_floor(i32::MAX), 2147483648);
}

#[test]
fn respond_without_lifts_fails() {
    let mut building = Building::new(0, 10, 0);
    assert_eq!(building.respond(Passenger::new(1, 2)), Err(LiftError::NoLiftAvailable));
    assert_eq!(building.lift_count(), 0);
    assert_eq!(building.best_lift(&Passenger::new(1, 2)), Err(LiftError::NoLiftAvailable));
    assert_eq!(
        building.respond_in_order(Passenger::new(1, 2), &Vec::new()),
        Err(LiftError::NoLiftAvailable)
    );
}

#[test]
fn single_lift_takes_the_passenger() {
    let mut building = Building::new(0, 10, 1);
    assert_eq!(building.respond(Passenger::new(7, 2)), Ok(0));
    let lift = building.lift(0).unwrap();
    assert!(lift.targets().contains(&7));
    assert_eq!(lift.targets(), &vec![7]);
    assert_eq!(lift.passengers(), &vec![Passenger::new(7, 2)]);
    assert!(!lift.passengers()[0].riding);
}

#[test]
fn end_to_end_one_passenger() {
    let mut building = Building::new(0, 10, 1);
    assert_eq!(building.respond(Passenger::new(3, 9)), Ok(0));
    let elapsed = run_until_idle(&mut building, 0);
    let lift = building.lift(0).unwrap();
    assert!(lift.passengers().is_empty());
    assert!(lift.targets().is_empty());
    assert_eq!(lift.get_info(), (9, Direction::Stopped, false));
    // nine floors of travel with a rest after each, two stops with two door
    // spells each, and the rest in which the lift finds nothing to do
    assert_eq!(elapsed, 9 * 500 + 7 * 100 + 2 * (2 * 750 + 100) + 100);
}

#[test]
fn nearer_lift_is_chosen_whatever_the_order() {
    for _ in 0..50 {
        let mut building = Building::new(0, 10, 2);
        // send one lift to the top
        let far = building.respond(Passenger::new(10, 10)).unwrap();
        run_until_idle(&mut building, far);
        assert_eq!(building.lift(far).unwrap().get_info().0, 10);
        assert_eq!(building.lift(1 - far).unwrap().get_info().0, 0);
        let request = Passenger::new(9, 4);
        assert_eq!(building.best_lift_in_order(&request, &vec![0, 1]), Some(far));
        assert_eq!(building.best_lift_in_order(&request, &vec![1, 0]), Some(far));
        assert_eq!(building.best_lift(&request), Ok(far));
        assert_eq!(building.respond(request), Ok(far));
        assert!(building.lift(far).unwrap().targets().contains(&9));
        assert!(building.lift(1 - far).unwrap().targets().is_empty());
    }
}

#[test]
fn ties_go_to_the_lift_looked_at_first() {
    let building = Building::new(0, 10, 3);
    let request = Passenger::new(4, 1);
    assert_eq!(building.best_lift_in_order(&request, &vec![0, 1, 2]), Some(0));
    assert_eq!(building.best_lift_in_order(&request, &vec![2, 0, 1]), Some(2));
    assert_eq!(building.best_lift_in_order(&request, &vec![1, 2, 0]), Some(1));
    assert_eq!(building.best_lift_in_order(&request, &vec![1]), Some(1));
    assert_eq!(building.best_lift_in_order(&request, &Vec::new()), None);
}

#[test]
fn respond_in_order_assigns_to_the_leader() {
    let mut building = Building::new(0, 10, 3);
    assert_eq!(building.respond_in_order(Passenger::new(4, 1), &vec![2, 0, 1]), Ok(2));
    assert_eq!(building.lift(2).unwrap().targets(), &vec![4]);
    assert_eq!(building.lift(2).unwrap().passengers(), &vec![Passenger::new(4, 1)]);
    assert!(building.lift(0).unwrap().targets().is_empty());
    assert!(building.lift(1).unwrap().targets().is_empty());
}

#[test]
fn ties_are_broken_by_chance() {
    // with the lifts always looked at in the same order, lift 0 would win
    // every one of these ties
    let mut seen = [false; 4];
    for _ in 0..400 {
        let mut building = Building::new(0, 10, 4);
        let index = building.respond(Passenger::new(5, 0)).unwrap();
        seen[index] = true;
    }
    assert_eq!(seen, [true; 4]);
}

#[test]
fn busy_lift_is_passed_over_for_an_idle_one() {
    let mut building = Building::new(0, 20, 2);
    let busy = building.respond_in_order(Passenger::new(15, 0), &vec![0, 1]).unwrap();
    assert_eq!(busy, 0);
    // lift 0 sets off upwards and travels two floors
    for _ in 0..4 {
        building.step_lift(0);
    }
    assert_eq!(building.lift(0).unwrap().get_info(), (2, Direction::Up, false));
    // a passenger at floor 1 going down: lift 0 would finish its way up
    // (13 floors) and come back (14), lift 1 is one floor away
    let request = Passenger::new(1, 0);
    assert_eq!(building.lift(0).unwrap().distance_from(&request), 27);
    assert_eq!(building.lift(1).unwrap().distance_from(&request), 1);
    assert_eq!(building.respond(request), Ok(1));
    // a passenger ahead of lift 0 going up is picked up on the way
    let ahead = Passenger::new(6, 9);
    assert_eq!(building.lift(0).unwrap().distance_from(&ahead), 4);
    assert_eq!(building.lift(1).unwrap().distance_from(&ahead), 6);
    assert_eq!(building.respond(ahead), Ok(0));
}

#[test]
fn step_lift_outside_the_bank_does_nothing() {
    let mut building = Building::new(0, 10, 2);
    assert_eq!(building.step_lift(2), None);
    assert_eq!(building.step_lift(0), Some(Pause::Poll));
}

#[test]
fn data_reports_height_and_label() {
    let mut building = Building::new(-2, 10, 2);
    assert_eq!(building.data(), vec![(2, "0  ".to_string()), (2, "0  ".to_string())]);
    building.respond_in_order(Passenger::new(1, 0), &vec![1]).unwrap();
    building.step_lift(1);
    assert_eq!(building.data()[1], (2, "0 \u{2191}".to_string()));
    building.step_lift(1);
    assert_eq!(building.data()[1], (3, "1 \u{2194}".to_string()));
    assert_eq!(building.data()[0], (2, "0  ".to_string()));
}

#[test]
fn data_clamps_floors_below_the_bottom() {
    let building = Building::new(3, 10, 1);
    assert_eq!(building.data(), vec![(0, "0  ".to_string())]);
}

#[test]
fn lift_count_wraps_at_sixteen_bits() {
    assert_eq!(Building::new(0, 1, 65535).lift_count(), 65535);
    assert_eq!(Building::new(0, 1, 65536).lift_count(), 0);
    assert_eq!(Building::new(0, 1, 65541).lift_count(), 5);
}

#[test]
fn random_sends_a_passenger_between_two_floors_of_the_building() {
    let mut from_seen = [false; 5];
    for _ in 0..400 {
        let mut building = Building::new(-2, 3, 1);
        building.random();
        let lift = building.lift(0).unwrap();
        assert_eq!(lift.passengers().len(), 1);
        let p = lift.passengers()[0];
        assert!(-2 <= p.from_floor && p.from_floor < 3);
        assert!(-2 <= p.to_floor && p.to_floor < 3);
        assert_ne!(p.from_floor, p.to_floor);
        assert!(!p.riding);
        assert_eq!(lift.targets(), &vec![p.from_floor]);
        from_seen[(p.from_floor + 2) as usize] = true;
    }
    // unshuffled, the pickup floor would always be the bottom floor
    assert_eq!(from_seen, [true; 5]);
}

#[test]
fn random_with_two_floors() {
    let mut building = Building::new(4, 6, 1);
    building.random();
    let p = building.lift(0).unwrap().passengers()[0];
    assert!((p.from_floor, p.to_floor) == (4, 5) || (p.from_floor, p.to_floor) == (5, 4));
}

#[test]
fn realistic_random_goes_to_or_from_the_ground_floor() {
    let mut inbound = false;
    let mut outbound = false;
    let mut floors = [false; 8];
    for _ in 0..600 {
        let mut building = Building::new(2, 10, 1);
        building.realistic_random();
        let lift = building.lift(0).unwrap();
        assert_eq!(lift.passengers().len(), 1);
        let p = lift.passengers()[0];
        assert!(p.from_floor == 0 || p.to_floor == 0);
        let other = if p.from_floor == 0 { p.to_floor } else { p.from_floor };
        assert!(2 <= other && other < 10);
        floors[(other - 2) as usize] = true;
        if p.from_floor == 0 {
            outbound = true;
        } else {
            inbound = true;
        }
    }
    assert!(inbound && outbound);
    // a pick that always returned the lower bound would show one floor only
    assert_eq!(floors, [true; 8]);
}

#[test]
fn random_without_lifts_changes_nothing() {
    let mut building = Building::new(0, 10, 0);
    building.random();
    building.realistic_random();
    assert_eq!(building.lift_count(), 0);
}

#[test]
fn every_lift_keeps_its_riders_destinations_queued() {
    let mut building = Building::new(0, 12, 3);
    for round in 0..2000 {
        if round % 9 == 0 {
            building.random();
        }
        if round % 31 == 0 {
            building.realistic_random();
        }
        let index = round % 3;
        building.step_lift(index);
        for i in 0..3 {
            let lift = building.lift(i).unwrap();
            for p in lift.passengers() {
                assert!(!p.riding || lift.targets().contains(&p.to_floor));
            }
        }
    }
    for index in 0..3 {
        run_until_idle(&mut building, index);
        assert!(building.lift(index).unwrap().passengers().is_empty());
    }
}
