//! One lift: its position, its passengers, its target queue, and the cycle by
//! which it serves them.

use vstd::prelude::*;
use crate::order::{
    ascending, binary_add, binary_remove, lemma_ascending_is_sorted, lemma_with_item,
    lemma_without_item, sorted, with_item, without_item, Ranked,
};
use crate::targets::{next_stop, next_target};
use crate::label::{label_for, label_text};
use crate::types::{difference, gap, Direction, LiftError, Passenger};

verus! {

/// The time a floor of travel takes, in milliseconds.
pub const MS_PER_FLOOR: u64 = 500;

/// The time the doors stay open for boarding, and again before they close,
/// in milliseconds.
pub const DOOR_OPEN_TIME: u64 = 750;

/// The time a lift rests between two cycles, in milliseconds.
pub const POLL_TIME: u64 = 100;

/// What a lift is in the middle of.
#[derive(Clone, Copy, Debug, PartialEq, Eq, Structural)]
pub enum Phase {
    /// Between two cycles: the next step looks for a target.
    Ready,
    /// On the way to the adjacent floor `to` (or staying put, where `to` is
    /// the current floor): the next step arrives there.
    Travelling { to: i32 },
    /// Doors open, passengers getting in and out.
    Boarding,
    /// Doors still open, about to close.
    Closing,
}

/// How long the caller of [`Lift::step`] waits before the next step.
#[derive(Clone, Copy, Debug, PartialEq, Eq, Structural)]
pub enum Pause {
    /// The rest between two cycles.
    Poll,
    /// The time to travel one floor.
    Travel,
    /// One of the two spells for which the doors stay open.
    Dwell,
}

impl Pause {
    /// The length of the pause in milliseconds.
    pub open spec fn duration(self) -> u64 {
        match self {
            Pause::Poll => POLL_TIME,
            Pause::Travel => MS_PER_FLOOR,
            Pause::Dwell => DOOR_OPEN_TIME,
        }
    }

    /// The length of the pause in milliseconds.
    pub fn millis(&self) -> (ms: u64)
        ensures
            ms == self.duration(),
    {
        match self {
            Pause::Poll => POLL_TIME,
            Pause::Travel => MS_PER_FLOOR,
            Pause::Dwell => DOOR_OPEN_TIME,
        }
    }
}

/// What a passenger becomes when the lift arrives at `floor`: one who waits
/// there gets in.
pub open spec fn boards_at(floor: i32) -> spec_fn(Passenger) -> Passenger {
    |p: Passenger|
        if p.from_floor == floor {
            p.boarded()
        } else {
            p
        }
}

/// Whether a passenger is still with the lift after it stopped at `floor`:
/// one who rides and wanted to go there has left.
pub open spec fn stays_at(floor: i32) -> spec_fn(Passenger) -> bool {
    |p: Passenger| !(p.riding && p.to_floor == floor)
}

/// The passengers of a lift after it arrived at `floor`: those waiting there
/// have boarded, and those riding to that floor are gone, including any who
/// boarded this very moment.
pub open spec fn passengers_after(passengers: Seq<Passenger>, floor: i32) -> Seq<Passenger> {
    passengers.map_values(boards_at(floor)).filter(stays_at(floor))
}

/// The target queue `targets` after the destination of every passenger who
/// waits at `floor` has been inserted.
pub open spec fn with_destinations(
    targets: Seq<i32>,
    passengers: Seq<Passenger>,
    floor: i32,
) -> Seq<i32>
    decreases passengers.len(),
{
    if passengers.len() == 0 {
        targets
    } else {
        let rest = with_destinations(targets, passengers.drop_last(), floor);
        if passengers.last().from_floor == floor {
            with_item(rest, passengers.last().to_floor)
        } else {
            rest
        }
    }
}

/// The state of a lift.
pub struct LiftView {
    pub id: u32,
    pub floor: i32,
    pub direction: Direction,
    pub doors_open: bool,
    /// Waiting and riding passengers, sorted by pickup floor, destination,
    /// and waiting before riding.
    pub passengers: Seq<Passenger>,
    /// The floors to stop at, strictly ascending.
    pub targets: Seq<i32>,
    pub phase: Phase,
}

impl LiftView {
    /// A lift as it is built: at floor 0, stopped, doors closed, empty.
    pub open spec fn fresh(id: u32) -> LiftView {
        LiftView {
            id,
            floor: 0,
            direction: Direction::Stopped,
            doors_open: false,
            passengers: Seq::empty(),
            targets: Seq::empty(),
            phase: Phase::Ready,
        }
    }

    /// The order that every lift keeps: targets strictly ascending,
    /// passengers sorted.
    pub open spec fn wf(self) -> bool {
        &&& ascending(self.targets)
        &&& sorted(self.passengers)
    }

    /// Every passenger who rides has their destination in the target queue.
    pub open spec fn riders_have_targets(self) -> bool {
        forall|i: int|
            0 <= i < self.passengers.len() && (#[trigger] self.passengers[i]).riding
                ==> self.targets.contains(self.passengers[i].to_floor)
    }

    /// Position, direction and doors.
    pub open spec fn info(self) -> (i32, Direction, bool) {
        (self.floor, self.direction, self.doors_open)
    }

    /// The lift with `target` in its queue.
    pub open spec fn with_target(self, target: i32) -> LiftView {
        LiftView { targets: with_item(self.targets, target), ..self }
    }

    /// The lift after `passenger` was assigned to it: the passenger is among
    /// its passengers, the pickup floor among its targets.
    pub open spec fn with_passenger(self, passenger: Passenger) -> LiftView {
        LiftView {
            passengers: with_item(self.passengers, passenger),
            targets: with_item(self.targets, passenger.from_floor),
            ..self
        }
    }

    /// The lift after it looked for its next target: where there is one, it
    /// has the direction that goes with it.
    pub open spec fn aimed(self) -> LiftView {
        if self.targets.len() == 0 {
            self
        } else {
            LiftView { direction: next_stop(self.targets, self.floor, self.direction).1, ..self }
        }
    }

    /// The floor next to the lift's own on the way to `target`.
    pub open spec fn toward(self, target: i32) -> i32 {
        if target > self.floor {
            (self.floor + 1) as i32
        } else if target < self.floor {
            (self.floor - 1) as i32
        } else {
            self.floor
        }
    }

    /// The lift after it set off for `target`: it points that way (or keeps
    /// its direction when it is there already) and is on its way to the
    /// adjacent floor.
    pub open spec fn departed(self, target: i32) -> LiftView {
        LiftView {
            direction: if target > self.floor {
                Direction::Up
            } else if target < self.floor {
                Direction::Down
            } else {
                self.direction
            },
            phase: Phase::Travelling { to: self.toward(target) },
            ..self
        }
    }

    /// The lift after it arrived at `floor`. A floor that was a target leaves
    /// the queue and has the doors open. Passengers waiting there board and
    /// their destinations enter the queue; passengers riding there leave.
    pub open spec fn arrived(self, floor: i32) -> LiftView {
        let stop = self.targets.contains(floor);
        LiftView {
            floor,
            targets: with_destinations(without_item(self.targets, floor), self.passengers, floor),
            passengers: passengers_after(self.passengers, floor),
            doors_open: stop || self.doors_open,
            phase: if stop {
                Phase::Boarding
            } else {
                Phase::Ready
            },
            ..self
        }
    }

    /// One step of the lift's cycle, and the pause that follows it.
    ///
    /// * `Ready`: with no target the lift stops and rests; otherwise it takes
    ///   the direction of its next stop and sets off.
    /// * `Travelling`: the lift arrives; the doors open if the floor was a
    ///   target.
    /// * `Boarding`, `Closing`: the doors stay open for two spells, then close.
    pub open spec fn stepped(self) -> (LiftView, Pause) {
        match self.phase {
            Phase::Ready => {
                if self.targets.len() == 0 {
                    (LiftView { direction: Direction::Stopped, ..self }, Pause::Poll)
                } else {
                    let stop = next_stop(self.targets, self.floor, self.direction).0;
                    (self.aimed().departed(stop), Pause::Travel)
                }
            },
            Phase::Travelling { to } => {
                let there = self.arrived(to);
                (
                    there,
                    if there.phase == Phase::Boarding {
                        Pause::Dwell
                    } else {
                        Pause::Poll
                    },
                )
            },
            Phase::Boarding => (LiftView { phase: Phase::Closing, ..self }, Pause::Dwell),
            Phase::Closing => (
                LiftView { doors_open: false, phase: Phase::Ready, ..self },
                Pause::Poll,
            ),
        }
    }

    /// The label of the lift: its floor, a blank, and its symbol.
    pub open spec fn label(self) -> Seq<char> {
        label_text(self.floor, self.direction, self.doors_open)
    }

    /// The estimated number of floors the lift travels before it can pick up
    /// `passenger`.
    ///
    /// An idle lift goes straight there, and so does one that moves the
    /// passenger's way and has the pickup floor still ahead. Any other lift
    /// first finishes its sweep to the last target in its direction and comes
    /// back from there.
    pub open spec fn estimate(self, passenger: Passenger) -> int {
        let from = passenger.from_floor as int;
        let at = self.floor as int;
        if self.direction == Direction::Stopped || self.targets.len() == 0 {
            gap(at, from)
        } else if self.direction == passenger.heading() && (if self.direction == Direction::Up {
            at < from
        } else {
            at > from
        }) {
            gap(at, from)
        } else {
            let turn = if self.direction == Direction::Up {
                self.targets.last() as int
            } else {
                self.targets.first() as int
            };
            gap(at, turn) + gap(turn, from)
        }
    }
}

/// Inserting destinations keeps the queue ascending, keeps what was in it,
/// and adds exactly the destinations of the passengers who wait at `floor`.
pub proof fn lemma_with_destinations(targets: Seq<i32>, passengers: Seq<Passenger>, floor: i32)
    requires
        ascending(targets),
    ensures
        ascending(with_destinations(targets, passengers, floor)),
        forall|y: i32| #[trigger]
            targets.contains(y) ==> with_destinations(targets, passengers, floor).contains(y),
        forall|j: int|
            0 <= j < passengers.len() && (#[trigger] passengers[j]).from_floor == floor
                ==> with_destinations(targets, passengers, floor).contains(passengers[j].to_floor),
        forall|y: i32| #[trigger]
            with_destinations(targets, passengers, floor).contains(y) ==> targets.contains(y)
                || exists|j: int|
                0 <= j < passengers.len() && (#[trigger] passengers[j]).from_floor == floor
                    && passengers[j].to_floor == y,
    decreases passengers.len(),
{
    let all = with_destinations(targets, passengers, floor);
    if passengers.len() > 0 {
        let front = passengers.drop_last();
        let last = passengers.last();
        let rest = with_destinations(targets, front, floor);
        lemma_with_destinations(targets, front, floor);
        lemma_ascending_is_sorted(rest);
        lemma_with_item(rest, last.to_floor);
        assert forall|j: int|
            0 <= j < passengers.len() && (#[trigger] passengers[j]).from_floor
                == floor implies all.contains(passengers[j].to_floor) by {
            if j < front.len() {
                assert(front[j] == passengers[j]);
                assert(rest.contains(front[j].to_floor));
            }
        }
        assert forall|y: i32| #[trigger] all.contains(y) implies targets.contains(y) || exists|
            j: int,
        |
            0 <= j < passengers.len() && (#[trigger] passengers[j]).from_floor == floor
                && passengers[j].to_floor == y by {
            if !targets.contains(y) {
                if rest.contains(y) {
                    let j = choose|j: int|
                        0 <= j < front.len() && (#[trigger] front[j]).from_floor == floor
                            && front[j].to_floor == y;
                    assert(passengers[j] == front[j]);
                } else {
                    assert(passengers[passengers.len() - 1] == last);
                }
            }
        }
    }
}

/// Boarding and leaving keep the passengers sorted, and everyone still with
/// the lift was with it before, in the state that boarding left them in.
pub proof fn lemma_passengers_after(passengers: Seq<Passenger>, floor: i32)
    requires
        sorted(passengers),
    ensures
        sorted(passengers_after(passengers, floor)),
        forall|k: int|
            0 <= k < passengers_after(passengers, floor).len() ==> stays_at(floor)(
                #[trigger] passengers_after(passengers, floor)[k],
            ) && exists|j: int|
                0 <= j < passengers.len() && passengers_after(passengers, floor)[k] == boards_at(
                    floor,
                )(#[trigger] passengers[j]),
    decreases passengers.len(),
{
    let after = passengers_after(passengers, floor);
    if passengers.len() == 0 {
        passengers.map_values(boards_at(floor)).lemma_filter_len(stays_at(floor));
    } else {
        let front = passengers.drop_last();
        let last = passengers.last();
        let moved = boards_at(floor)(last);
        let before = passengers_after(front, floor);
        assert forall|i: int, j: int| 0 <= i < j < front.len() implies !(#[trigger] front[j]).before(
            #[trigger] front[i],
        ) by {
            assert(front[i] == passengers[i] && front[j] == passengers[j]);
        }
        lemma_passengers_after(front, floor);
        assert(passengers.map_values(boards_at(floor)) =~= front.map_values(
            boards_at(floor),
        ).push(moved));
        front.map_values(boards_at(floor)).lemma_filter_push(moved, stays_at(floor));
        assert forall|k: int| 0 <= k < after.len() implies stays_at(floor)(#[trigger] after[k])
            && exists|j: int|
            0 <= j < passengers.len() && after[k] == boards_at(floor)(
                #[trigger] passengers[j],
            ) by {
            if k < before.len() {
                assert(after[k] == before[k]);
                let j = choose|j: int|
                    0 <= j < front.len() && before[k] == boards_at(floor)(#[trigger] front[j]);
                assert(front[j] == passengers[j]);
            } else {
                assert(after[k] == moved);
                assert(passengers[passengers.len() - 1] == last);
            }
        }
        assert forall|i: int, j: int| 0 <= i < j < after.len() implies !(#[trigger] after[j]).before(
            #[trigger] after[i],
        ) by {
            if j < before.len() {
                assert(after[i] == before[i] && after[j] == before[j]);
            } else {
                assert(after[j] == moved);
                assert(after[i] == before[i]);
                let m = choose|m: int|
                    0 <= m < front.len() && before[i] == boards_at(floor)(#[trigger] front[m]);
                assert(front[m] == passengers[m]);
                assert(!passengers[passengers.len() - 1].before(passengers[m]));
            }
        }
    }
}

impl LiftView {
    /// A new lift is in order and carries nobody.
    pub proof fn lemma_fresh(id: u32)
        ensures
            LiftView::fresh(id).wf(),
            LiftView::fresh(id).riders_have_targets(),
    {
    }

    /// Assigning a passenger keeps the lift in order. A passenger who has not
    /// boarded cannot break the rule that riders have their destination
    /// queued.
    pub proof fn lemma_with_passenger(self, passenger: Passenger)
        requires
            self.wf(),
        ensures
            self.with_passenger(passenger).wf(),
            self.with_passenger(passenger).targets.contains(passenger.from_floor),
            self.with_passenger(passenger).passengers.contains(passenger),
            self.riders_have_targets() && !passenger.riding ==> self.with_passenger(
                passenger,
            ).riders_have_targets(),
    {
        lemma_ascending_is_sorted(self.targets);
        lemma_with_item(self.targets, passenger.from_floor);
        lemma_with_item(self.passengers, passenger);
        let next = self.with_passenger(passenger);
        if self.riders_have_targets() && !passenger.riding {
            assert forall|i: int|
                0 <= i < next.passengers.len() && (#[trigger] next.passengers[i]).riding
                    implies next.targets.contains(next.passengers[i].to_floor) by {
                let p = next.passengers[i];
                assert(next.passengers.contains(p));
                assert(self.passengers.contains(p));
                let k = choose|k: int| 0 <= k < self.passengers.len() && self.passengers[k] == p;
                assert(self.passengers[k].riding);
                assert(self.targets.contains(p.to_floor));
            }
        }
    }

    /// Adding a target keeps the lift in order and its riders' destinations
    /// queued.
    pub proof fn lemma_with_target(self, target: i32)
        requires
            self.wf(),
        ensures
            self.with_target(target).wf(),
            self.with_target(target).targets.contains(target),
            self.riders_have_targets() ==> self.with_target(target).riders_have_targets(),
    {
        lemma_ascending_is_sorted(self.targets);
        lemma_with_item(self.targets, target);
    }

    /// Arriving at a floor keeps the lift in order, and every rider's
    /// destination queued: whoever boards has their destination inserted at
    /// that moment, and the only floor that leaves the queue is the one where
    /// its riders get out.
    pub proof fn lemma_arrived(self, floor: i32)
        requires
            self.wf(),
        ensures
            self.arrived(floor).wf(),
            self.riders_have_targets() ==> self.arrived(floor).riders_have_targets(),
    {
        let next = self.arrived(floor);
        let base = without_item(self.targets, floor);
        lemma_ascending_is_sorted(self.targets);
        lemma_without_item(self.targets, floor);
        lemma_with_destinations(base, self.passengers, floor);
        lemma_passengers_after(self.passengers, floor);
        if self.riders_have_targets() {
            assert forall|i: int|
                0 <= i < next.passengers.len() && (#[trigger] next.passengers[i]).riding
                    implies next.targets.contains(next.passengers[i].to_floor) by {
                let p = next.passengers[i];
                assert(stays_at(floor)(p));
                let j = choose|j: int|
                    0 <= j < self.passengers.len() && p == boards_at(floor)(
                        #[trigger] self.passengers[j],
                    );
                let q = self.passengers[j];
                let y = p.to_floor;
                if q.from_floor != floor {
                    assert(q == p);
                    assert(self.targets.contains(y));
                    assert(y != floor);
                    assert(base.contains(y));
                } else {
                    assert(q.from_floor == floor && q.to_floor == y);
                }
                assert(next.targets == with_destinations(base, self.passengers, floor));
                assert(next.targets.contains(y));
            }
        }
    }

    /// A step of the cycle keeps the lift in order and every rider's
    /// destination queued.
    pub proof fn lemma_stepped(self)
        requires
            self.wf(),
        ensures
            self.stepped().0.wf(),
            self.riders_have_targets() ==> self.stepped().0.riders_have_targets(),
    {
        match self.phase {
            Phase::Travelling { to } => {
                self.lemma_arrived(to);
            },
            _ => {},
        }
    }
}

/// One lift of the building.
#[derive(Debug)]
pub struct Lift {
    id: u32,
    floor: i32,
    direction: Direction,
    doors_open: bool,
    passengers: Vec<Passenger>,
    targets: Vec<i32>,
    phase: Phase,
}

impl View for Lift {
    type V = LiftView;

    closed spec fn view(&self) -> LiftView {
        LiftView {
            id: self.id,
            floor: self.floor,
            direction: self.direction,
            doors_open: self.doors_open,
            passengers: self.passengers@,
            targets: self.targets@,
            phase: self.phase,
        }
    }
}

impl Lift {
    /// Every lift keeps its targets strictly ascending and its passengers
    /// sorted.
    #[verifier::type_invariant]
    pub closed spec fn in_order(self) -> bool {
        self@.wf()
    }

    /// A lift at floor 0, stopped, doors closed, with no passengers and no
    /// targets.
    pub fn new(id: u32) -> (lift: Lift)
        ensures
            lift@ == LiftView::fresh(id),
            lift@.wf(),
    {
        Lift {
            id,
            floor: 0,
            direction: Direction::Stopped,
            doors_open: false,
            passengers: Vec::new(),
            targets: Vec::new(),
            phase: Phase::Ready,
        }
    }

    /// The floor the lift is at, its direction, and whether its doors are
    /// open.
    pub fn get_info(&self) -> (info: (i32, Direction, bool))
        ensures
            info == self@.info(),
            self@.wf(),
    {
        proof {
            use_type_invariant(self);
        }
        (self.floor, self.direction, self.doors_open)
    }

    /// The number the lift was built with.
    pub fn id(&self) -> (id: u32)
        ensures
            id == self@.id,
    {
        self.id
    }

    /// What the lift is in the middle of.
    pub fn phase(&self) -> (phase: Phase)
        ensures
            phase == self@.phase,
    {
        self.phase
    }

    /// The floors the lift still has to stop at, lowest first.
    pub fn targets(&self) -> (targets: &Vec<i32>)
        ensures
            targets@ == self@.targets,
    {
        &self.targets
    }

    /// The passengers assigned to the lift, waiting or riding.
    pub fn passengers(&self) -> (passengers: &Vec<Passenger>)
        ensures
            passengers@ == self@.passengers,
    {
        &self.passengers
    }

    /// Hands out the target queue and leaves an empty one in its place, to
    /// be put back once it has been changed.
    fn take_targets(&mut self) -> (targets: Vec<i32>)
        ensures
            targets@ == old(self)@.targets,
            final(self)@ == (LiftView { targets: Seq::empty(), ..old(self)@ }),
    {
        proof {
            use_type_invariant(&*self);
        }
        let mut targets: Vec<i32> = Vec::new();
        std::mem::swap(&mut self.targets, &mut targets);
        targets
    }

    /// Hands out the passengers and leaves none in their place, to be put
    /// back once they have been changed.
    fn take_passengers(&mut self) -> (passengers: Vec<Passenger>)
        ensures
            passengers@ == old(self)@.passengers,
            final(self)@ == (LiftView { passengers: Seq::empty(), ..old(self)@ }),
    {
        proof {
            use_type_invariant(&*self);
        }
        let mut passengers: Vec<Passenger> = Vec::new();
        std::mem::swap(&mut self.passengers, &mut passengers);
        passengers
    }

    /// Puts the lift at `new_floor` and returns its position, direction and
    /// doors.
    pub fn set_floor(&mut self, new_floor: i32) -> (info: (i32, Direction, bool))
        ensures
            final(self)@ == (LiftView { floor: new_floor, ..old(self)@ }),
            info == final(self)@.info(),
            final(self)@.wf(),
    {
        proof {
            use_type_invariant(&*self);
        }
        self.floor = new_floor;
        (self.floor, self.direction, self.doors_open)
    }

    /// Gives the lift a direction and returns its position, direction and
    /// doors.
    pub fn set_direction(&mut self, new_direction: Direction) -> (info: (i32, Direction, bool))
        ensures
            final(self)@ == (LiftView { direction: new_direction, ..old(self)@ }),
            info == final(self)@.info(),
            final(self)@.wf(),
    {
        proof {
            use_type_invariant(&*self);
        }
        self.direction = new_direction;
        (self.floor, self.direction, self.doors_open)
    }

    /// Opens or closes the doors and returns the lift's position, direction
    /// and doors.
    pub fn set_doors_open(&mut self, status: bool) -> (info: (i32, Direction, bool))
        ensures
            final(self)@ == (LiftView { doors_open: status, ..old(self)@ }),
            info == final(self)@.info(),
            final(self)@.wf(),
    {
        proof {
            use_type_invariant(&*self);
        }
        self.doors_open = status;
        (self.floor, self.direction, self.doors_open)
    }

    /// Puts `target` into the queue, unless it is there already.
    pub fn add_target(&mut self, target: i32) -> (info: (i32, Direction, bool))
        ensures
            final(self)@ == old(self)@.with_target(target),
            info == final(self)@.info(),
            final(self)@.wf(),
            final(self)@.targets.contains(target),
            old(self)@.riders_have_targets() ==> final(self)@.riders_have_targets(),
    {
        proof {
            use_type_invariant(&*self);
            self@.lemma_with_target(target);
            lemma_ascending_is_sorted(self.targets@);
        }
        let mut targets = self.take_targets();
        binary_add(&mut targets, target);
        self.targets = targets;
        (self.floor, self.direction, self.doors_open)
    }

    /// Assigns `passenger` to the lift: the passenger joins its passengers
    /// and the pickup floor joins its targets, each unless already there.
    pub fn add_passenger(&mut self, passenger: Passenger) -> (info: (i32, Direction, bool))
        ensures
            final(self)@ == old(self)@.with_passenger(passenger),
            info == final(self)@.info(),
            final(self)@.wf(),
            final(self)@.targets.contains(passenger.from_floor),
            final(self)@.passengers.contains(passenger),
            old(self)@.riders_have_targets() && !passenger.riding
                ==> final(self)@.riders_have_targets(),
    {
        proof {
            use_type_invariant(&*self);
            self@.lemma_with_passenger(passenger);
            lemma_ascending_is_sorted(self.targets@);
        }
        let mut passengers = self.take_passengers();
        binary_add(&mut passengers, passenger);
        self.passengers = passengers;
        let mut targets = self.take_targets();
        binary_add(&mut targets, passenger.from_floor);
        self.targets = targets;
        (self.floor, self.direction, self.doors_open)
    }

    /// Picks the next stop and takes the direction that goes with it.
    ///
    /// Fails with `NoTargets` exactly when the queue is empty, and then
    /// changes nothing.
    pub fn next_target(&mut self) -> (r: Result<i32, LiftError>)
        ensures
            final(self)@ == old(self)@.aimed(),
            final(self)@.wf(),
            old(self)@.targets.len() == 0 ==> r == Err::<i32, LiftError>(LiftError::NoTargets),
            old(self)@.targets.len() > 0 ==> r == Ok::<i32, LiftError>(
                next_stop(old(self)@.targets, old(self)@.floor, old(self)@.direction).0,
            ),
            r matches Ok(stop) ==> old(self)@.targets.contains(stop),
    {
        proof {
            use_type_invariant(&*self);
        }
        match next_target(&self.targets, self.floor, self.direction) {
            Ok((stop, direction)) => {
                self.direction = direction;
                Ok(stop)
            },
            Err(e) => Err(e),
        }
    }

    /// Sets off for `target`: the lift points towards it and is on its way to
    /// the adjacent floor. At the target already, it keeps its direction and
    /// stays.
    pub fn move_towards(&mut self, target: i32) -> (info: (i32, Direction, bool))
        ensures
            final(self)@ == old(self)@.departed(target),
            info == final(self)@.info(),
            final(self)@.wf(),
    {
        proof {
            use_type_invariant(&*self);
        }
        if target > self.floor {
            self.direction = Direction::Up;
            self.phase = Phase::Travelling { to: self.floor + 1 };
        } else if target < self.floor {
            self.direction = Direction::Down;
            self.phase = Phase::Travelling { to: self.floor - 1 };
        } else {
            self.phase = Phase::Travelling { to: self.floor };
        }
        (self.floor, self.direction, self.doors_open)
    }

    /// Opens the doors for boarding.
    pub fn open_doors(&mut self) -> (info: (i32, Direction, bool))
        ensures
            final(self)@ == (LiftView { doors_open: true, phase: Phase::Boarding, ..old(self)@ }),
            info == final(self)@.info(),
            final(self)@.wf(),
    {
        proof {
            use_type_invariant(&*self);
        }
        self.doors_open = true;
        self.phase = Phase::Boarding;
        (self.floor, self.direction, self.doors_open)
    }

    /// Arrives at `new_floor`.
    ///
    /// If the floor is a target it leaves the queue and the doors open.
    /// Whoever waits at the floor boards, and their destination enters the
    /// queue; whoever rides to the floor leaves the lift.
    pub fn reach_floor(&mut self, new_floor: i32) -> (info: (i32, Direction, bool))
        ensures
            final(self)@ == old(self)@.arrived(new_floor),
            info == final(self)@.info(),
            final(self)@.wf(),
            old(self)@.riders_have_targets() ==> final(self)@.riders_have_targets(),
    {
        proof {
            use_type_invariant(&*self);
            self@.lemma_arrived(new_floor);
            lemma_ascending_is_sorted(self.targets@);
            lemma_without_item(self.targets@, new_floor);
        }
        let ghost before = self@;
        let ghost base = without_item(self.targets@, new_floor);
        self.floor = new_floor;
        let mut targets = self.take_targets();
        let passengers = self.take_passengers();
        let stop = binary_remove(&mut targets, new_floor);
        let mut kept: Vec<Passenger> = Vec::new();
        let count = passengers.len();
        let mut i: usize = 0;
        proof {
            assert(before.passengers.take(0) =~= Seq::<Passenger>::empty());
            before.passengers.take(0).map_values(boards_at(new_floor)).lemma_filter_len(
                stays_at(new_floor),
            );
            assert(kept@ =~= passengers_after(before.passengers.take(0), new_floor));
        }
        while i < count
            invariant
                i <= count == before.passengers.len(),
                passengers@ == before.passengers,
                ascending(targets@),
                targets@ == with_destinations(base, before.passengers.take(i as int), new_floor),
                kept@ == passengers_after(before.passengers.take(i as int), new_floor),
            decreases count - i,
        {
            let mut p = passengers[i];
            proof {
                let upto = before.passengers.take(i as int);
                let next = before.passengers.take(i + 1);
                assert(next.drop_last() =~= upto);
                assert(next.last() == p);
                assert(next.map_values(boards_at(new_floor)) =~= upto.map_values(
                    boards_at(new_floor),
                ).push(boards_at(new_floor)(p)));
                upto.map_values(boards_at(new_floor)).lemma_filter_push(
                    boards_at(new_floor)(p),
                    stays_at(new_floor),
                );
                lemma_ascending_is_sorted(targets@);
            }
            if p.from_floor == new_floor {
                p.riding = true;
                binary_add(&mut targets, p.to_floor);
            }
            if !(p.riding && p.to_floor == new_floor) {
                kept.push(p);
            }
            i += 1;
        }
        proof {
            assert(before.passengers.take(count as int) =~= before.passengers);
        }
        self.targets = targets;
        self.passengers = kept;
        if stop {
            self.open_doors();
        } else {
            self.phase = Phase::Ready;
        }
        (self.floor, self.direction, self.doors_open)
    }

    /// Performs the next step of the lift's cycle and says how long to wait
    /// before the step after it.
    pub fn step(&mut self) -> (pause: Pause)
        ensures
            final(self)@ == old(self)@.stepped().0,
            final(self)@.wf(),
            pause == old(self)@.stepped().1,
            old(self)@.riders_have_targets() ==> final(self)@.riders_have_targets(),
    {
        proof {
            use_type_invariant(&*self);
            self@.lemma_stepped();
        }
        match self.phase {
            Phase::Ready => {
                match self.next_target() {
                    Ok(stop) => {
                        self.move_towards(stop);
                        Pause::Travel
                    },
                    Err(_) => {
                        self.set_direction(Direction::Stopped);
                        Pause::Poll
                    },
                }
            },
            Phase::Travelling { to } => {
                self.reach_floor(to);
                if self.phase == Phase::Boarding {
                    Pause::Dwell
                } else {
                    Pause::Poll
                }
            },
            Phase::Boarding => {
                self.phase = Phase::Closing;
                Pause::Dwell
            },
            Phase::Closing => {
                self.doors_open = false;
                self.phase = Phase::Ready;
                Pause::Poll
            },
        }
    }

    /// Estimates how many floors the lift travels before it can pick up
    /// `passenger`.
    pub fn distance_from(&self, passenger: &Passenger) -> (distance: i64)
        ensures
            distance == self@.estimate(*passenger),
            0 <= distance <= 2 * u32::MAX,
    {
        let p_floor = passenger.from_floor;
        let p_up = passenger.to_floor > p_floor;
        if self.direction == Direction::Stopped || self.targets.is_empty() {
            return difference(self.floor, p_floor);
        }
        if (self.direction == Direction::Down && !p_up && self.floor > p_floor) || (self.direction
            == Direction::Up && p_up && self.floor < p_floor) {
            return difference(self.floor, p_floor);
        }
        let turn = if self.direction == Direction::Up {
            self.targets[self.targets.len() - 1]
        } else {
            self.targets[0]
        };
        difference(self.floor, turn) + difference(turn, p_floor)
    }

    /// The label of the lift: its floor, a blank, and an arrow for its
    /// direction, or a two-headed arrow while the doors are open.
    pub fn label(&self) -> (label: String)
        ensures
            label@ == self@.label(),
    {
        label_for(self.floor, self.direction, self.doors_open)
    }
}

} // verus!
