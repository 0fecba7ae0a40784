//! The building: a fixed bank of lifts, and the dispatcher that hands each
//! passenger to the lift estimated to reach them soonest.

use vstd::prelude::*;
use crate::chance::{lemma_reordered, pick_between, shuffle};
use crate::lift::{Lift, LiftView, Pause};
use crate::types::{difference, gap, LiftError, Passenger};

verus! {

/// The lift that is ahead after the lifts named in `order` have been looked
/// at one after the other: a later lift takes the lead only with a strictly
/// smaller estimate, so of several lifts with the least estimate the one
/// looked at first is chosen. There is none while no lift has been looked at.
pub open spec fn leader(estimates: Seq<int>, order: Seq<usize>) -> Option<usize>
    decreases order.len(),
{
    if order.len() == 0 {
        None
    } else {
        let last = order.last();
        match leader(estimates, order.drop_last()) {
            None => Some(last),
            Some(ahead) => if estimates[last as int] < estimates[ahead as int] {
                Some(last)
            } else {
                Some(ahead)
            },
        }
    }
}

/// The state of a building.
pub struct BuildingView {
    pub bottom_floor: i32,
    pub top_floor: i32,
    pub lifts: Seq<LiftView>,
}

impl BuildingView {
    /// Every lift is in order.
    pub open spec fn wf(self) -> bool {
        forall|i: int| 0 <= i < self.lifts.len() ==> (#[trigger] self.lifts[i]).wf()
    }

    /// In every lift, every passenger who rides has their destination in the
    /// lift's target queue.
    pub open spec fn riders_have_targets(self) -> bool {
        forall|i: int| 0 <= i < self.lifts.len() ==> (#[trigger] self.lifts[i]).riders_have_targets()
    }

    /// Each lift's estimate for `passenger`, by lift.
    pub open spec fn estimates(self, passenger: Passenger) -> Seq<int> {
        Seq::new(self.lifts.len(), |i: int| self.lifts[i].estimate(passenger))
    }

    /// Lift `index` exists and no lift has a smaller estimate for `passenger`.
    pub open spec fn is_best(self, passenger: Passenger, index: int) -> bool {
        &&& 0 <= index < self.lifts.len()
        &&& forall|j: int|
            0 <= j < self.lifts.len() ==> self.lifts[index].estimate(passenger) <= (
            #[trigger] self.lifts[j]).estimate(passenger)
    }

    /// The building after `passenger` was assigned to lift `index`.
    pub open spec fn assigned(self, passenger: Passenger, index: int) -> BuildingView {
        BuildingView {
            lifts: self.lifts.update(index, self.lifts[index].with_passenger(passenger)),
            ..self
        }
    }

    /// The building after lift `index` took one step of its cycle.
    pub open spec fn stepped(self, index: int) -> BuildingView {
        BuildingView { lifts: self.lifts.update(index, self.lifts[index].stepped().0), ..self }
    }

    /// What `after` must be for the building to have answered `passenger`:
    /// the building with the passenger assigned to a lift with the least
    /// estimate, or the building unchanged where it has no lift.
    pub open spec fn answers(self, passenger: Passenger, after: BuildingView) -> bool {
        if self.lifts.len() == 0 {
            after == self
        } else {
            exists|index: int|
                self.is_best(passenger, index) && after == #[trigger] self.assigned(
                    passenger,
                    index,
                )
        }
    }

    /// The height of `floor` above the bottom floor, and 0 for a floor below
    /// it.
    pub open spec fn relative_floor(self, floor: i32) -> int {
        if floor - self.bottom_floor < 0 {
            0
        } else {
            floor - self.bottom_floor
        }
    }
}

impl BuildingView {
    /// Assigning a passenger keeps every lift in order. A passenger who has
    /// not boarded cannot break the rule that riders have their destination
    /// queued.
    pub proof fn lemma_assigned(self, passenger: Passenger, index: int)
        requires
            self.wf(),
            0 <= index < self.lifts.len(),
        ensures
            self.assigned(passenger, index).wf(),
            self.assigned(passenger, index).lifts[index].targets.contains(passenger.from_floor),
            self.assigned(passenger, index).lifts[index].passengers.contains(passenger),
            self.riders_have_targets() && !passenger.riding ==> self.assigned(
                passenger,
                index,
            ).riders_have_targets(),
    {
        self.lifts[index].lemma_with_passenger(passenger);
        let after = self.assigned(passenger, index);
        assert forall|i: int| 0 <= i < after.lifts.len() implies (#[trigger] after.lifts[i]).wf() by {
            if i != index {
                assert(after.lifts[i] == self.lifts[i]);
            }
        }
        if self.riders_have_targets() && !passenger.riding {
            assert forall|i: int| 0 <= i < after.lifts.len() implies (
            #[trigger] after.lifts[i]).riders_have_targets() by {
                if i != index {
                    assert(after.lifts[i] == self.lifts[i]);
                }
            }
        }
    }

    /// A step of any lift keeps every lift in order and every rider's
    /// destination queued: at no moment does a passenger ride whose
    /// destination the lift does not have among its targets.
    pub proof fn lemma_stepped(self, index: int)
        requires
            self.wf(),
            0 <= index < self.lifts.len(),
        ensures
            self.stepped(index).wf(),
            self.riders_have_targets() ==> self.stepped(index).riders_have_targets(),
    {
        self.lifts[index].lemma_stepped();
        let after = self.stepped(index);
        assert forall|i: int| 0 <= i < after.lifts.len() implies (#[trigger] after.lifts[i]).wf() by {
            if i != index {
                assert(after.lifts[i] == self.lifts[i]);
            }
        }
        if self.riders_have_targets() {
            assert forall|i: int| 0 <= i < after.lifts.len() implies (
            #[trigger] after.lifts[i]).riders_have_targets() by {
                if i != index {
                    assert(after.lifts[i] == self.lifts[i]);
                }
            }
        }
    }

    /// Where one lift has a smaller estimate than every other, it is the only
    /// best lift: the building's choice does not depend on chance.
    pub proof fn lemma_only_best(self, passenger: Passenger, winner: int, index: int)
        requires
            0 <= winner < self.lifts.len(),
            forall|j: int|
                0 <= j < self.lifts.len() && j != winner ==> self.lifts[winner].estimate(passenger)
                    < (#[trigger] self.lifts[j]).estimate(passenger),
            self.is_best(passenger, index),
        ensures
            index == winner,
    {
        if index != winner {
            assert(self.lifts[winner].estimate(passenger) < self.lifts[index].estimate(passenger));
        }
    }
}

/// A passenger who waits at `from_floor` for a ride to `to_floor`.
pub open spec fn waiting(from_floor: i32, to_floor: i32) -> Passenger {
    Passenger { from_floor, to_floor, riding: false }
}

/// A passenger who travels between the ground floor, floor 0, and `floor`:
/// from `floor` down or up to the ground floor when `inbound`, the other way
/// otherwise.
pub open spec fn commuter(floor: i32, inbound: bool) -> Passenger {
    if inbound {
        waiting(floor, 0)
    } else {
        waiting(0, floor)
    }
}

/// Every entry of `order` names one of `count` lifts.
pub open spec fn names_lifts(order: Seq<usize>, count: int) -> bool {
    forall|k: int| 0 <= k < order.len() ==> (#[trigger] order[k]) < count
}

/// The leader is one of the lifts looked at, no lift looked at has a smaller
/// estimate, and every lift looked at before it has a greater one.
pub proof fn lemma_leader(estimates: Seq<int>, order: Seq<usize>)
    requires
        order.len() > 0,
    ensures
        leader(estimates, order) is Some,
        exists|k: int|
            0 <= k < order.len() && #[trigger] order[k] == leader(estimates, order).unwrap()
                && forall|m: int|
                0 <= m < k ==> estimates[(#[trigger] order[m]) as int] > estimates[order[k] as int],
        forall|k: int|
            0 <= k < order.len() ==> estimates[leader(estimates, order).unwrap() as int]
                <= estimates[(#[trigger] order[k]) as int],
    decreases order.len(),
{
    let front = order.drop_last();
    let last = order.last();
    if front.len() == 0 {
        assert(leader(estimates, front) is None);
        assert(order[0] == last);
    } else {
        lemma_leader(estimates, front);
        let ahead = leader(estimates, front).unwrap();
        let k = choose|k: int|
            0 <= k < front.len() && #[trigger] front[k] == ahead && forall|m: int|
                0 <= m < k ==> estimates[(#[trigger] front[m]) as int] > estimates[front[k] as int];
        assert forall|m: int| 0 <= m < front.len() implies front[m] == order[m] by {}
        if estimates[last as int] < estimates[ahead as int] {
            let n = order.len() - 1;
            assert(order[n] == last);
            assert forall|m: int| 0 <= m < n implies estimates[(#[trigger] order[m]) as int]
                > estimates[order[n] as int] by {
                assert(front[m] == order[m]);
            }
            assert forall|j: int| 0 <= j < order.len() implies estimates[last as int]
                <= estimates[(#[trigger] order[j]) as int] by {
                if j < n {
                    assert(front[j] == order[j]);
                }
            }
        } else {
            assert(order[k] == ahead);
            assert forall|m: int| 0 <= m < k implies estimates[(#[trigger] order[m]) as int]
                > estimates[order[k] as int] by {
                assert(front[m] == order[m]);
            }
            assert forall|j: int| 0 <= j < order.len() implies estimates[ahead as int]
                <= estimates[(#[trigger] order[j]) as int] by {
                if j < order.len() - 1 {
                    assert(front[j] == order[j]);
                }
            }
        }
    }
}

/// Where one lift has a smaller estimate than every other lift, it is chosen
/// in whatever order the lifts are looked at.
pub proof fn lemma_clear_winner(estimates: Seq<int>, order: Seq<usize>, winner: usize)
    requires
        order.contains(winner),
        forall|k: int|
            0 <= k < order.len() && #[trigger] order[k] != winner ==> estimates[winner as int]
                < estimates[order[k] as int],
    ensures
        leader(estimates, order) == Some(winner),
{
    let w = choose|w: int| 0 <= w < order.len() && order[w] == winner;
    lemma_leader(estimates, order);
    let best = leader(estimates, order).unwrap();
    let k = choose|k: int| 0 <= k < order.len() && #[trigger] order[k] == best;
    assert(estimates[best as int] <= estimates[order[w] as int]);
}

/// The numbers below `n`, in order.
pub fn sequence(n: u32) -> (numbers: Vec<u32>)
    ensures
        numbers@.len() == n,
        forall|i: int| 0 <= i < n ==> numbers@[i] == i,
{
    let mut numbers: Vec<u32> = Vec::new();
    let mut i: u32 = 0;
    while i < n
        invariant
            i <= n,
            numbers@.len() == i,
            forall|k: int| 0 <= k < i ==> numbers@[k] == k,
        decreases n - i,
    {
        numbers.push(i);
        i += 1;
    }
    numbers
}

/// The lift indices below `count`, in order.
fn lift_indices(count: usize) -> (indices: Vec<usize>)
    ensures
        indices@.len() == count,
        forall|i: int| 0 <= i < count ==> indices@[i] == i,
{
    let mut indices: Vec<usize> = Vec::new();
    let mut i: usize = 0;
    while i < count
        invariant
            i <= count,
            indices@.len() == i,
            forall|k: int| 0 <= k < i ==> indices@[k] == k,
        decreases count - i,
    {
        indices.push(i);
        i += 1;
    }
    indices
}

/// The floors from `bottom` up to, but without, `top`.
fn floor_range(bottom: i32, top: i32) -> (floors: Vec<i32>)
    requires
        bottom <= top,
    ensures
        floors@.len() == top - bottom,
        forall|i: int| 0 <= i < floors@.len() ==> floors@[i] == bottom + i,
        floors@.no_duplicates(),
{
    let mut floors: Vec<i32> = Vec::new();
    let mut floor: i32 = bottom;
    while floor < top
        invariant
            bottom <= floor <= top,
            floors@.len() == floor - bottom,
            forall|i: int| 0 <= i < floors@.len() ==> floors@[i] == bottom + i,
        decreases top - floor,
    {
        floors.push(floor);
        floor += 1;
    }
    floors
}

/// A building with its lifts.
#[derive(Debug)]
pub struct Building {
    pub bottom_floor: i32,
    pub top_floor: i32,
    lifts: Vec<Lift>,
}

impl View for Building {
    type V = BuildingView;

    closed spec fn view(&self) -> BuildingView {
        BuildingView {
            bottom_floor: self.bottom_floor,
            top_floor: self.top_floor,
            lifts: Seq::new(self.lifts@.len(), |i: int| self.lifts@[i]@),
        }
    }
}

impl Building {

    /// A building with `lift_count` new lifts, numbered from 0.
    pub fn new(bottom_floor: i32, top_floor: i32, lift_count: u32) -> (building: Building)
        ensures
            building@.bottom_floor == bottom_floor,
            building@.top_floor == top_floor,
            building@.lifts.len() == lift_count,
            forall|i: int|
                0 <= i < lift_count ==> #[trigger] building@.lifts[i] == LiftView::fresh(i as u32),
            building@.wf(),
            building@.riders_have_targets(),
    {
        let ids = sequence(lift_count);
        let mut lifts: Vec<Lift> = Vec::new();
        let mut i: usize = 0;
        while i < ids.len()
            invariant
                i <= ids@.len() == lift_count,
                forall|k: int| 0 <= k < lift_count ==> ids@[k] == k,
                lifts@.len() == i,
                forall|k: int| 0 <= k < i ==> (#[trigger] lifts@[k])@ == LiftView::fresh(k as u32),
            decreases ids@.len() - i,
        {
            lifts.push(Lift::new(ids[i]));
            i += 1;
        }
        let building = Building { bottom_floor, top_floor, lifts };
        proof {
            assert forall|i: int| 0 <= i < lift_count implies #[trigger] building@.lifts[i]
                == LiftView::fresh(i as u32) by {
                assert(building.lifts@[i]@ == LiftView::fresh(i as u32));
                LiftView::lemma_fresh(i as u32);
            }
            assert forall|i: int| 0 <= i < building@.lifts.len() implies (
            #[trigger] building@.lifts[i]).wf() && building@.lifts[i].riders_have_targets() by {
                LiftView::lemma_fresh(i as u32);
            }
        }
        building
    }

    /// The number of lifts, as far as it fits the result.
    pub fn lift_count(&self) -> (count: u16)
        ensures
            count == self@.lifts.len() % 0x1_0000,
            self@.lifts.len() <= u16::MAX ==> count == self@.lifts.len(),
    {
        (self.lifts.len() % 0x1_0000) as u16
    }

    /// Lift `index`, if there is one.
    pub fn lift(&self, index: usize) -> (lift: Option<&Lift>)
        ensures
            lift is Some <==> index < self@.lifts.len(),
            lift matches Some(l) ==> l@ == self@.lifts[index as int] && l@.wf(),
    {
        if index < self.lifts.len() {
            let lift = &self.lifts[index];
            lift.get_info();
            Some(lift)
        } else {
            None
        }
    }

    /// The height of `floor` above the bottom floor, and 0 for a floor below
    /// it.
    pub fn abs_floor(&self, floor: i32) -> (height: u64)
        ensures
            height == self@.relative_floor(floor),
    {
        let value = floor as i64 - self.bottom_floor as i64;
        if value < 0 {
            return 0;
        }
        value as u64
    }

    /// The number of floors between the bottom and the top floor.
    pub fn max_value(&self) -> (span: u64)
        ensures
            span == gap(self@.bottom_floor as int, self@.top_floor as int),
    {
        difference(self.bottom_floor, self.top_floor) as u64
    }

    /// Chooses a lift for `passenger` by looking at the lifts in the given
    /// order: the first one with the least estimate. `None` when the order
    /// names no lift.
    pub fn best_lift_in_order(&self, passenger: &Passenger, order: &Vec<usize>) -> (best: Option<
        usize,
    >)
        requires
            names_lifts(order@, self@.lifts.len() as int),
        ensures
            best == leader(self@.estimates(*passenger), order@),
            best is Some <==> order@.len() > 0,
            best matches Some(index) ==> index < self@.lifts.len(),
    {
        proof {
            if order@.len() > 0 {
                lemma_leader(self@.estimates(*passenger), order@);
            }
        }
        let mut best: Option<usize> = None;
        let mut closest: i64 = i64::MAX;
        let mut k: usize = 0;
        proof {
            assert(order@.take(0) =~= Seq::<usize>::empty());
        }
        while k < order.len()
            invariant
                k <= order@.len(),
                names_lifts(order@, self@.lifts.len() as int),
                best == leader(self@.estimates(*passenger), order@.take(k as int)),
                best matches Some(index) ==> index < self@.lifts.len() && closest
                    == self@.lifts[index as int].estimate(*passenger),
                best is None ==> closest == i64::MAX,
            decreases order@.len() - k,
        {
            let index = order[k];
            let dist = self.lifts[index].distance_from(passenger);
            proof {
                assert(order@.take(k + 1).drop_last() =~= order@.take(k as int));
                assert(order@.take(k + 1).last() == index);
                assert(self@.estimates(*passenger)[index as int] == self@.lifts[index as int].estimate(
                    *passenger,
                ));
            }
            if dist < closest {
                closest = dist;
                best = Some(index);
            }
            k += 1;
        }
        proof {
            assert(order@.take(order@.len() as int) =~= order@);
        }
        best
    }

    /// Chooses a lift for `passenger`: one with the least estimate. Among
    /// lifts with equal estimates the choice is made by chance.
    ///
    /// Fails with `NoLiftAvailable` exactly when the building has no lift.
    pub fn best_lift(&self, passenger: &Passenger) -> (best: Result<usize, LiftError>)
        ensures
            self@.lifts.len() == 0 ==> best == Err::<usize, LiftError>(LiftError::NoLiftAvailable),
            self@.lifts.len() > 0 ==> best is Ok,
            best matches Ok(index) ==> self@.is_best(*passenger, index as int),
    {
        let count = self.lifts.len();
        let mut order = lift_indices(count);
        let ghost plain = order@;
        let mut rng = rand::thread_rng();
        shuffle(&mut order, &mut rng);
        proof {
            lemma_reordered(plain, order@);
            assert forall|k: int| 0 <= k < order@.len() implies (#[trigger] order@[k]) < count by {
                assert(order@.contains(order@[k]));
                assert(plain.contains(order@[k]));
            }
            if count > 0 {
                assert(order@.len() > 0);
                lemma_leader(self@.estimates(*passenger), order@);
                let chosen = leader(self@.estimates(*passenger), order@).unwrap();
                assert forall|j: int| 0 <= j < self@.lifts.len() implies self@.lifts[chosen as int].estimate(
                    *passenger,
                ) <= (#[trigger] self@.lifts[j]).estimate(*passenger) by {
                    assert(plain[j] == j);
                    assert(plain.contains(j as usize));
                    assert(order@.contains(j as usize));
                    let k = choose|k: int| 0 <= k < order@.len() && order@[k] == j as usize;
                    assert(self@.estimates(*passenger)[j] == self@.lifts[j].estimate(*passenger));
                    assert(self@.estimates(*passenger)[chosen as int]
                        <= self@.estimates(*passenger)[order@[k] as int]);
                }
            }
        }
        match self.best_lift_in_order(passenger, &order) {
            Some(index) => Ok(index),
            None => Err(LiftError::NoLiftAvailable),
        }
    }

    /// Assigns `passenger` to lift `index`.
    fn assign(&mut self, passenger: Passenger, index: usize)
        requires
            index < old(self)@.lifts.len(),
        ensures
            final(self)@ == old(self)@.assigned(passenger, index as int),
            old(self)@.wf() ==> final(self)@.wf(),
            old(self)@.riders_have_targets() && !passenger.riding
                ==> final(self)@.riders_have_targets(),
    {
        let ghost before = self@;
        self.lifts[index].add_passenger(passenger);
        proof {
            assert(self@.lifts =~= before.assigned(passenger, index as int).lifts);
            assert forall|i: int| 0 <= i < self@.lifts.len() implies #[trigger] self@.lifts[i]
                == before.assigned(passenger, index as int).lifts[i] by {}
        }
    }

    /// Hands `passenger` to the lift that is found best when the lifts are
    /// looked at in the given order, and returns that lift's index. The
    /// passenger joins the lift's passengers and the pickup floor its targets.
    ///
    /// Fails with `NoLiftAvailable` exactly when the order names no lift, and
    /// then changes nothing.
    pub fn respond_in_order(&mut self, passenger: Passenger, order: &Vec<usize>) -> (r: Result<
        usize,
        LiftError,
    >)
        requires
            names_lifts(order@, old(self)@.lifts.len() as int),
        ensures
            r is Ok <==> order@.len() > 0,
            match leader(old(self)@.estimates(passenger), order@) {
                Some(index) => r == Ok::<usize, LiftError>(index) && final(self)@
                    == old(self)@.assigned(passenger, index as int),
                None => r == Err::<usize, LiftError>(LiftError::NoLiftAvailable) && final(self)@
                    == old(self)@,
            },
            old(self)@.wf() ==> final(self)@.wf(),
            old(self)@.riders_have_targets() && !passenger.riding
                ==> final(self)@.riders_have_targets(),
    {
        match self.best_lift_in_order(&passenger, order) {
            Some(index) => {
                self.assign(passenger, index);
                Ok(index)
            },
            None => Err(LiftError::NoLiftAvailable),
        }
    }

    /// Hands `passenger` to a lift with the least estimate and returns that
    /// lift's index. The passenger joins the lift's passengers and the pickup
    /// floor its targets. Among lifts with equal estimates the choice is made
    /// by chance.
    ///
    /// Fails with `NoLiftAvailable` exactly when the building has no lift, and
    /// then changes nothing.
    pub fn respond(&mut self, passenger: Passenger) -> (r: Result<usize, LiftError>)
        ensures
            old(self)@.lifts.len() > 0 ==> r is Ok,
            match r {
                Ok(index) => old(self)@.is_best(passenger, index as int) && final(self)@
                    == old(self)@.assigned(passenger, index as int),
                Err(e) => e == LiftError::NoLiftAvailable && old(self)@.lifts.len() == 0
                    && final(self)@ == old(self)@,
            },
            old(self)@.wf() ==> final(self)@.wf(),
            old(self)@.riders_have_targets() && !passenger.riding
                ==> final(self)@.riders_have_targets(),
    {
        match self.best_lift(&passenger) {
            Ok(index) => {
                self.assign(passenger, index);
                Ok(index)
            },
            Err(e) => Err(e),
        }
    }

    /// Lets lift `index` take the next step of its cycle and says how long
    /// that lift waits before its next step. `None`, and nothing changed,
    /// when there is no such lift.
    pub fn step_lift(&mut self, index: usize) -> (pause: Option<Pause>)
        ensures
            index < old(self)@.lifts.len() ==> pause == Some(
                old(self)@.lifts[index as int].stepped().1,
            ) && final(self)@ == old(self)@.stepped(index as int),
            index >= old(self)@.lifts.len() ==> pause is None && final(self)@ == old(self)@,
            old(self)@.wf() ==> final(self)@.wf(),
            old(self)@.riders_have_targets() ==> final(self)@.riders_have_targets(),
    {
        if index >= self.lifts.len() {
            return None;
        }
        let ghost before = self@;
        let pause = self.lifts[index].step();
        proof {
            assert(self@.lifts =~= before.stepped(index as int).lifts);
        }
        Some(pause)
    }

    /// For each lift, its height above the bottom floor and its label.
    pub fn data(&self) -> (bars: Vec<(u64, String)>)
        ensures
            bars@.len() == self@.lifts.len(),
            forall|i: int|
                0 <= i < bars@.len() ==> (#[trigger] bars@[i]).0 == self@.relative_floor(
                    self@.lifts[i].floor,
                ) && bars@[i].1@ == self@.lifts[i].label(),
    {
        let mut bars: Vec<(u64, String)> = Vec::new();
        let mut i: usize = 0;
        while i < self.lifts.len()
            invariant
                i <= self@.lifts.len() == self.lifts@.len(),
                bars@.len() == i,
                forall|k: int|
                    0 <= k < i ==> (#[trigger] bars@[k]).0 == self@.relative_floor(
                        self@.lifts[k].floor,
                    ) && bars@[k].1@ == self@.lifts[k].label(),
            decreases self.lifts@.len() - i,
        {
            let lift = &self.lifts[i];
            let (floor, _, _) = lift.get_info();
            let label = lift.label();
            assert(lift@ == self@.lifts[i as int]);
            bars.push((self.abs_floor(floor), label));
            i += 1;
        }
        bars
    }

    /// Sends a passenger between two different floors, both picked by chance
    /// from the bottom floor up to, but without, the top floor.
    pub fn random(&mut self)
        requires
            old(self)@.top_floor - old(self)@.bottom_floor >= 2,
        ensures
            exists|from: i32, to: i32|
                old(self)@.bottom_floor <= from < old(self)@.top_floor && old(self)@.bottom_floor
                    <= to < old(self)@.top_floor && from != to && old(self)@.answers(
                    #[trigger] waiting(from, to),
                    final(self)@,
                ),
            old(self)@.wf() ==> final(self)@.wf(),
            old(self)@.riders_have_targets() ==> final(self)@.riders_have_targets(),
    {
        let ghost before = self@;
        let mut floors = floor_range(self.bottom_floor, self.top_floor);
        let ghost plain = floors@;
        let mut rng = rand::thread_rng();
        shuffle(&mut floors, &mut rng);
        proof {
            lemma_reordered(plain, floors@);
            assert(floors@.contains(floors@[0]) && floors@.contains(floors@[1]));
            let a = choose|a: int| 0 <= a < plain.len() && plain[a] == floors@[0];
            let b = choose|b: int| 0 <= b < plain.len() && plain[b] == floors@[1];
            assert(plain[a] == before.bottom_floor + a && plain[b] == before.bottom_floor + b);
        }
        let passenger = Passenger::new(floors[0], floors[1]);
        let _ = self.respond(passenger);
        proof {
            assert(passenger == waiting(floors@[0], floors@[1]));
            assert(before.answers(waiting(floors@[0], floors@[1]), self@));
        }
    }

    /// Sends a passenger between the ground floor and a floor picked by
    /// chance from the bottom floor up to, but without, the top floor. Which
    /// of the two is the pickup floor is left to chance as well.
    pub fn realistic_random(&mut self)
        requires
            old(self)@.bottom_floor < old(self)@.top_floor,
        ensures
            exists|floor: i32, inbound: bool|
                old(self)@.bottom_floor <= floor < old(self)@.top_floor && old(self)@.answers(
                    #[trigger] commuter(floor, inbound),
                    final(self)@,
                ),
            old(self)@.wf() ==> final(self)@.wf(),
            old(self)@.riders_have_targets() ==> final(self)@.riders_have_targets(),
    {
        let ghost before = self@;
        let mut rng = rand::thread_rng();
        let floor = pick_between(&mut rng, self.bottom_floor, self.top_floor);
        let mut floors: Vec<i32> = Vec::new();
        floors.push(0);
        floors.push(floor);
        let ghost plain = floors@;
        let mut rng = rand::thread_rng();
        shuffle(&mut floors, &mut rng);
        proof {
            lemma_reordered(plain, floors@);
            assert(plain =~= seq![0i32, floor]);
            assert(floors@.contains(floors@[0]) && floors@.contains(floors@[1]));
            let a = choose|a: int| 0 <= a < plain.len() && plain[a] == floors@[0];
            let b = choose|b: int| 0 <= b < plain.len() && plain[b] == floors@[1];
            if floor != 0 {
                assert(plain.no_duplicates());
                assert(floors@[0] != floors@[1]);
            }
        }
        let passenger = Passenger::new(floors[0], floors[1]);
        let _ = self.respond(passenger);
        proof {
            assert(passenger == commuter(floor, floors@[0] == floor));
            assert(before.answers(commuter(floor, floors@[0] == floor), self@));
        }
    }
}

} // verus!
