//! The target queue of one lift: the floors it still has to stop at, kept
//! strictly ascending, and the rule that picks the next stop from it.
//!
//! The queue is a plain `Vec<i32>`. Floors enter it with
//! [`binary_add`](crate::order::binary_add) and leave it with
//! [`binary_remove`](crate::order::binary_remove).

use vstd::prelude::*;
use crate::order::{
    ascending, binary_add, binary_remove, lemma_ascending_is_sorted, lemma_rank_splits,
    lemma_with_item, lemma_without_item, locate, rank, with_item, without_item, Ranked,
};
use crate::types::{Direction, LiftError};

verus! {

/// The direction a lift has after it was told to stop at the floor where it
/// stands, which is the entry at `pos` of a queue of `len` floors. At the end
/// of the queue that lies in its direction nothing is left that way, so the
/// lift turns round: at the first entry when going down, at the last entry
/// itself (not one past it) when going up.
pub open spec fn turned_at(direction: Direction, pos: int, len: int) -> Direction {
    if direction == Direction::Down && pos == 0 {
        Direction::Up
    } else if direction == Direction::Up && pos == len - 1 {
        Direction::Down
    } else {
        direction
    }
}

/// The next stop of a lift at `floor` moving in `direction`, and the direction
/// it has afterwards. Meant for a queue that is not empty.
///
/// A floor that is in the queue is its own next stop. Otherwise, where every
/// target lies on one side of the lift, it heads for the nearest of them and
/// takes that direction. Between targets it keeps its direction: going up it
/// takes the nearest target above, and otherwise (going down, or stopped) the
/// nearest below.
pub open spec fn next_stop(targets: Seq<i32>, floor: i32, direction: Direction) -> (i32, Direction) {
    let pos = rank(targets, floor);
    if targets.contains(floor) {
        (floor, turned_at(direction, pos, targets.len() as int))
    } else if pos == targets.len() {
        (targets.last(), Direction::Down)
    } else if pos == 0 {
        (targets.first(), Direction::Up)
    } else if direction == Direction::Up {
        (targets[pos], direction)
    } else {
        (targets[pos - 1], direction)
    }
}

/// Picks the next stop for a lift at `floor` moving in `direction`.
///
/// Fails with `NoTargets` exactly on an empty queue. Otherwise returns the
/// stop and the direction the lift has from now on.
pub fn next_target(targets: &Vec<i32>, floor: i32, direction: Direction) -> (r: Result<
    (i32, Direction),
    LiftError,
>)
    requires
        ascending(targets@),
    ensures
        targets@.len() == 0 ==> r == Err::<(i32, Direction), LiftError>(LiftError::NoTargets),
        targets@.len() > 0 ==> r == Ok::<(i32, Direction), LiftError>(
            next_stop(targets@, floor, direction),
        ),
        r matches Ok(stop) ==> targets@.contains(stop.0),
{
    if targets.is_empty() {
        return Err(LiftError::NoTargets);
    }
    proof {
        lemma_ascending_is_sorted(targets@);
        lemma_next_stop_is_target(targets@, floor, direction);
    }
    let len = targets.len();
    match locate(targets, &floor) {
        Ok(pos) => {
            let turned = if direction == Direction::Down && pos == 0 {
                Direction::Up
            } else if direction == Direction::Up && pos == len - 1 {
                Direction::Down
            } else {
                direction
            };
            Ok((targets[pos], turned))
        },
        Err(pos) => {
            if pos == len {
                Ok((targets[pos - 1], Direction::Down))
            } else if pos == 0 {
                Ok((targets[0], Direction::Up))
            } else if direction == Direction::Up {
                Ok((targets[pos], direction))
            } else {
                Ok((targets[pos - 1], direction))
            }
        },
    }
}

/// The next stop is always one of the targets.
pub proof fn lemma_next_stop_is_target(targets: Seq<i32>, floor: i32, direction: Direction)
    requires
        ascending(targets),
        targets.len() > 0,
    ensures
        targets.contains(next_stop(targets, floor, direction).0),
{
    lemma_ascending_is_sorted(targets);
    lemma_rank_splits(targets, floor);
    let pos = rank(targets, floor);
    if !targets.contains(floor) {
        if pos == targets.len() {
            assert(targets[targets.len() - 1] == targets.last());
        } else if pos == 0 {
            assert(targets[0] == targets.first());
        } else if direction == Direction::Up {
            assert(targets[pos] == next_stop(targets, floor, direction).0);
        } else {
            assert(targets[pos - 1] == next_stop(targets, floor, direction).0);
        }
    }
}

/// A lift going up that stands between targets continues upwards: its next
/// stop is the lowest target above it, and it keeps going up. Targets below
/// wait until the sweep is over.
pub proof fn lemma_sweep_up(targets: Seq<i32>, floor: i32)
    requires
        ascending(targets),
        !targets.contains(floor),
        exists|i: int| 0 <= i < targets.len() && targets[i] > floor,
    ensures
        next_stop(targets, floor, Direction::Up).1 == Direction::Up,
        next_stop(targets, floor, Direction::Up).0 > floor,
        targets.contains(next_stop(targets, floor, Direction::Up).0),
        forall|i: int|
            0 <= i < targets.len() && targets[i] > floor ==> next_stop(
                targets,
                floor,
                Direction::Up,
            ).0 <= #[trigger] targets[i],
{
    lemma_ascending_is_sorted(targets);
    lemma_rank_splits(targets, floor);
    lemma_next_stop_is_target(targets, floor, Direction::Up);
    let pos = rank(targets, floor);
    let k = choose|i: int| 0 <= i < targets.len() && targets[i] > floor;
    assert(pos <= k) by {
        if k < pos {
            assert(targets[k].before(floor));
        }
    }
    assert(!targets[pos].before(floor));
    assert(targets.contains(targets[pos]));
    assert forall|i: int| 0 <= i < targets.len() && targets[i] > floor implies targets[pos]
        <= #[trigger] targets[i] by {
        if i < pos {
            assert(targets[i].before(floor));
        }
        if pos < i {
            assert(targets[pos].before(targets[i]));
        }
    }
}

/// A lift going down that stands between targets continues downwards: its
/// next stop is the highest target below it, and it keeps going down.
pub proof fn lemma_sweep_down(targets: Seq<i32>, floor: i32)
    requires
        ascending(targets),
        !targets.contains(floor),
        exists|i: int| 0 <= i < targets.len() && targets[i] < floor,
    ensures
        next_stop(targets, floor, Direction::Down).1 == Direction::Down,
        next_stop(targets, floor, Direction::Down).0 < floor,
        targets.contains(next_stop(targets, floor, Direction::Down).0),
        forall|i: int|
            0 <= i < targets.len() && targets[i] < floor ==> next_stop(
                targets,
                floor,
                Direction::Down,
            ).0 >= #[trigger] targets[i],
{
    lemma_ascending_is_sorted(targets);
    lemma_rank_splits(targets, floor);
    lemma_next_stop_is_target(targets, floor, Direction::Down);
    let pos = rank(targets, floor);
    let k = choose|i: int| 0 <= i < targets.len() && targets[i] < floor;
    assert(k < pos) by {
        if pos <= k {
            assert(!targets[k].before(floor));
        }
    }
    assert(targets[pos - 1].before(floor));
    assert forall|i: int| 0 <= i < targets.len() && targets[i] < floor implies targets[pos - 1]
        >= #[trigger] targets[i] by {
        if pos <= i {
            assert(!targets[i].before(floor));
        }
        if i < pos - 1 {
            assert(targets[i].before(targets[pos - 1]));
        }
    }
}

/// Where every target lies below the lift, it turns downwards whatever its
/// direction was, and heads for the highest target.
pub proof fn lemma_reverse_at_top(targets: Seq<i32>, floor: i32, direction: Direction)
    requires
        ascending(targets),
        targets.len() > 0,
        forall|i: int| 0 <= i < targets.len() ==> #[trigger] targets[i] < floor,
    ensures
        next_stop(targets, floor, direction) == (targets.last(), Direction::Down),
        forall|i: int| 0 <= i < targets.len() ==> #[trigger] targets[i] <= targets.last(),
{
    lemma_ascending_is_sorted(targets);
    lemma_rank_splits(targets, floor);
    let pos = rank(targets, floor);
    if pos < targets.len() {
        assert(!targets[pos].before(floor));
    }
    if targets.contains(floor) {
        let k = choose|k: int| 0 <= k < targets.len() && targets[k] == floor;
        assert(targets[k] < floor);
    }
    assert forall|i: int| 0 <= i < targets.len() implies #[trigger] targets[i]
        <= targets.last() by {
        if i < targets.len() - 1 {
            assert(targets[i].before(targets[targets.len() - 1]));
        }
    }
}

/// Where every target lies above the lift, it turns upwards whatever its
/// direction was, and heads for the lowest target.
pub proof fn lemma_reverse_at_bottom(targets: Seq<i32>, floor: i32, direction: Direction)
    requires
        ascending(targets),
        targets.len() > 0,
        forall|i: int| 0 <= i < targets.len() ==> #[trigger] targets[i] > floor,
    ensures
        next_stop(targets, floor, direction) == (targets.first(), Direction::Up),
        forall|i: int| 0 <= i < targets.len() ==> targets.first() <= #[trigger] targets[i],
{
    lemma_ascending_is_sorted(targets);
    lemma_rank_splits(targets, floor);
    let pos = rank(targets, floor);
    if pos > 0 {
        assert(targets[0].before(floor));
    }
    if targets.contains(floor) {
        let k = choose|k: int| 0 <= k < targets.len() && targets[k] == floor;
        assert(targets[k] > floor);
    }
    assert forall|i: int| 0 <= i < targets.len() implies targets.first()
        <= #[trigger] targets[i] by {
        if 0 < i {
            assert(targets[0].before(targets[i]));
        }
    }
}

/// One change to a target queue.
pub enum QueueOp {
    Insert(i32),
    Remove(i32),
}

/// The queue that results from `queue` by one change.
pub open spec fn apply(queue: Seq<i32>, op: QueueOp) -> Seq<i32> {
    match op {
        QueueOp::Insert(floor) => with_item(queue, floor),
        QueueOp::Remove(floor) => without_item(queue, floor),
    }
}

/// The queue that results from `queue` by a series of changes, first to last.
pub open spec fn apply_all(queue: Seq<i32>, ops: Seq<QueueOp>) -> Seq<i32>
    decreases ops.len(),
{
    if ops.len() == 0 {
        queue
    } else {
        apply(apply_all(queue, ops.drop_last()), ops.last())
    }
}

/// Applies one change to a queue.
pub fn change(queue: &mut Vec<i32>, op: QueueOp)
    requires
        ascending(old(queue)@),
    ensures
        final(queue)@ == apply(old(queue)@, op),
        ascending(final(queue)@),
{
    proof {
        lemma_ascending_is_sorted(queue@);
    }
    match op {
        QueueOp::Insert(floor) => {
            binary_add(queue, floor);
        },
        QueueOp::Remove(floor) => {
            binary_remove(queue, floor);
        },
    }
}

/// Inserting a floor a second time changes nothing.
pub proof fn lemma_insert_twice(queue: Seq<i32>, floor: i32)
    requires
        ascending(queue),
    ensures
        with_item(with_item(queue, floor), floor) == with_item(queue, floor),
        with_item(queue, floor).contains(floor),
{
    lemma_ascending_is_sorted(queue);
    lemma_with_item(queue, floor);
}

/// Whatever inserts and removes are applied to an ascending queue, and so to
/// an empty one, the result is strictly ascending.
pub proof fn lemma_always_ascending(queue: Seq<i32>, ops: Seq<QueueOp>)
    requires
        ascending(queue),
    ensures
        ascending(apply_all(queue, ops)),
        ascending(apply_all(Seq::<i32>::empty(), ops)),
    decreases ops.len(),
{
    assert(ascending(Seq::<i32>::empty()));
    if ops.len() > 0 {
        lemma_always_ascending(queue, ops.drop_last());
        let q = apply_all(queue, ops.drop_last());
        let e = apply_all(Seq::<i32>::empty(), ops.drop_last());
        lemma_ascending_is_sorted(q);
        lemma_ascending_is_sorted(e);
        match ops.last() {
            QueueOp::Insert(floor) => {
                lemma_with_item(q, floor);
                lemma_with_item(e, floor);
            },
            QueueOp::Remove(floor) => {
                lemma_without_item(q, floor);
                lemma_without_item(e, floor);
            },
        }
    }
}

} // verus!
