//! A car: it follows its planned trip, remembers the speed limits ahead of it
//! and adapts its speed to them in time.

use crate::road::path::pathfinding::{is_route, is_shortest_route, pathfind, reachable};
use crate::road::path::{
    Path, PathError, advance, distance_from, distance_remaining, forgotten_before,
};
use crate::road::{
    RoadNodeIdx, RoadPoint, RoadSegmentIdx, Roads, RoadsView, Sign, SignType, forward_distance,
};
use vstd::prelude::*;

verus! {

/// The speed at which a car travels where no limit is in force: 80 km/h.
pub const SPEED: u32 = 22_222_222;

/// The speed at which a car sets out: 50 km/h.
pub const INITIAL_SPEED: u32 = 13_888_889;

/// The rate at which a car gains or loses speed: 0.14 g.
pub const OPTIMAL_ACCELERATION: u64 = 1_373_400;

/// How far ahead a driver sees signs: 100 m.
pub const SEEING_DISTANCE: u64 = 100_000_000;

/// The length of planned trip below which a car plans further: 100 m.
pub const PLANNING_DISTANCE: u128 = 100_000_000;

/// The number of time steps in a second.
pub const STEPS_PER_SECOND: u64 = 1_000_000;

/// Why a car could not be updated.
#[derive(Clone, Copy, PartialEq, Eq, Structural, Debug)]
pub enum CarError {
    /// The planned trip could not be followed or measured.
    Path(PathError),
    /// No route leads to the car's next destination.
    NoPath,
}

/// What a car knows of the limits on its way.
struct RoadInformation {
    current_speed_limit: u32,
    incoming_speed_limits: Vec<(RoadPoint, u32)>,
}

/// A car on the road network.
pub struct Car {
    position: RoadPoint,
    speed: u32,
    target_speed: u32,
    road_information: RoadInformation,
    planned_trip: Path,
    is_back: bool,
    trip_start: RoadPoint,
    trip_end: RoadPoint,
}

/// The mathematical content of a [`Car`].
pub struct CarView {
    pub position: RoadPoint,
    pub speed: u32,
    pub target_speed: u32,
    pub current_speed_limit: u32,
    pub incoming_speed_limits: Seq<(RoadPoint, u32)>,
    pub planned_trip: Seq<RoadNodeIdx>,
    pub is_back: bool,
    pub trip_start: RoadPoint,
    pub trip_end: RoadPoint,
}

impl View for Car {
    type V = CarView;

    closed spec fn view(&self) -> CarView {
        CarView {
            position: self.position,
            speed: self.speed,
            target_speed: self.target_speed,
            current_speed_limit: self.road_information.current_speed_limit,
            incoming_speed_limits: self.road_information.incoming_speed_limits@,
            planned_trip: self.planned_trip@,
            is_back: self.is_back,
            trip_start: self.trip_start,
            trip_end: self.trip_end,
        }
    }
}

/// Whether a limit is remembered for the sign at `point`.
pub open spec fn knows(memory: Seq<(RoadPoint, u32)>, point: RoadPoint) -> bool {
    exists|i: int| 0 <= i < memory.len() && (#[trigger] memory[i]).0 == point
}

/// Whether no sign is remembered twice.
pub open spec fn no_sign_twice(memory: Seq<(RoadPoint, u32)>) -> bool {
    forall|i: int, j: int|
        0 <= i < j < memory.len() ==> (#[trigger] memory[i]).0 != (#[trigger] memory[j]).0
}

/// By how much a car changes its speed in a time step.
pub open spec fn speed_change(step_size: u32) -> int {
    OPTIMAL_ACCELERATION * step_size / (STEPS_PER_SECOND as int)
}

/// The speed of a car after a time step: nearer to `target` by the change of
/// speed that the step allows, and never beyond `target`.
pub open spec fn speed_after(speed: u32, target: u32, step_size: u32) -> u32 {
    if speed > target {
        if speed - speed_change(step_size) < target {
            target
        } else {
            (speed - speed_change(step_size)) as u32
        }
    } else if speed < target {
        if speed + speed_change(step_size) > target {
            target
        } else {
            (speed + speed_change(step_size)) as u32
        }
    } else {
        speed
    }
}

/// How far a car travels in a time step at `speed`.
pub open spec fn travel(speed: u32, step_size: u32) -> u64 {
    (speed * step_size / (STEPS_PER_SECOND as int)) as u64
}

/// The car after the kinematics of a time step, and whether it could follow
/// its trip: its speed nears its target, and it advances along its trip by
/// what it travels at the new speed.
pub open spec fn stepped(roads: RoadsView, car: CarView, step_size: u32) -> (
    CarView,
    Result<(), PathError>,
) {
    let speed = speed_after(car.speed, car.target_speed, step_size);
    let moved = advance(roads, car.planned_trip, car.position, travel(speed, step_size));
    (CarView { speed, position: moved.0, ..car }, moved.1)
}

/// The limit that `sign` announces: its value, or [`SPEED`] where it ends a
/// limit.
pub open spec fn limit_of(sign: Sign) -> u32 {
    match sign.sign_type {
        SignType::SpeedLimit => sign.value,
        SignType::EndSpeedLimit => SPEED,
    }
}

/// What is remembered once `sign` has been seen: the limit it announces is
/// added, unless one is remembered for a sign at the same point already.
pub open spec fn noted(memory: Seq<(RoadPoint, u32)>, sign: Sign) -> Seq<(RoadPoint, u32)> {
    if knows(memory, sign.position) {
        memory
    } else {
        memory.push((sign.position, limit_of(sign)))
    }
}

/// What is remembered once each of `signs` has been seen, in order.
pub open spec fn noted_all(memory: Seq<(RoadPoint, u32)>, signs: Seq<Sign>) -> Seq<
    (RoadPoint, u32),
>
    decreases signs.len(),
{
    if signs.len() == 0 {
        memory
    } else {
        noted(noted_all(memory, signs.drop_last()), signs.last())
    }
}

/// Whether distance `a` is at most distance `b`, where a missing distance
/// stands for one that is out of reach and longer than any other.
pub open spec fn not_farther(a: Option<u64>, b: Option<u64>) -> bool {
    match (a, b) {
        (_, None) => true,
        (None, Some(_)) => false,
        (Some(x), Some(y)) => x <= y,
    }
}

/// Whether a car at `car` has passed the sign at `sign`: the way forward
/// from the sign to the car is not longer than the way forward from the car
/// to the sign.
pub open spec fn passed(car: RoadPoint, sign: RoadPoint) -> bool {
    not_farther(forward_distance(sign, car), forward_distance(car, sign))
}

/// Whether a car at `speed` cannot reach the speed `limit` within the
/// distance `remaining`: changing speed at [`OPTIMAL_ACCELERATION`] takes the
/// distance |`speed`² − `limit`²| / (2 · [`OPTIMAL_ACCELERATION`]).
pub open spec fn out_of_reach(speed: u32, limit: u32, remaining: Option<u64>) -> bool {
    match remaining {
        None => false,
        Some(distance) => if speed >= limit {
            speed * speed - limit * limit > 2 * OPTIMAL_ACCELERATION * distance
        } else {
            limit * limit - speed * speed > 2 * OPTIMAL_ACCELERATION * distance
        },
    }
}

/// Whether a remembered limit bounds the speed that a car at `position`
/// and `speed` aims for: its sign has been passed, or it is too near for the
/// car to reach the limit in time.
pub open spec fn binds(position: RoadPoint, speed: u32, entry: (RoadPoint, u32)) -> bool {
    passed(position, entry.0) || out_of_reach(speed, entry.1, forward_distance(position, entry.0))
}

/// The limit in force for a car at `position`: that of the sign it passed
/// which it saw last, or `current` if it passed none of those it remembers.
pub open spec fn limit_in_force(
    current: u32,
    memory: Seq<(RoadPoint, u32)>,
    position: RoadPoint,
) -> u32
    decreases memory.len(),
{
    if memory.len() == 0 {
        current
    } else if passed(position, memory.last().0) {
        memory.last().1
    } else {
        limit_in_force(current, memory.drop_last(), position)
    }
}

/// The lowest of `ceiling` and the remembered limits that bind a car at
/// `position` and `speed`.
pub open spec fn lowest_bound(
    memory: Seq<(RoadPoint, u32)>,
    position: RoadPoint,
    speed: u32,
    ceiling: u32,
) -> u32
    decreases memory.len(),
{
    if memory.len() == 0 {
        ceiling
    } else {
        let rest = lowest_bound(memory.drop_last(), position, speed, ceiling);
        if binds(position, speed, memory.last()) && memory.last().1 < rest {
            memory.last().1
        } else {
            rest
        }
    }
}

/// The car after it has looked out for signs: it remembers each sign within
/// [`SEEING_DISTANCE`].
pub open spec fn observed(roads: RoadsView, car: CarView) -> CarView {
    CarView {
        incoming_speed_limits: noted_all(
            car.incoming_speed_limits,
            roads.signs_within(car.position, SEEING_DISTANCE),
        ),
        ..car
    }
}

/// The car after it has chosen its target speed anew: the limit in force is
/// that of the last sign passed, and the target speed is the lowest of the
/// limit in force and the remembered limits that bind.
pub open spec fn retargeted(car: CarView) -> CarView {
    let current_speed_limit = limit_in_force(
        car.current_speed_limit,
        car.incoming_speed_limits,
        car.position,
    );
    CarView {
        current_speed_limit,
        target_speed: lowest_bound(
            car.incoming_speed_limits,
            car.position,
            car.speed,
            current_speed_limit,
        ),
        ..car
    }
}

/// The car after it has forgotten the signs it has passed.
pub open spec fn unburdened(car: CarView) -> CarView {
    CarView {
        incoming_speed_limits: car.incoming_speed_limits.filter(
            |entry: (RoadPoint, u32)| !passed(car.position, entry.0),
        ),
        ..car
    }
}

/// The car after the driving part of a time step, and whether it could
/// follow its trip. The car moves; then it looks out for signs, chooses its
/// target speed anew and forgets the signs it has passed. Where it cannot
/// follow its trip it stops at the end of the segment it could not leave,
/// and does none of the rest.
pub open spec fn driven(roads: RoadsView, car: CarView, step_size: u32) -> (
    CarView,
    Result<(), PathError>,
) {
    let moved = stepped(roads, car, step_size);
    match moved.1 {
        Err(error) => moved,
        Ok(_) => (unburdened(retargeted(observed(roads, moved.0))), Ok(())),
    }
}

/// Whether the car should plan further: its trip is shorter than
/// [`PLANNING_DISTANCE`], or less than that is left of it.
pub open spec fn wants_route(roads: RoadsView, car: CarView) -> Result<bool, PathError> {
    match distance_from(roads, car.planned_trip, 0) {
        Err(error) => Err(error),
        Ok(total) => if total < PLANNING_DISTANCE {
            Ok(true)
        } else {
            match distance_remaining(roads, car.planned_trip, car.position) {
                Err(error) => Err(error),
                Ok(left) => Ok(left < PLANNING_DISTANCE),
            }
        },
    }
}

/// The nodes between which the car plans next: from the end of the segment
/// it sets out from to the start of the segment it makes for. A car on its
/// way out makes for the end of its trip, a car on its way back for the
/// start.
pub open spec fn next_leg(roads: RoadsView, car: CarView) -> (RoadNodeIdx, RoadNodeIdx) {
    if car.is_back {
        (
            roads.segment(car.trip_end.road_segment).to,
            roads.segment(car.trip_start.road_segment).from,
        )
    } else {
        (
            roads.segment(car.trip_start.road_segment).to,
            roads.segment(car.trip_end.road_segment).from,
        )
    }
}

/// The car after `route` has been added to its trip: it now plans in the
/// other direction.
pub open spec fn extended(car: CarView, route: Seq<RoadNodeIdx>) -> CarView {
    CarView { planned_trip: car.planned_trip + route, is_back: !car.is_back, ..car }
}

/// The car after it has tidied its trip: where the trip is longer than
/// [`PLANNING_DISTANCE`], the nodes before the car's segment are forgotten.
pub open spec fn tidied(roads: RoadsView, car: CarView) -> Result<CarView, PathError> {
    match distance_from(roads, car.planned_trip, 0) {
        Err(error) => Err(error),
        Ok(total) => Ok(
            if total > PLANNING_DISTANCE {
                CarView {
                    planned_trip: forgotten_before(roads, car.planned_trip, car.position),
                    ..car
                }
            } else {
                car
            },
        ),
    }
}

/// Whether `after` and `result` are what tidying the trip of `car` gives.
pub open spec fn tidied_to(
    roads: RoadsView,
    car: CarView,
    after: CarView,
    result: Result<(), CarError>,
) -> bool {
    match tidied(roads, car) {
        Ok(tidy) => result == Ok::<(), CarError>(()) && after == tidy,
        Err(error) => result == Err::<(), CarError>(CarError::Path(error)) && after == car,
    }
}

/// Whether `after` and `result` are what maintaining the trip of `before`
/// gives. A car that should plan further adds a shortest route for its next
/// leg to its trip, one that visits no node twice, and fails where there is
/// none. Then the trip is tidied.
pub open spec fn maintained(
    roads: RoadsView,
    before: CarView,
    after: CarView,
    result: Result<(), CarError>,
) -> bool {
    match wants_route(roads, before) {
        Err(error) => result == Err::<(), CarError>(CarError::Path(error)) && after == before,
        Ok(false) => tidied_to(roads, before, after, result),
        Ok(true) => {
            let leg = next_leg(roads, before);
            if reachable(roads, leg.0, leg.1) {
                exists|route: Seq<RoadNodeIdx>|
                    #[trigger] is_route(roads, leg.0, leg.1, route) && route.no_duplicates()
                        && is_shortest_route(roads, leg.0, leg.1, route) && tidied_to(
                        roads,
                        extended(before, route),
                        after,
                        result,
                    )
            } else {
                result == Err::<(), CarError>(CarError::NoPath) && after == before
            }
        },
    }
}

/// A step brings the speed nearer to the target speed by at most the change
/// that the step allows, and never beyond the target.
pub proof fn lemma_speed_after(speed: u32, target: u32, step_size: u32)
    ensures
        speed <= target ==> speed <= speed_after(speed, target, step_size) <= target,
        target <= speed ==> target <= speed_after(speed, target, step_size) <= speed,
        speed_after(speed, target, step_size) - speed <= speed_change(step_size),
        speed - speed_after(speed, target, step_size) <= speed_change(step_size),
        speed_after(speed, target, step_size) != target ==> speed_after(speed, target, step_size)
            - speed == speed_change(step_size) || speed - speed_after(speed, target, step_size)
            == speed_change(step_size),
{
    assert(speed_change(step_size) >= 0) by (nonlinear_arith)
        requires
            speed_change(step_size) == OPTIMAL_ACCELERATION * step_size / 1_000_000,
            OPTIMAL_ACCELERATION == 1_373_400,
            step_size >= 0,
    ;
}

/// A car has passed a sign unless the sign stands on the car's segment,
/// strictly ahead of the car. In particular it has passed a sign at its own
/// position, and every sign of another segment.
pub proof fn lemma_passed(car: RoadPoint, sign: RoadPoint)
    ensures
        passed(car, sign) <==> !(sign.road_segment == car.road_segment && car.position
            < sign.position),
{
}

/// The limit in force after the target speed is chosen anew is that of the
/// last remembered sign that the car has passed, and stays what it was where
/// the car has passed none.
pub proof fn lemma_limit_in_force(current: u32, memory: Seq<(RoadPoint, u32)>, position: RoadPoint)
    ensures
        (forall|i: int| 0 <= i < memory.len() ==> !passed(position, (#[trigger] memory[i]).0))
            ==> limit_in_force(current, memory, position) == current,
        forall|i: int|
            0 <= i < memory.len() && passed(position, (#[trigger] memory[i]).0) && (forall|j: int|
                i < j < memory.len() ==> !passed(position, (#[trigger] memory[j]).0))
                ==> limit_in_force(current, memory, position) == memory[i].1,
    decreases memory.len(),
{
    if memory.len() > 0 {
        let rest = memory.drop_last();
        lemma_limit_in_force(current, rest, position);
        if passed(position, memory.last().0) {
            assert forall|i: int|
                0 <= i < memory.len() && passed(position, (#[trigger] memory[i]).0) && (forall|
                    j: int,
                | i < j < memory.len() ==> !passed(position, (#[trigger] memory[j]).0)) implies i
                == memory.len() - 1 by {
                if i < memory.len() - 1 {
                    assert(!passed(position, memory[memory.len() - 1].0));
                }
            }
        } else {
            assert forall|i: int|
                0 <= i < memory.len() && passed(position, (#[trigger] memory[i]).0) && (forall|
                    j: int,
                | i < j < memory.len() ==> !passed(position, (#[trigger] memory[j]).0)) implies 0
                <= i < rest.len() && passed(position, rest[i].0) && (forall|j: int|
                i < j < rest.len() ==> !passed(position, (#[trigger] rest[j]).0)) by {
                assert forall|j: int| i < j < rest.len() implies !passed(
                    position,
                    (#[trigger] rest[j]).0,
                ) by {
                    assert(rest[j] == memory[j]);
                }
            }
            if forall|i: int|
                0 <= i < memory.len() ==> !passed(position, (#[trigger] memory[i]).0) {
                assert forall|i: int| 0 <= i < rest.len() implies !passed(
                    position,
                    (#[trigger] rest[i]).0,
                ) by {
                    assert(rest[i] == memory[i]);
                }
            }
        }
    }
}

/// The lowest bound is a minimum: it is at most the ceiling and at most every
/// remembered limit that binds, and it is the ceiling or one of those limits.
pub proof fn lemma_lowest_bound(
    memory: Seq<(RoadPoint, u32)>,
    position: RoadPoint,
    speed: u32,
    ceiling: u32,
)
    ensures
        lowest_bound(memory, position, speed, ceiling) <= ceiling,
        forall|i: int|
            0 <= i < memory.len() && binds(position, speed, #[trigger] memory[i]) ==> lowest_bound(
                memory,
                position,
                speed,
                ceiling,
            ) <= memory[i].1,
        lowest_bound(memory, position, speed, ceiling) == ceiling || exists|i: int|
            0 <= i < memory.len() && binds(position, speed, #[trigger] memory[i]) && lowest_bound(
                memory,
                position,
                speed,
                ceiling,
            ) == memory[i].1,
    decreases memory.len(),
{
    if memory.len() > 0 {
        let rest = memory.drop_last();
        let lowest = lowest_bound(memory, position, speed, ceiling);
        lemma_lowest_bound(rest, position, speed, ceiling);
        assert forall|i: int|
            0 <= i < memory.len() && binds(position, speed, #[trigger] memory[i]) implies lowest
            <= memory[i].1 by {
            if i < rest.len() {
                assert(rest[i] == memory[i]);
            }
        }
        if lowest != ceiling {
            if lowest == lowest_bound(rest, position, speed, ceiling) {
                let i = choose|i: int|
                    0 <= i < rest.len() && binds(position, speed, #[trigger] rest[i])
                        && lowest_bound(rest, position, speed, ceiling) == rest[i].1;
                assert(memory[i] == rest[i]);
            } else {
                assert(memory[memory.len() - 1] == memory.last());
            }
        }
    }
}

/// A speed limit is anticipated. A car that remembers a sign with limit
/// `limit` at `sign`, and is so near to it that it cannot reach that limit
/// within the distance left, aims for a speed of at most `limit`. The same
/// holds of every remembered sign that the car has passed, and the target
/// speed never exceeds the limit in force.
pub proof fn lemma_target_respects_limit(car: CarView, sign: RoadPoint, limit: u32)
    requires
        car.incoming_speed_limits.contains((sign, limit)),
        passed(car.position, sign) || out_of_reach(
            car.speed,
            limit,
            forward_distance(car.position, sign),
        ),
    ensures
        retargeted(car).target_speed <= limit,
        retargeted(car).target_speed <= retargeted(car).current_speed_limit,
{
    let memory = car.incoming_speed_limits;
    let i = choose|i: int| 0 <= i < memory.len() && memory[i] == (sign, limit);
    lemma_lowest_bound(memory, car.position, car.speed, retargeted(car).current_speed_limit);
    assert(binds(car.position, car.speed, memory[i]));
}

/// What was remembered stays remembered, in place, when more signs are seen,
/// and no sign is remembered twice afterwards if none was before.
pub proof fn lemma_noted_all_keeps(memory: Seq<(RoadPoint, u32)>, signs: Seq<Sign>)
    ensures
        memory.len() <= noted_all(memory, signs).len(),
        noted_all(memory, signs).take(memory.len() as int) == memory,
        no_sign_twice(memory) ==> no_sign_twice(noted_all(memory, signs)),
        forall|k: int|
            0 <= k < signs.len() ==> knows(
                noted_all(memory, signs),
                (#[trigger] signs[k]).position,
            ),
    decreases signs.len(),
{
    if signs.len() == 0 {
        assert(memory.take(memory.len() as int) == memory);
    } else {
        let before = noted_all(memory, signs.drop_last());
        let after = noted_all(memory, signs);
        lemma_noted_all_keeps(memory, signs.drop_last());
        assert(after.take(memory.len() as int) =~= before.take(memory.len() as int));
        assert forall|k: int| 0 <= k < signs.len() implies knows(
            after,
            (#[trigger] signs[k]).position,
        ) by {
            if k < signs.len() - 1 {
                assert(signs.drop_last()[k] == signs[k]);
                let i = choose|i: int|
                    0 <= i < before.len() && (#[trigger] before[i]).0 == signs[k].position;
                assert(after[i] == before[i]);
            } else {
                if knows(before, signs.last().position) {
                } else {
                    assert(after[before.len() as int].0 == signs[k].position);
                }
            }
        }
    }
}

/// Seeing signs whose points are all remembered changes nothing.
pub proof fn lemma_noted_all_known(memory: Seq<(RoadPoint, u32)>, signs: Seq<Sign>)
    requires
        forall|k: int| 0 <= k < signs.len() ==> knows(memory, (#[trigger] signs[k]).position),
    ensures
        noted_all(memory, signs) == memory,
    decreases signs.len(),
{
    if signs.len() > 0 {
        assert forall|k: int| 0 <= k < signs.drop_last().len() implies knows(
            memory,
            (#[trigger] signs.drop_last()[k]).position,
        ) by {
            assert(signs.drop_last()[k] == signs[k]);
        }
        lemma_noted_all_known(memory, signs.drop_last());
        assert(knows(memory, signs[signs.len() - 1].position));
    }
}

/// Seeing a sign twice is the same as seeing it once: the memory holds one
/// limit for each point at which a sign was seen, even if the sign is seen
/// again, in the same look or in a later one.
pub proof fn lemma_seen_twice(memory: Seq<(RoadPoint, u32)>, sign: Sign, signs: Seq<Sign>)
    ensures
        noted(noted(memory, sign), sign) == noted(memory, sign),
        noted_all(noted_all(memory, signs), signs) == noted_all(memory, signs),
        knows(memory, sign.position) ==> noted(memory, sign) == memory,
        no_sign_twice(memory) ==> no_sign_twice(noted(memory, sign)) && no_sign_twice(
            noted_all(memory, signs),
        ),
{
    let once = noted(memory, sign);
    if !knows(memory, sign.position) {
        assert(once[memory.len() as int].0 == sign.position);
    }
    lemma_noted_all_keeps(memory, signs);
    lemma_noted_all_known(noted_all(memory, signs), signs);
    if no_sign_twice(memory) {
        lemma_noted_all_keeps(memory, seq![sign]);
        assert(seq![sign].drop_last() =~= Seq::<Sign>::empty());
        assert(noted_all(memory, Seq::<Sign>::empty()) == memory);
        assert(noted_all(memory, seq![sign]) == noted(
            noted_all(memory, seq![sign].drop_last()),
            seq![sign].last(),
        ));
    }
}

/// With a lower ceiling the lowest bound is the lower of the two.
proof fn lemma_lowest_bound_ceiling(
    memory: Seq<(RoadPoint, u32)>,
    position: RoadPoint,
    speed: u32,
    ceiling: u32,
)
    ensures
        lowest_bound(memory, position, speed, ceiling) == if ceiling < lowest_bound(
            memory,
            position,
            speed,
            u32::MAX,
        ) {
            ceiling
        } else {
            lowest_bound(memory, position, speed, u32::MAX)
        },
    decreases memory.len(),
{
    if memory.len() > 0 {
        lemma_lowest_bound_ceiling(memory.drop_last(), position, speed, ceiling);
    }
}

/// Whether changing speed from `speed` to `limit` takes more than `distance`.
fn speed_gap_exceeds(speed: u32, limit: u32, distance: u64) -> (exceeds: bool)
    ensures
        exceeds == out_of_reach(speed, limit, Some(distance)),
{
    let v = speed as u64;
    let l = limit as u64;
    assert(v * v <= u64::MAX && l * l <= u64::MAX) by (nonlinear_arith)
        requires
            v <= u32::MAX,
            l <= u32::MAX,
    ;
    let gap: u64 = if v >= l {
        assert(v * v >= l * l) by (nonlinear_arith)
            requires
                v >= l,
                l >= 0,
        ;
        v * v - l * l
    } else {
        assert(l * l >= v * v) by (nonlinear_arith)
            requires
                l >= v,
                v >= 0,
        ;
        l * l - v * v
    };
    let needed: u128 = 2_746_800 * (distance as u128);
    (gap as u128) > needed
}

/// What is kept of a memory without repeated signs has no repeated signs.
proof fn lemma_filter_keeps_distinct(
    memory: Seq<(RoadPoint, u32)>,
    keep: spec_fn((RoadPoint, u32)) -> bool,
)
    requires
        no_sign_twice(memory),
    ensures
        no_sign_twice(memory.filter(keep)),
    decreases memory.len(),
{
    reveal(Seq::filter);
    if memory.len() > 0 {
        let rest = memory.drop_last();
        lemma_filter_keeps_distinct(rest, keep);
        let kept = rest.filter(keep);
        if keep(memory.last()) {
            assert forall|i: int, j: int| 0 <= i < j < kept.len() + 1 implies (
            #[trigger] kept.push(memory.last())[i]).0 != (#[trigger] kept.push(
                memory.last(),
            )[j]).0 by {
                if j == kept.len() {
                    rest.lemma_filter_contains_rev(keep, kept[i]);
                    let k = choose|k: int| 0 <= k < rest.len() && rest[k] == kept[i];
                    assert(memory[k] == kept[i]);
                    assert(memory[memory.len() - 1] == memory.last());
                }
            }
        }
    }
}

impl CarView {
    /// No sign is remembered twice.
    pub open spec fn wf(self) -> bool {
        no_sign_twice(self.incoming_speed_limits)
    }

    /// Whether the car is on the network `roads` and its trip leads between
    /// two segments of that network.
    pub open spec fn fits(self, roads: RoadsView) -> bool {
        &&& roads.contains_point(self.position)
        &&& roads.has_segment(self.trip_start.road_segment)
        &&& roads.has_segment(self.trip_end.road_segment)
    }
}

impl Car {
    /// Whether the car is well formed: see [`CarView::wf`].
    pub open spec fn wf(&self) -> bool {
        self@.wf()
    }

    /// A car at `position` that sets out at [`INITIAL_SPEED`], with no trip
    /// planned yet. It will travel to and fro between the segments numbered
    /// 0 and 23, which are two corners of the mesh.
    pub fn new(position: RoadPoint) -> (car: Self)
        ensures
            car.wf(),
            car@ == (CarView {
                position,
                speed: INITIAL_SPEED,
                target_speed: INITIAL_SPEED,
                current_speed_limit: SPEED,
                incoming_speed_limits: Seq::empty(),
                planned_trip: Seq::empty(),
                is_back: false,
                trip_start: RoadPoint { road_segment: RoadSegmentIdx(0), position: 1_000_000 },
                trip_end: RoadPoint { road_segment: RoadSegmentIdx(23), position: 1_000_000 },
            }),
    {
        Self::with_trip(
            position,
            RoadPoint::new(RoadSegmentIdx(0), 1_000_000),
            RoadPoint::new(RoadSegmentIdx(23), 1_000_000),
        )
    }

    /// A car at `position` that sets out at [`INITIAL_SPEED`], with no trip
    /// planned yet. It will travel to and fro between `trip_start` and
    /// `trip_end`.
    pub fn with_trip(position: RoadPoint, trip_start: RoadPoint, trip_end: RoadPoint) -> (car: Self)
        ensures
            car.wf(),
            car@ == (CarView {
                position,
                speed: INITIAL_SPEED,
                target_speed: INITIAL_SPEED,
                current_speed_limit: SPEED,
                incoming_speed_limits: Seq::empty(),
                planned_trip: Seq::empty(),
                is_back: false,
                trip_start,
                trip_end,
            }),
    {
        Self {
            position,
            speed: INITIAL_SPEED,
            target_speed: INITIAL_SPEED,
            road_information: RoadInformation {
                current_speed_limit: SPEED,
                incoming_speed_limits: Vec::new(),
            },
            planned_trip: Path::new(),
            is_back: false,
            trip_start,
            trip_end,
        }
    }

    /// Where the car is.
    pub fn position(&self) -> (position: RoadPoint)
        ensures
            position == self@.position,
    {
        self.position
    }

    /// How fast the car travels.
    pub fn speed(&self) -> (speed: u32)
        ensures
            speed == self@.speed,
    {
        self.speed
    }

    /// The speed that the car aims for.
    pub fn target_speed(&self) -> (speed: u32)
        ensures
            speed == self@.target_speed,
    {
        self.target_speed
    }

    /// The limit in force where the car is.
    pub fn current_speed_limit(&self) -> (limit: u32)
        ensures
            limit == self@.current_speed_limit,
    {
        self.road_information.current_speed_limit
    }

    /// The limits that the car remembers, each with the point of its sign,
    /// in the order in which the signs were seen.
    pub fn incoming_speed_limits(&self) -> (limits: &Vec<(RoadPoint, u32)>)
        ensures
            limits@ == self@.incoming_speed_limits,
    {
        &self.road_information.incoming_speed_limits
    }

    /// The trip that the car has planned.
    pub fn planned_trip(&self) -> (trip: &Path)
        ensures
            trip@ == self@.planned_trip,
    {
        &self.planned_trip
    }

    /// Whether the car plans its way back next.
    pub fn is_back(&self) -> (back: bool)
        ensures
            back == self@.is_back,
    {
        self.is_back
    }

    /// Whether the car is on the network `roads` and its trip leads between
    /// two segments of that network.
    pub fn fits(&self, roads: &Roads) -> (held: bool)
        ensures
            held == self@.fits(roads@),
    {
        roads.contains_point(&self.position) && self.trip_start.road_segment.0
            < roads.segment_count() && self.trip_end.road_segment.0 < roads.segment_count()
    }

    /// Whether a limit is remembered for the sign at `point`.
    fn contains_key(&self, point: &RoadPoint) -> (held: bool)
        ensures
            held == knows(self@.incoming_speed_limits, *point),
    {
        let memory = &self.road_information.incoming_speed_limits;
        for i in 0..memory.len()
            invariant
                memory@ == self@.incoming_speed_limits,
                forall|k: int| 0 <= k < i ==> (#[trigger] memory@[k]).0 != *point,
        {
            if memory[i].0.road_segment.0 == point.road_segment.0 && memory[i].0.position
                == point.position {
                return true;
            }
        }
        false
    }

    /// Looks out for signs: the car remembers the limit of each sign within
    /// [`SEEING_DISTANCE`] ahead of it, unless it remembers one for a sign at
    /// the same point already.
    pub fn observe(&mut self, roads: &Roads)
        requires
            old(self).wf(),
            roads@.has_segment(old(self)@.position.road_segment),
        ensures
            final(self).wf(),
            final(self)@ == observed(roads@, old(self)@),
    {
        let signs = roads.get_signs(&self.position, SEEING_DISTANCE);
        for k in 0..signs.len()
            invariant
                self.wf(),
                signs@ == roads@.signs_within(old(self)@.position, SEEING_DISTANCE),
                self@ == (CarView {
                    incoming_speed_limits: noted_all(
                        old(self)@.incoming_speed_limits,
                        signs@.take(k as int),
                    ),
                    ..old(self)@
                }),
        {
            let sign = signs[k];
            proof {
                assert(signs@.take(k + 1).drop_last() == signs@.take(k as int));
                assert(signs@.take(k + 1).last() == sign);
            }
            // Skip the sign if we saw it already.
            if !self.contains_key(&sign.position) {
                match sign.sign_type {
                    SignType::SpeedLimit => {
                        self.road_information.incoming_speed_limits.push(
                            (sign.position, sign.value),
                        );
                    },
                    SignType::EndSpeedLimit => {
                        self.road_information.incoming_speed_limits.push((sign.position, SPEED));
                    },
                }
            }
        }
        assert(signs@.take(signs@.len() as int) == signs@);
    }

    /// Chooses the target speed anew. Each remembered sign that the car has
    /// passed puts its limit in force, the one seen last prevailing. The
    /// target speed is the lowest of the limit in force and of the limits of
    /// the signs that are passed or too near to reach their limit in time.
    pub fn retarget(&mut self, roads: &Roads)
        ensures
            final(self)@ == retargeted(old(self)@),
    {
        let mut target_speed: u32 = u32::MAX;
        let n = self.road_information.incoming_speed_limits.len();
        for i in 0..n
            invariant
                n == old(self)@.incoming_speed_limits.len(),
                self@ == (CarView {
                    current_speed_limit: limit_in_force(
                        old(self)@.current_speed_limit,
                        old(self)@.incoming_speed_limits.take(i as int),
                        old(self)@.position,
                    ),
                    ..old(self)@
                }),
                target_speed == lowest_bound(
                    old(self)@.incoming_speed_limits.take(i as int),
                    old(self)@.position,
                    old(self)@.speed,
                    u32::MAX,
                ),
        {
            let (speed_limit_position, speed) = self.road_information.incoming_speed_limits[i];
            proof {
                let memory = old(self)@.incoming_speed_limits;
                assert(memory.take(i + 1).drop_last() == memory.take(i as int));
                assert(memory.take(i + 1).last() == (speed_limit_position, speed));
            }
            let to_car = roads.get_distance(&speed_limit_position, &self.position);
            let to_sign = roads.get_distance(&self.position, &speed_limit_position);
            // Update the current speed limit information
            let is_passed = match (to_car, to_sign) {
                (_, None) => true,
                (None, Some(_)) => false,
                (Some(x), Some(y)) => x <= y,
            };
            if is_passed {
                self.road_information.current_speed_limit = speed;
                if speed < target_speed {
                    target_speed = speed;
                }
            }
            // Look at how much distance it would take to accelerate / decelerate
            if let Some(distance) = to_sign {
                if speed_gap_exceeds(self.speed, speed, distance) && speed < target_speed {
                    target_speed = speed;
                }
            }
        }
        proof {
            let memory = old(self)@.incoming_speed_limits;
            assert(memory.take(n as int) == memory);
            lemma_lowest_bound_ceiling(
                memory,
                old(self)@.position,
                old(self)@.speed,
                self@.current_speed_limit,
            );
        }
        if self.road_information.current_speed_limit < target_speed {
            target_speed = self.road_information.current_speed_limit;
        }
        self.target_speed = target_speed;
    }

    /// Forgets the signs that the car has passed.
    pub fn forget_passed(&mut self, roads: &Roads)
        requires
            old(self).wf(),
        ensures
            final(self).wf(),
            final(self)@ == unburdened(old(self)@),
    {
        let ghost ahead = |entry: (RoadPoint, u32)| !passed(old(self)@.position, entry.0);
        let ghost memory = old(self)@.incoming_speed_limits;
        let mut kept: Vec<(RoadPoint, u32)> = Vec::new();
        let n = self.road_information.incoming_speed_limits.len();
        for i in 0..n
            invariant
                n == memory.len(),
                self@ == old(self)@,
                memory == old(self)@.incoming_speed_limits,
                ahead == |entry: (RoadPoint, u32)| !passed(old(self)@.position, entry.0),
                kept@ == memory.take(i as int).filter(ahead),
        {
            let entry = self.road_information.incoming_speed_limits[i];
            proof {
                reveal(Seq::filter);
                assert(memory.take(i + 1).drop_last() == memory.take(i as int));
            }
            let to_sign = roads.get_distance(&self.position, &entry.0);
            let to_car = roads.get_distance(&entry.0, &self.position);
            let is_ahead = match (to_sign, to_car) {
                (Some(x), Some(y)) => x < y,
                (Some(_), None) => true,
                (None, _) => false,
            };
            if is_ahead {
                kept.push(entry);
            }
        }
        proof {
            assert(memory.take(n as int) == memory);
            lemma_filter_keeps_distinct(memory, ahead);
        }
        self.road_information.incoming_speed_limits = kept;
    }

    /// Whether the car should plan further.
    pub fn needs_path(&self, roads: &Roads) -> (result: Result<bool, PathError>)
        requires
            roads@.contains_point(self@.position),
        ensures
            result == wants_route(roads@, self@),
    {
        let total = match self.planned_trip.total_distance(roads) {
            Ok(total) => total,
            Err(error) => {
                return Err(error);
            },
        };
        if total < PLANNING_DISTANCE {
            return Ok(true);
        }
        match self.planned_trip.distance_left(&self.position, roads) {
            Ok(left) => Ok(left < PLANNING_DISTANCE),
            Err(error) => Err(error),
        }
    }

    /// Adds `route` to the trip and turns the car's planning round.
    pub fn extend_trip(&mut self, route: Vec<RoadNodeIdx>)
        ensures
            final(self)@ == extended(old(self)@, route@),
    {
        self.planned_trip.append(route);
        self.is_back = !self.is_back;
    }

    /// Forgets the nodes of the trip before the car's segment, where the
    /// trip is longer than [`PLANNING_DISTANCE`].
    pub fn tidy_trip(&mut self, roads: &Roads) -> (result: Result<(), CarError>)
        requires
            roads@.contains_point(old(self)@.position),
        ensures
            tidied_to(roads@, old(self)@, final(self)@, result),
    {
        let total = match self.planned_trip.total_distance(roads) {
            Ok(total) => total,
            Err(error) => {
                return Err(CarError::Path(error));
            },
        };
        if total > PLANNING_DISTANCE {
            self.planned_trip.forget_before(&self.position, roads);
        }
        Ok(())
    }

    /// Maintains the trip: a car that should plan further adds a route for
    /// its next leg, then the trip is tidied.
    pub fn check_path(&mut self, roads: &Roads) -> (result: Result<(), CarError>)
        requires
            roads.wf(),
            old(self)@.fits(roads@),
        ensures
            maintained(roads@, old(self)@, final(self)@, result),
            final(self)@.fits(roads@),
            final(self)@.incoming_speed_limits == old(self)@.incoming_speed_limits,
    {
        let plan = match self.needs_path(roads) {
            Ok(plan) => plan,
            Err(error) => {
                return Err(CarError::Path(error));
            },
        };
        if plan {
            let start = self.trip_start;
            let end = self.trip_end;
            let found = if self.is_back {
                pathfind(&end, &start, roads)
            } else {
                pathfind(&start, &end, roads)
            };
            let ghost leg = next_leg(roads@, self@);
            match found {
                Some(route) => {
                    let ghost nodes = route@;
                    assert(reachable(roads@, leg.0, leg.1));
                    self.extend_trip(route);
                    let result = self.tidy_trip(roads);
                    assert(is_route(roads@, leg.0, leg.1, nodes) && nodes.no_duplicates()
                        && is_shortest_route(roads@, leg.0, leg.1, nodes) && tidied_to(
                        roads@,
                        extended(old(self)@, nodes),
                        self@,
                        result,
                    ));
                    result
                },
                None => Err(CarError::NoPath),
            }
        } else {
            self.tidy_trip(roads)
        }
    }

    /// A time step: the car moves, looks out for signs, chooses its target
    /// speed anew, forgets the signs it has passed and maintains its trip.
    pub fn update(&mut self, step_size: u32, roads: &Roads) -> (result: Result<(), CarError>)
        requires
            roads.wf(),
            old(self).wf(),
            old(self)@.fits(roads@),
        ensures
            final(self).wf(),
            final(self)@.fits(roads@),
            match driven(roads@, old(self)@, step_size).1 {
                Err(error) => result == Err::<(), CarError>(CarError::Path(error)) && final(self)@
                    == driven(roads@, old(self)@, step_size).0,
                Ok(_) => maintained(
                    roads@,
                    driven(roads@, old(self)@, step_size).0,
                    final(self)@,
                    result,
                ),
            },
    {
        match self.step(step_size, roads) {
            Ok(_) => {},
            Err(error) => {
                return Err(CarError::Path(error));
            },
        }
        self.observe(roads);
        self.retarget(roads);
        self.forget_passed(roads);
        self.check_path(roads)
    }

    /// The kinematics of a time step: the car's speed nears its target
    /// speed, and the car advances along its trip by what it travels at the
    /// new speed.
    pub fn step(&mut self, step_size: u32, roads: &Roads) -> (result: Result<(), PathError>)
        requires
            roads.wf(),
            roads@.contains_point(old(self)@.position),
        ensures
            (final(self)@, result) == stepped(roads@, old(self)@, step_size),
            roads@.contains_point(final(self)@.position),
    {
        let change: u64 = OPTIMAL_ACCELERATION * (step_size as u64) / STEPS_PER_SECOND;
        let speed = self.speed as u64;
        let target = self.target_speed as u64;
        if speed > target {
            if speed < target + change {
                self.speed = self.target_speed;
            } else {
                self.speed = (speed - change) as u32;
            }
        } else if speed < target {
            if speed + change > target {
                self.speed = self.target_speed;
            } else {
                self.speed = (speed + change) as u32;
            }
        }
        assert(self.speed * step_size <= u64::MAX) by (nonlinear_arith)
            requires
                self.speed <= u32::MAX,
                step_size <= u32::MAX,
        ;
        let amount: u64 = (self.speed as u64) * (step_size as u64) / STEPS_PER_SECOND;
        self.planned_trip.move_by(&mut self.position, amount, roads)
    }
}

} // verus!
