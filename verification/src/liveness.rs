//! Every task that a driver has accepted comes due, if the harness keeps
//! stepping: the conditions under which this holds, and the proofs.

use vstd::prelude::*;
use crate::disk::{DiskView, FULL_TURN};
use crate::disk_laws::{degrees_ahead, lemma_ticks_keep_valid, lemma_travel, track_distance};
use crate::driver::{
    due, lemma_occurrences_none, lemma_with_task, lemma_without_newest, queue_valid, waiting_at,
    with_task, without_newest, ElevatorView, SimpleDriverView, TaskView,
};
use crate::driver_laws::{
    arrived, lemma_elevator_step_reports, lemma_simple_serves_in_order_of_arrival,
    lemma_simple_step_keeps_line,
};
use crate::hardware_manager::DiskState;

verus! {

/// Whether the counter of the disk is in step with what the head does: the
/// head turns no slower than it travels, a head that is not reading has
/// counted less than a track's worth of ticks, and a head that is reading has
/// counted less than a degree's worth and is not yet over the wanted angle.
///
/// A disk that is not paced can spin for ever: a seek may leave the counter
/// above the spin speed, and the count then never reaches it.
pub open spec fn paced(disk: DiskView) -> bool {
    &&& 1 <= disk.forward_speed <= disk.spin_speed
    &&& match disk.mode {
        DiskState::READ(target) => disk.sub_ticks < disk.spin_speed && disk.angle != target,
        _ => disk.sub_ticks < disk.forward_speed,
    }
}

/// Whether the disk is at work for the active task: valid and paced, at rest
/// while nothing is active, and else on the task's track or on its way there,
/// reading nothing but the task's angle.
pub open spec fn on_course(disk: DiskView, active: Option<TaskView>) -> bool {
    &&& disk.valid()
    &&& paced(disk)
    &&& disk.track <= u32::MAX
    &&& match active {
        None => disk.mode is STOP,
        Some(task) => task.angle < FULL_TURN && match disk.mode {
            DiskState::STOP => disk.track == task.track,
            DiskState::READ(target) => target == task.angle && disk.track == task.track,
            DiskState::MOVE(m) => m.destination == task.track,
        },
    }
}

/// The ticks a paced disk still spins until it is over `angle`.
pub open spec fn ticks_to_angle(disk: DiskView, angle: u32) -> nat {
    (degrees_ahead(disk.angle, angle as nat) * disk.spin_speed - disk.sub_ticks) as nat
}

/// A bound on the number of steps after which `task` is due, for a disk that
/// is on course for it: the tracks to travel, a step to start the read, and
/// the ticks to spin, for which a travelling head allows a full turn.
pub open spec fn steps_until_due(disk: DiskView, task: TaskView) -> nat {
    match disk.mode {
        DiskState::MOVE(_) => track_distance(disk.track, task.track as nat) + 1 + 360
            * disk.spin_speed,
        DiskState::STOP => if disk.angle == task.angle {
            0
        } else {
            1 + ticks_to_angle(disk, task.angle)
        },
        DiskState::READ(_) => ticks_to_angle(disk, task.angle),
    }
}

/// Whether a first-come-first-served driver is on course: its disk is at
/// work for the active task, and every task it holds asks for an angle of
/// the circle.
pub open spec fn simple_on_course(driver: SimpleDriverView) -> bool {
    &&& on_course(driver.disk, driver.active)
    &&& forall|i: int| 0 <= i < driver.pending.len() ==> (#[trigger] driver.pending[i]).angle
        < FULL_TURN
}

/// The counter of a paced disk is below the larger of the two time constants,
/// which is the spin speed.
pub proof fn lemma_paced_counter_is_bounded(disk: DiskView)
    requires
        paced(disk),
    ensures
        disk.sub_ticks < disk.spin_speed,
        disk.forward_speed <= disk.spin_speed,
{
}

/// A driver that was made for a fresh disk which turns no slower than it
/// travels is on course, whichever of the two it is.
pub proof fn lemma_fresh_driver_is_on_course(disk: DiskView)
    requires
        disk.valid(),
        disk.mode is STOP,
        disk.track <= u32::MAX,
        disk.sub_ticks == 0,
        1 <= disk.forward_speed <= disk.spin_speed,
    ensures
        simple_on_course(SimpleDriverView { disk, active: None, pending: Seq::empty() }),
        elevator_on_course(
            ElevatorView { disk, active: None, same_dir: Map::empty(), opp_dir: Map::empty() },
        ),
{
}

/// One tick brings a disk that is on course for a task, and not yet in place
/// for it, strictly closer to it, and leaves it on course.
pub proof fn lemma_tick_towards_task(disk: DiskView, task: TaskView)
    requires
        on_course(disk, Some(task)),
        !(disk.mode is STOP),
    ensures
        on_course(disk.tick(), Some(task)),
        steps_until_due(disk.tick(), task) < steps_until_due(disk, task),
{
    let speed = disk.spin_speed;
    let degrees = degrees_ahead(disk.angle, task.angle as nat);
    let after = disk.tick();
    assert(speed <= degrees * speed <= 360 * speed) by (nonlinear_arith)
        requires
            1 <= degrees <= 360,
            speed >= 1,
    ;
    if disk.mode is READ && disk.sub_ticks + 1 == speed && after.angle != task.angle {
        let left = degrees_ahead(after.angle, task.angle as nat);
        assert(left == degrees - 1);
        assert(left * speed == degrees * speed - speed) by (nonlinear_arith)
            requires
                left == degrees - 1,
        ;
    }
}

/// A read request brings a disk that rests on the track of a task, but not
/// over its angle, strictly closer to the task, and leaves it on course.
pub proof fn lemma_read_towards_task(disk: DiskView, task: TaskView)
    requires
        on_course(disk, Some(task)),
        disk.mode is STOP,
        disk.angle != task.angle,
    ensures
        on_course(disk.read(task.angle), Some(task)),
        steps_until_due(disk.read(task.angle), task) < steps_until_due(disk, task),
{
    let speed = disk.spin_speed;
    let degrees = degrees_ahead(disk.angle, task.angle as nat);
    assert(degrees * speed >= speed) by (nonlinear_arith)
        requires
            degrees >= 1,
            speed >= 1,
    ;
}

/// Steps add up: `m + n` steps are `m` steps followed by `n` steps.
pub proof fn lemma_simple_steps_add(driver: SimpleDriverView, m: nat, n: nat)
    ensures
        driver.steps(m + n) == driver.steps(m).steps(n),
    decreases n,
{
    if n > 0 {
        lemma_simple_steps_add(driver, m, (n - 1) as nat);
        assert(((m + n) - 1) as nat == m + ((n - 1) as nat));
    }
}

/// The task that a first-come-first-served driver on course is servicing
/// comes due: after the number of steps that is returned, which is no more
/// than `steps_until_due`, the task is still active and the head is in place
/// for it, so that the next step reports it. The waiting tasks have not
/// changed by then.
pub proof fn lemma_simple_active_task_comes_due(driver: SimpleDriverView, task: TaskView) -> (n:
    nat)
    requires
        simple_on_course(driver),
        driver.active == Some(task),
    ensures
        n <= steps_until_due(driver.disk, task),
        simple_on_course(driver.steps(n)),
        due(driver.steps(n).disk, driver.steps(n).active) == Some(task),
        driver.steps(n).pending == driver.pending,
    decreases steps_until_due(driver.disk, task),
{
    if due(driver.disk, driver.active) is Some {
        0
    } else {
        let next = driver.step().0;
        if driver.disk.mode is STOP {
            lemma_read_towards_task(driver.disk, task);
        } else {
            lemma_tick_towards_task(driver.disk, task);
        }
        let later = lemma_simple_active_task_comes_due(next, task);
        lemma_simple_steps_add(driver, 1, later);
        assert(driver.steps(1) == next) by {
            assert(driver.steps(0) == driver);
        }
        1 + later
    }
}

/// Every task that waits at a first-come-first-served driver on course comes
/// due: after the number of steps that is returned, the task is active and
/// the head is in place for it, so that the next step reports it. Exactly the
/// tasks that arrived after it are waiting by then.
pub proof fn lemma_simple_waiting_task_comes_due(driver: SimpleDriverView, i: int) -> (n: nat)
    requires
        simple_on_course(driver),
        0 <= i < driver.pending.len(),
    ensures
        simple_on_course(driver.steps(n)),
        due(driver.steps(n).disk, driver.steps(n).active) == Some(driver.pending[i]),
        driver.steps(n).pending == driver.pending.skip(i + 1),
    decreases i, (if driver.active is Some { 1nat } else { 0nat }),
{
    assert(driver.steps(1) == driver.step().0) by {
        assert(driver.steps(0) == driver);
    }
    match driver.active {
        Some(task) => {
            let until_due = lemma_simple_active_task_comes_due(driver, task);
            let reported = driver.steps(until_due).step().0;
            lemma_simple_steps_add(driver, until_due, 1);
            assert(driver.steps(until_due).steps(1) == reported) by {
                assert(driver.steps(until_due).steps(0) == driver.steps(until_due));
            }
            let later = lemma_simple_waiting_task_comes_due(reported, i);
            lemma_simple_steps_add(driver, until_due + 1, later);
            until_due + 1 + later
        },
        None => {
            let next = driver.step().0;
            let first = driver.pending.first();
            assert(next.pending =~= driver.pending.skip(1));
            if i == 0 {
                let later = lemma_simple_active_task_comes_due(next, first);
                lemma_simple_steps_add(driver, 1, later);
                1 + later
            } else {
                let later = lemma_simple_waiting_task_comes_due(next, i - 1);
                lemma_simple_steps_add(driver, 1, later);
                assert(next.pending.skip(i) =~= driver.pending.skip(i + 1));
                1 + later
            }
        },
    }
}

/// A first-come-first-served driver stays on course when a task for an angle
/// of the circle arrives and when it steps. A driver made for a fresh disk
/// that turns no slower than it travels is on course.
pub proof fn lemma_simple_stays_on_course(driver: SimpleDriverView, task: TaskView)
    requires
        simple_on_course(driver),
        task.angle < FULL_TURN,
    ensures
        simple_on_course(driver.enqueue(task)),
        simple_on_course(driver.step().0),
{
    match driver.active {
        Some(active) => {
            if due(driver.disk, driver.active) is None {
                if driver.disk.mode is STOP {
                    lemma_read_towards_task(driver.disk, active);
                } else {
                    lemma_tick_towards_task(driver.disk, active);
                }
            }
        },
        None => {},
    }
}

/// The number of tasks that wait in `queue` at the tracks below `bound`.
pub open spec fn waiting_below(queue: Map<u32, Seq<TaskView>>, bound: nat) -> nat
    decreases bound,
{
    if bound == 0 {
        0
    } else {
        waiting_below(queue, (bound - 1) as nat) + waiting_at(queue, (bound - 1) as u32).len()
    }
}

/// The number of tasks that wait in `queue`.
pub open spec fn waiting_in(queue: Map<u32, Seq<TaskView>>) -> nat {
    waiting_below(queue, 0x1_0000_0000)
}

/// Two queues that differ at one track only differ in their number of
/// waiting tasks by the difference at that track.
pub proof fn lemma_waiting_below_differs_at(
    before: Map<u32, Seq<TaskView>>,
    after: Map<u32, Seq<TaskView>>,
    track: u32,
    bound: nat,
)
    requires
        bound <= 0x1_0000_0000,
        forall|other: u32|
            other != track ==> #[trigger] waiting_at(after, other) == waiting_at(before, other),
    ensures
        waiting_below(after, bound) + (if track < bound {
            waiting_at(before, track).len()
        } else {
            0
        }) == waiting_below(before, bound) + (if track < bound {
            waiting_at(after, track).len()
        } else {
            0
        }),
    decreases bound,
{
    if bound > 0 {
        lemma_waiting_below_differs_at(before, after, track, (bound - 1) as nat);
        let last = (bound - 1) as u32;
        if last != track {
            assert(waiting_at(after, last) == waiting_at(before, last));
        }
    }
}

/// A queue in which a task waits holds at least one task.
pub proof fn lemma_waiting_below_counts(queue: Map<u32, Seq<TaskView>>, track: u32, bound: nat)
    requires
        track < bound,
    ensures
        waiting_below(queue, bound) >= waiting_at(queue, track).len(),
    decreases bound,
{
    if bound - 1 > track {
        lemma_waiting_below_counts(queue, track, (bound - 1) as nat);
    }
}

/// A queue without entries holds no task.
pub proof fn lemma_waiting_below_empty(queue: Map<u32, Seq<TaskView>>, bound: nat)
    requires
        queue.is_empty(),
    ensures
        waiting_below(queue, bound) == 0,
    decreases bound,
{
    if bound > 0 {
        lemma_waiting_below_empty(queue, (bound - 1) as nat);
        assert(!queue.contains_key((bound - 1) as u32));
    }
}

/// An added task is one task more in the queue, and the newest task taken
/// out is one less.
pub proof fn lemma_waiting_in_changes(queue: Map<u32, Seq<TaskView>>, task: TaskView, track: u32)
    requires
        queue_valid(queue),
    ensures
        waiting_in(with_task(queue, task)) == waiting_in(queue) + 1,
        queue.contains_key(track) ==> waiting_in(without_newest(queue, track)) + 1 == waiting_in(
            queue,
        ),
        queue.contains_key(track) ==> waiting_in(queue) >= 1,
        queue.is_empty() <==> waiting_in(queue) == 0,
{
    lemma_waiting_below_differs_at(queue, with_task(queue, task), task.track, 0x1_0000_0000);
    if queue.contains_key(track) {
        lemma_waiting_below_differs_at(queue, without_newest(queue, track), track, 0x1_0000_0000);
        lemma_waiting_below_counts(queue, track, 0x1_0000_0000);
    }
    if queue.is_empty() {
        lemma_waiting_below_empty(queue, 0x1_0000_0000);
    } else {
        let some = choose|k: u32| queue.contains_key(k);
        lemma_waiting_below_counts(queue, some, 0x1_0000_0000);
    }
}

/// Whether every task in `queue` asks for an angle of the circle.
pub open spec fn asks_for_angles(queue: Map<u32, Seq<TaskView>>) -> bool {
    forall|track: u32, i: int|
        queue.contains_key(track) && 0 <= i < queue[track].len() ==> (#[trigger] queue[track][i]).angle
            < FULL_TURN
}

/// Whether an elevator driver is on course: it is valid, its disk is at work
/// for the active task, and every task it holds asks for an angle of the
/// circle.
pub open spec fn elevator_on_course(driver: ElevatorView) -> bool {
    &&& driver.valid()
    &&& on_course(driver.disk, driver.active)
    &&& asks_for_angles(driver.same_dir)
    &&& asks_for_angles(driver.opp_dir)
}

/// More steps than any task takes from the step that makes it active to the
/// step that reports it.
pub open spec fn cycle_bound(spin_speed: nat) -> nat {
    0x1_0000_0000 + 360 * spin_speed + 4
}

/// The number of tasks an elevator driver holds, a waiting task counted
/// twice and the active one once.
pub open spec fn elevator_load(driver: ElevatorView) -> nat {
    2 * waiting_in(driver.same_dir) + 2 * waiting_in(driver.opp_dir) + (if driver.active is Some {
        1nat
    } else {
        0nat
    })
}

/// A bound on the steps the driver needs for what it is about to do: to
/// bring the active task due and report it, or to reverse the sweep.
pub open spec fn elevator_errand(driver: ElevatorView) -> nat {
    match driver.active {
        Some(task) => 1 + steps_until_due(driver.disk, task),
        None => if driver.same_dir.is_empty() && !driver.opp_dir.is_empty() {
            1
        } else {
            0
        },
    }
}

/// A bound on the number of steps after which an elevator driver on course
/// holds nothing any more.
pub open spec fn elevator_effort(driver: ElevatorView) -> nat {
    cycle_bound(driver.disk.spin_speed) * elevator_load(driver) + elevator_errand(driver)
}

proof fn lemma_effort_drops(bound: nat, load: nat, errand: nat, load_after: nat, errand_after: nat)
    requires
        (load_after + 1 == load && errand_after < bound) || (load_after == load && errand_after
            < errand),
    ensures
        bound * load_after + errand_after < bound * load + errand,
{
    assert(load_after + 1 == load ==> bound * load_after + bound == bound * load)
        by (nonlinear_arith);
}

/// The errand of a driver on course is shorter than the cycle bound.
pub proof fn lemma_errand_is_bounded(driver: ElevatorView)
    requires
        elevator_on_course(driver),
    ensures
        elevator_errand(driver) < cycle_bound(driver.disk.spin_speed),
{
    match driver.active {
        Some(task) => {
            let degrees = degrees_ahead(driver.disk.angle, task.angle as nat);
            let speed = driver.disk.spin_speed;
            assert(speed <= degrees * speed <= 360 * speed) by (nonlinear_arith)
                requires
                    1 <= degrees <= 360,
                    speed >= 1,
            ;
        },
        None => {},
    }
}

/// An elevator driver stays on course when a task for an angle of the circle
/// arrives.
pub proof fn lemma_elevator_enqueue_stays_on_course(driver: ElevatorView, task: TaskView)
    requires
        elevator_on_course(driver),
        task.angle < FULL_TURN,
    ensures
        elevator_on_course(driver.enqueue(task)),
{
    lemma_with_task(driver.same_dir, task);
    lemma_with_task(driver.opp_dir, task);
    lemma_with_task_asks_for_angles(driver.same_dir, task);
    lemma_with_task_asks_for_angles(driver.opp_dir, task);
}

proof fn lemma_with_task_asks_for_angles(queue: Map<u32, Seq<TaskView>>, task: TaskView)
    requires
        asks_for_angles(queue),
        task.angle < FULL_TURN,
    ensures
        asks_for_angles(with_task(queue, task)),
{
    let after = with_task(queue, task);
    assert forall|track: u32, i: int|
        after.contains_key(track) && 0 <= i < after[track].len() implies (#[trigger] after[track][i]).angle
        < FULL_TURN by {
        if track == task.track {
            if i < waiting_at(queue, track).len() {
                assert(after[track][i] == queue[track][i]);
            }
        } else {
            assert(after[track][i] == queue[track][i]);
        }
    }
}

proof fn lemma_without_newest_asks_for_angles(queue: Map<u32, Seq<TaskView>>, track: u32)
    requires
        asks_for_angles(queue),
        queue_valid(queue),
        queue.contains_key(track),
    ensures
        asks_for_angles(without_newest(queue, track)),
        queue[track].last().angle < FULL_TURN,
{
    let after = without_newest(queue, track);
    assert(queue[track][queue[track].len() - 1].angle < FULL_TURN);
    assert forall|other: u32, i: int|
        after.contains_key(other) && 0 <= i < after[other].len() implies (#[trigger] after[other][i]).angle
        < FULL_TURN by {
        assert(after[other][i] == queue[other][i]);
    }
}

/// Every step of an elevator driver on course that holds a task brings it
/// strictly closer to holding none, whichever track it picks, and leaves it
/// on course.
pub proof fn lemma_elevator_step_makes_progress(driver: ElevatorView, pick: u32)
    requires
        elevator_on_course(driver),
        driver.may_pick(pick),
        !driver.is_empty(),
    ensures
        elevator_on_course(driver.step(pick).0),
        elevator_effort(driver.step(pick).0) < elevator_effort(driver),
{
    let after = driver.step(pick).0;
    let here = driver.here();
    let bound = cycle_bound(driver.disk.spin_speed);
    lemma_elevator_step_reports(driver, pick);
    lemma_waiting_in_changes(driver.same_dir, arbitrary(), here);
    lemma_waiting_in_changes(driver.opp_dir, arbitrary(), here);
    match driver.active {
        None => {
            if driver.same_dir.contains_key(here) {
                lemma_without_newest(driver.same_dir, here);
                lemma_without_newest_asks_for_angles(driver.same_dir, here);
                lemma_errand_is_bounded(after);
                assert(elevator_load(after) + 1 == elevator_load(driver));
            } else if !driver.same_dir.is_empty() {
                lemma_without_newest(driver.same_dir, pick);
                lemma_without_newest_asks_for_angles(driver.same_dir, pick);
                lemma_waiting_in_changes(driver.same_dir, arbitrary(), pick);
                lemma_errand_is_bounded(after);
                assert(elevator_load(after) + 1 == elevator_load(driver));
            } else {
                assert(!driver.opp_dir.is_empty());
                assert(elevator_load(after) == elevator_load(driver));
                assert(elevator_errand(after) == 0);
                assert(elevator_errand(driver) == 1);
            }
        },
        Some(task) => {
            if driver.disk.track == task.track {
                if driver.disk.angle == task.angle {
                    assert(elevator_load(after) + 1 == elevator_load(driver));
                    assert(elevator_errand(after) <= 1);
                } else if driver.disk.mode is READ {
                    lemma_tick_towards_task(driver.disk, task);
                } else {
                    lemma_read_towards_task(driver.disk, task);
                }
            } else if driver.same_dir.contains_key(here) && driver.disk.mode is MOVE {
                let taken = without_newest(driver.same_dir, here);
                lemma_without_newest(driver.same_dir, here);
                lemma_without_newest_asks_for_angles(driver.same_dir, here);
                lemma_with_task(taken, task);
                lemma_with_task_asks_for_angles(taken, task);
                lemma_waiting_in_changes(taken, task, here);
                assert(elevator_load(after) == elevator_load(driver));
                let speed = driver.disk.spin_speed;
                let degrees = degrees_ahead(after.disk.angle, after.active->0.angle as nat);
                assert(speed <= degrees * speed <= 360 * speed) by (nonlinear_arith)
                    requires
                        1 <= degrees <= 360,
                        speed >= 1,
                ;
                assert(elevator_errand(after) < elevator_errand(driver));
            } else {
                lemma_tick_towards_task(driver.disk, task);
            }
        },
    }
    lemma_effort_drops(
        bound,
        elevator_load(driver),
        elevator_errand(driver),
        elevator_load(after),
        elevator_errand(after),
    );
}

/// An elevator driver on course holds nothing any more after as many steps
/// as its effort says, whichever tracks the steps pick; until then every
/// step takes at least one off the effort. It stays on course throughout.
pub proof fn lemma_elevator_runs_empty(driver: ElevatorView, picks: Seq<u32>)
    requires
        elevator_on_course(driver),
        driver.allows(picks),
    ensures
        elevator_on_course(driver.steps(picks)),
        driver.steps(picks).is_empty() || elevator_effort(driver.steps(picks)) + picks.len()
            <= elevator_effort(driver),
        picks.len() >= elevator_effort(driver) ==> driver.steps(picks).is_empty(),
    decreases picks.len(),
{
    if picks.len() > 0 {
        let before = driver.steps(picks.drop_last());
        lemma_elevator_runs_empty(driver, picks.drop_last());
        if !before.is_empty() {
            lemma_elevator_step_makes_progress(before, picks.last());
        }
    }
    let last = driver.steps(picks);
    if !last.is_empty() {
        lemma_waiting_in_changes(last.same_dir, arbitrary(), 0);
        lemma_waiting_in_changes(last.opp_dir, arbitrary(), 0);
        assert(elevator_load(last) >= 1);
        assert(cycle_bound(last.disk.spin_speed) * elevator_load(last) >= 1) by (nonlinear_arith)
            requires
                cycle_bound(last.disk.spin_speed) >= 1,
                elevator_load(last) >= 1,
        ;
    }
}

/// A task that an elevator driver holds before some steps and no longer
/// after them was reported by one of them: before the step whose number is
/// returned, the task was due, so that this step returned its id.
pub proof fn lemma_elevator_given_up_means_reported(
    driver: ElevatorView,
    task: TaskView,
    picks: Seq<u32>,
) -> (k: int)
    requires
        driver.valid(),
        driver.allows(picks),
        driver.held(task) >= 1,
        driver.steps(picks).held(task) == 0,
    ensures
        0 <= k < picks.len(),
        due(driver.steps(picks.take(k)).disk, driver.steps(picks.take(k)).active) == Some(task),
        driver.steps(picks.take(k)).step(picks[k]).1 == task.id,
    decreases picks.len(),
{
    let earlier = picks.drop_last();
    let before = driver.steps(earlier);
    lemma_elevator_steps_keep_valid(driver, earlier);
    lemma_elevator_step_reports(before, picks.last());
    if before.held(task) == 0 {
        let k = lemma_elevator_given_up_means_reported(driver, task, earlier);
        assert(earlier.take(k) =~= picks.take(k));
        k
    } else {
        assert(picks.take(picks.len() - 1) =~= earlier);
        picks.len() - 1
    }
}

/// Steps keep an elevator driver valid, whichever tracks they pick.
pub proof fn lemma_elevator_steps_keep_valid(driver: ElevatorView, picks: Seq<u32>)
    requires
        driver.valid(),
        driver.allows(picks),
    ensures
        driver.steps(picks).valid(),
    decreases picks.len(),
{
    if picks.len() > 0 {
        lemma_elevator_steps_keep_valid(driver, picks.drop_last());
        lemma_elevator_step_reports(driver.steps(picks.drop_last()), picks.last());
    }
}

/// Every task that an elevator driver on course holds is reported, if the
/// harness keeps stepping: among as many steps as the effort of the driver
/// says, whichever tracks they pick, there is one before which the task is
/// due and which returns its id. Its number is returned.
pub proof fn lemma_elevator_held_task_is_reported(
    driver: ElevatorView,
    task: TaskView,
    picks: Seq<u32>,
) -> (k: int)
    requires
        elevator_on_course(driver),
        driver.allows(picks),
        driver.held(task) >= 1,
        picks.len() >= elevator_effort(driver),
    ensures
        0 <= k < picks.len(),
        due(driver.steps(picks.take(k)).disk, driver.steps(picks.take(k)).active) == Some(task),
        driver.steps(picks.take(k)).step(picks[k]).1 == task.id,
{
    lemma_elevator_runs_empty(driver, picks);
    lemma_occurrences_none();
    lemma_elevator_given_up_means_reported(driver, task, picks)
}

/// Whether every task that arrives in the course of `schedule` asks for an
/// angle of the circle.
pub open spec fn schedule_asks_for_angles(schedule: Seq<Seq<TaskView>>) -> bool {
    forall|tick: int, i: int|
        0 <= tick < schedule.len() && 0 <= i < schedule[tick].len() ==> (
        #[trigger] schedule[tick][i]).angle < FULL_TURN
}

/// A bound on the number of steps after which a first-come-first-served
/// driver on course has reported the first `ahead` tasks of its line,
/// whatever arrives behind them.
pub open spec fn simple_effort(driver: SimpleDriverView, ahead: nat) -> nat {
    match driver.active {
        Some(task) => (cycle_bound(driver.disk.spin_speed) * (2 * ahead - 1) + 1 + steps_until_due(
            driver.disk,
            task,
        )) as nat,
        None => cycle_bound(driver.disk.spin_speed) * (2 * ahead),
    }
}

/// Fewer steps than the cycle bound bring a task due for which the disk is
/// on course.
pub proof fn lemma_steps_until_due_are_bounded(disk: DiskView, task: TaskView)
    requires
        on_course(disk, Some(task)),
    ensures
        1 + steps_until_due(disk, task) < cycle_bound(disk.spin_speed),
        due(disk, Some(task)) is Some ==> steps_until_due(disk, task) == 0,
{
    let degrees = degrees_ahead(disk.angle, task.angle as nat);
    let speed = disk.spin_speed;
    assert(speed <= degrees * speed <= 360 * speed) by (nonlinear_arith)
        requires
            1 <= degrees <= 360,
            speed >= 1,
    ;
}

/// Every task in the line of a first-come-first-served driver on course is
/// reported, if the harness keeps stepping, whatever tasks arrive in between:
/// after twice the cycle bound of steps for each task up to it, the task at
/// place `place` of the line has been reported, as the report number
/// `place`. Until then every tick takes at least one off the effort.
pub proof fn lemma_simple_task_in_line_is_reported(
    driver: SimpleDriverView,
    schedule: Seq<Seq<TaskView>>,
    place: int,
)
    requires
        simple_on_course(driver),
        schedule_asks_for_angles(schedule),
        0 <= place < driver.line().len(),
    ensures
        simple_on_course(driver.run(schedule)),
        driver.run(schedule).disk.spin_speed == driver.disk.spin_speed,
        driver.served(schedule).len() > place || simple_effort(
            driver.run(schedule),
            (place + 1 - driver.served(schedule).len()) as nat,
        ) + schedule.len() <= simple_effort(driver, (place + 1) as nat),
        schedule.len() >= 2 * (place + 1) * cycle_bound(driver.disk.spin_speed) ==> driver.served(
            schedule,
        ).len() > place && driver.served(schedule)[place] == driver.line()[place],
    decreases schedule.len(),
{
    let bound = cycle_bound(driver.disk.spin_speed);
    lemma_simple_serves_in_order_of_arrival(driver, schedule);
    if schedule.len() > 0 {
        let earlier = schedule.drop_last();
        assert(schedule_asks_for_angles(earlier)) by {
            assert forall|tick: int, i: int|
                0 <= tick < earlier.len() && 0 <= i < earlier[tick].len() implies (
            #[trigger] earlier[tick][i]).angle < FULL_TURN by {
                assert(earlier[tick][i] == schedule[tick][i]);
            }
        }
        lemma_simple_task_in_line_is_reported(driver, earlier, place);
        lemma_simple_serves_in_order_of_arrival(driver, earlier);
        let reached = driver.run(earlier);
        let before = driver.before_last_step(schedule);
        let after = driver.run(schedule);
        assert(simple_on_course(before)) by {
            assert forall|i: int| 0 <= i < before.pending.len() implies (
            #[trigger] before.pending[i]).angle < FULL_TURN by {
                if i >= reached.pending.len() {
                    assert(before.pending[i] == schedule[schedule.len() - 1][i
                        - reached.pending.len()]);
                } else {
                    assert(before.pending[i] == reached.pending[i]);
                }
            }
        }
        lemma_simple_stays_on_course(before, TaskView { id: 0, track: 0, angle: 0 });
        lemma_simple_step_keeps_line(before);
        let served = driver.served(earlier).len();
        if served <= place {
            let ahead = (place + 1 - served) as nat;
            assert(before.line().len() >= ahead) by {
                assert(before.line() =~= reached.line() + schedule.last());
                assert((driver.served(earlier) + reached.line()).len() == served
                    + reached.line().len());
            }
            match before.active {
                Some(task) => {
                    lemma_steps_until_due_are_bounded(before.disk, task);
                    if due(before.disk, before.active) is Some {
                        if served + 1 <= place {
                            lemma_effort_drops(
                                bound,
                                (2 * ahead - 1) as nat,
                                1,
                                (2 * (ahead - 1)) as nat,
                                0,
                            );
                        }
                    } else {
                        if before.disk.mode is STOP {
                            lemma_read_towards_task(before.disk, task);
                        } else {
                            lemma_tick_towards_task(before.disk, task);
                        }
                    }
                },
                None => {
                    let first = before.pending.first();
                    lemma_steps_until_due_are_bounded(after.disk, first);
                    lemma_effort_drops(
                        bound,
                        2 * ahead,
                        0,
                        (2 * ahead - 1) as nat,
                        1 + steps_until_due(after.disk, first),
                    );
                },
            }
        }
    }
    let served = driver.served(schedule).len();
    if served <= place {
        let ahead = (place + 1 - served) as nat;
        let last = driver.run(schedule);
        match driver.active {
            Some(task) => {
                lemma_steps_until_due_are_bounded(driver.disk, task);
            },
            None => {},
        }
        assert(simple_effort(driver, (place + 1) as nat) <= 2 * (place + 1) * bound)
            by (nonlinear_arith)
            requires
                driver.active is Some ==> simple_effort(driver, (place + 1) as nat) == bound * (2
                    * (place + 1) - 1) + 1 + steps_until_due(driver.disk, driver.active->0) && 1
                    + steps_until_due(driver.disk, driver.active->0) < bound,
                driver.active is None ==> simple_effort(driver, (place + 1) as nat) == bound * (2
                    * (place + 1)),
                place >= 0,
                bound >= 1,
        ;
        assert(simple_effort(last, ahead) >= 1) by (nonlinear_arith)
            requires
                last.active is Some ==> simple_effort(last, ahead) == bound * (2 * ahead - 1) + 1
                    + steps_until_due(last.disk, last.active->0),
                last.active is None ==> simple_effort(last, ahead) == bound * (2 * ahead),
                ahead >= 1,
                bound >= 1,
        ;
    }
}

/// The number of the call of `step` that reports a task which a
/// first-come-first-served driver holds alone, from a disk at rest: a call to
/// make the task active, one for each track to travel, and, unless the head
/// is over the task's angle by then, a call to start the read and one for
/// each tick of spinning; then the call that reports.
pub open spec fn lone_task_call_number(disk: DiskView, task: TaskView) -> nat {
    track_distance(disk.track, task.track as nat) + (if disk.angle == task.angle {
        2
    } else {
        3 + degrees_ahead(disk.angle, task.angle as nat) * disk.spin_speed
    })
}

/// One tick of reading takes exactly one tick off the ticks that are left to
/// the wanted angle, and the read ends with the tick that takes off the last.
pub proof fn lemma_read_counts_down(disk: DiskView, task: TaskView)
    requires
        on_course(disk, Some(task)),
        disk.mode is READ,
    ensures
        on_course(disk.tick(), Some(task)),
        ticks_to_angle(disk, task.angle) >= 1,
        disk.tick().track == disk.track,
        disk.tick().mode is READ ==> ticks_to_angle(disk.tick(), task.angle) + 1 == ticks_to_angle(
            disk,
            task.angle,
        ),
        disk.tick().mode is READ <==> ticks_to_angle(disk, task.angle) > 1,
        !(disk.tick().mode is READ) ==> disk.tick().mode is STOP && disk.tick().angle
            == task.angle,
{
    lemma_tick_towards_task(disk, task);
    let speed = disk.spin_speed;
    let degrees = degrees_ahead(disk.angle, task.angle as nat);
    let after = disk.tick();
    assert(speed <= degrees * speed) by (nonlinear_arith)
        requires
            1 <= degrees,
            speed >= 1,
    ;
    assert(degrees >= 2 ==> degrees * speed >= 2 * speed) by (nonlinear_arith)
        requires
            speed >= 1,
    ;
    assert(degrees == 1 ==> degrees * speed == speed) by (nonlinear_arith);
    if disk.sub_ticks + 1 == speed && after.angle != task.angle {
        let left = degrees_ahead(after.angle, task.angle as nat);
        assert(left == degrees - 1);
        assert(left * speed == degrees * speed - speed) by (nonlinear_arith)
            requires
                left == degrees - 1,
        ;
    }
}

/// While a first-come-first-served driver has its disk read for the active
/// task, its steps are the ticks of the disk and return 0: after as many
/// steps as ticks are left to the task's angle, and no earlier, the task is
/// due.
pub proof fn lemma_simple_steps_while_reading(driver: SimpleDriverView, task: TaskView, n: nat)
    requires
        simple_on_course(driver),
        driver.active == Some(task),
        driver.disk.mode is READ,
        n <= ticks_to_angle(driver.disk, task.angle),
    ensures
        driver.steps(n) == (SimpleDriverView { disk: driver.disk.ticks(n), ..driver }),
        on_course(driver.disk.ticks(n), Some(task)),
        n < ticks_to_angle(driver.disk, task.angle) ==> driver.disk.ticks(n).mode is READ
            && ticks_to_angle(driver.disk.ticks(n), task.angle) + n == ticks_to_angle(
            driver.disk,
            task.angle,
        ) && driver.steps(n).step().1 == 0,
        n == ticks_to_angle(driver.disk, task.angle) ==> due(
            driver.steps(n).disk,
            driver.steps(n).active,
        ) == Some(task),
    decreases n,
{
    lemma_read_counts_down(driver.disk, task);
    if n > 0 {
        let earlier = (n - 1) as nat;
        lemma_simple_steps_while_reading(driver, task, earlier);
        lemma_read_counts_down(driver.disk.ticks(earlier), task);
    }
}

/// While a first-come-first-served driver has its disk travel to the active
/// task, its steps are the ticks of the disk and return 0; on a disk with a
/// forward speed of 1 the counter stays at 0.
pub proof fn lemma_simple_steps_while_travelling(driver: SimpleDriverView, task: TaskView, n: nat)
    requires
        simple_on_course(driver),
        driver.active == Some(task),
        driver.disk.mode is MOVE,
        n <= track_distance(driver.disk.track, task.track as nat),
    ensures
        driver.steps(n) == (SimpleDriverView { disk: driver.disk.ticks(n), ..driver }),
        on_course(driver.disk.ticks(n), Some(task)),
        driver.disk.ticks(n).angle == driver.disk.angle,
        driver.disk.ticks(n).spin_speed == driver.disk.spin_speed,
        driver.disk.forward_speed == 1 ==> driver.disk.ticks(n).sub_ticks == 0,
        n < track_distance(driver.disk.track, task.track as nat) ==> driver.disk.ticks(n).mode
            is MOVE && driver.steps(n).step().1 == 0,
        n == track_distance(driver.disk.track, task.track as nat) ==> driver.disk.ticks(n).mode
            is STOP && driver.disk.ticks(n).track == task.track,
    decreases n,
{
    lemma_travel(driver.disk, driver.disk.mode->MOVE_0, n);
    lemma_ticks_keep_valid(driver.disk, n);
    if n > 0 {
        let earlier = (n - 1) as nat;
        lemma_ticks_keep_valid(driver.disk, earlier);
        lemma_simple_steps_while_travelling(driver, task, earlier);
        lemma_travel(driver.disk, driver.disk.mode->MOVE_0, earlier);
        lemma_tick_towards_task(driver.disk.ticks(earlier), task);
    }
}

/// A task that a first-come-first-served driver holds alone, waiting, with
/// the disk at rest, the counter at 0 and a forward speed of 1, is reported
/// by the call of `step` whose number `lone_task_call_number` gives, and
/// every earlier call returns 0.
pub proof fn lemma_simple_lone_task_call_number(
    driver: SimpleDriverView,
    task: TaskView,
    earlier: nat,
)
    requires
        simple_on_course(driver),
        driver.active is None,
        driver.pending == seq![task],
        driver.disk.sub_ticks == 0,
        driver.disk.forward_speed == 1,
        earlier + 1 < lone_task_call_number(driver.disk, task),
    ensures
        driver.steps(earlier).step().1 == 0,
        driver.steps((lone_task_call_number(driver.disk, task) - 1) as nat).step().1 == task.id,
        due(
            driver.steps((lone_task_call_number(driver.disk, task) - 1) as nat).disk,
            driver.steps((lone_task_call_number(driver.disk, task) - 1) as nat).active,
        ) == Some(task),
{
    let tracks = track_distance(driver.disk.track, task.track as nat);
    let spin = degrees_ahead(driver.disk.angle, task.angle as nat) * driver.disk.spin_speed;
    let dispatched = driver.step().0;
    assert(driver.steps(1) == dispatched) by {
        assert(driver.steps(0) == driver);
    }
    assert(driver.pending.first() == task);
    assert(dispatched.pending =~= Seq::<TaskView>::empty());
    lemma_simple_stays_on_course(driver, task);
    // the head travels, unless it is on the track already
    let arrived = dispatched.steps(tracks);
    if tracks > 0 {
        lemma_simple_steps_while_travelling(dispatched, task, tracks);
    } else {
        assert(dispatched.steps(0) == dispatched);
    }
    lemma_simple_steps_add(driver, 1, tracks);
    assert(arrived.disk.mode is STOP && arrived.disk.track == task.track && arrived.disk.angle
        == driver.disk.angle && arrived.disk.sub_ticks == 0 && simple_on_course(arrived)
        && arrived.active == Some(task));
    if earlier >= 1 && earlier - 1 < tracks {
        lemma_simple_steps_while_travelling(dispatched, task, (earlier - 1) as nat);
        lemma_simple_steps_add(driver, 1, (earlier - 1) as nat);
    }
    if driver.disk.angle != task.angle {
        // the read is asked for and the disk spins
        let reading = arrived.step().0;
        lemma_read_towards_task(arrived.disk, task);
        lemma_simple_steps_add(driver, 1 + tracks, 1);
        assert(arrived.steps(1) == reading) by {
            assert(arrived.steps(0) == arrived);
        }
        assert(ticks_to_angle(reading.disk, task.angle) == spin);
        lemma_simple_steps_while_reading(reading, task, spin);
        lemma_simple_steps_add(driver, 2 + tracks, spin);
        if earlier >= 2 + tracks {
            lemma_simple_steps_while_reading(reading, task, (earlier - 2 - tracks) as nat);
            lemma_simple_steps_add(driver, 2 + tracks, (earlier - 2 - tracks) as nat);
        }
    }
}

} // verus!
