//! What holds of the two schedulers over any number of steps.

use vstd::prelude::*;
use vstd::seq_lib::lemma_multiset_commutative;
use crate::disk::DiskView;
use crate::driver::{
    due, lemma_occurrences_none, lemma_occurrences_push, lemma_occurrences_remove, lemma_with_task,
    lemma_without_newest, newest_at, occurrences, one_if, without_newest, ElevatorView,
    SimpleDriverView, TaskView,
};

verus! {

impl SimpleDriverView {
    /// The driver `n` steps later.
    pub open spec fn steps(self, n: nat) -> SimpleDriverView
        decreases n,
    {
        if n == 0 {
            self
        } else {
            self.steps((n - 1) as nat).step().0
        }
    }

    /// Whether the driver holds no task at all.
    pub open spec fn is_empty(self) -> bool {
        self.active is None && self.pending.len() == 0
    }

    /// The tasks the driver holds, in the order in which it will report
    /// them: the active one, then the waiting ones, oldest first.
    pub open spec fn line(self) -> Seq<TaskView> {
        match self.active {
            Some(task) => seq![task] + self.pending,
            None => self.pending,
        }
    }

    /// The driver after `tasks` arrived, one after the other.
    pub open spec fn accept_all(self, tasks: Seq<TaskView>) -> SimpleDriverView {
        SimpleDriverView { pending: self.pending + tasks, ..self }
    }

    /// The driver before the step of the last tick of `schedule`: after the
    /// earlier ticks and the arrivals of the last one.
    pub open spec fn before_last_step(self, schedule: Seq<Seq<TaskView>>) -> SimpleDriverView {
        self.run(schedule.drop_last()).accept_all(schedule.last())
    }

    /// The driver after the ticks of `schedule`: with each tick the tasks
    /// that the schedule has for it arrive, then the driver steps once.
    pub open spec fn run(self, schedule: Seq<Seq<TaskView>>) -> SimpleDriverView
        decreases schedule.len(),
    {
        if schedule.len() == 0 {
            self
        } else {
            self.run(schedule.drop_last()).accept_all(schedule.last()).step().0
        }
    }

    /// What the step of the last tick of `schedule` returns.
    pub open spec fn returned(self, schedule: Seq<Seq<TaskView>>) -> u32 {
        self.before_last_step(schedule).step().1
    }

    /// The tasks that the steps of `schedule` reported, in the order in
    /// which they were reported.
    pub open spec fn served(self, schedule: Seq<Seq<TaskView>>) -> Seq<TaskView>
        decreases schedule.len(),
    {
        if schedule.len() == 0 {
            Seq::empty()
        } else {
            match due(
                self.before_last_step(schedule).disk,
                self.before_last_step(schedule).active,
            ) {
                Some(task) => self.served(schedule.drop_last()).push(task),
                None => self.served(schedule.drop_last()),
            }
        }
    }
}

/// The tasks that arrive in the course of `schedule`, in order of arrival.
pub open spec fn arrived(schedule: Seq<Seq<TaskView>>) -> Seq<TaskView>
    decreases schedule.len(),
{
    if schedule.len() == 0 {
        Seq::empty()
    } else {
        arrived(schedule.drop_last()) + schedule.last()
    }
}

/// Whether no two tasks of `tasks` have the same id.
pub open spec fn distinct_ids(tasks: Seq<TaskView>) -> bool {
    forall|i: int, j: int|
        0 <= i < j < tasks.len() ==> (#[trigger] tasks[i]).id != (#[trigger] tasks[j]).id
}

impl ElevatorView {
    /// Whether `picks` can be the tracks chosen by as many steps in a row.
    pub open spec fn allows(self, picks: Seq<u32>) -> bool
        decreases picks.len(),
    {
        picks.len() > 0 ==> self.allows(picks.drop_last()) && self.steps(
            picks.drop_last(),
        ).may_pick(picks.last())
    }

    /// The driver after one step for each of `picks`, in order.
    pub open spec fn steps(self, picks: Seq<u32>) -> ElevatorView
        decreases picks.len(),
    {
        if picks.len() == 0 {
            self
        } else {
            self.steps(picks.drop_last()).step(picks.last()).0
        }
    }

    /// Whether the driver holds no task at all.
    pub open spec fn is_empty(self) -> bool {
        self.active is None && self.same_dir.is_empty() && self.opp_dir.is_empty()
    }

    /// The driver after `tasks` arrived, one after the other.
    pub open spec fn accept_all(self, tasks: Seq<TaskView>) -> ElevatorView
        decreases tasks.len(),
    {
        if tasks.len() == 0 {
            self
        } else {
            self.accept_all(tasks.drop_last()).enqueue(tasks.last())
        }
    }

    /// The driver after the ticks of `schedule`: with each tick the tasks
    /// that the schedule has for it arrive, then the driver steps once, with
    /// the pick that the schedule has for the tick.
    pub open spec fn run(self, schedule: Seq<(Seq<TaskView>, u32)>) -> ElevatorView
        decreases schedule.len(),
    {
        if schedule.len() == 0 {
            self
        } else {
            self.run(schedule.drop_last()).accept_all(schedule.last().0).step(schedule.last().1).0
        }
    }

    /// The driver before the step of the last tick of `schedule`.
    pub open spec fn before_last_step(self, schedule: Seq<(Seq<TaskView>, u32)>) -> ElevatorView {
        self.run(schedule.drop_last()).accept_all(schedule.last().0)
    }

    /// Whether the picks of `schedule` are tracks that the steps may pick.
    pub open spec fn follows(self, schedule: Seq<(Seq<TaskView>, u32)>) -> bool
        decreases schedule.len(),
    {
        schedule.len() > 0 ==> self.follows(schedule.drop_last()) && self.before_last_step(
            schedule,
        ).may_pick(schedule.last().1)
    }

    /// What the step of the last tick of `schedule` returns.
    pub open spec fn returned(self, schedule: Seq<(Seq<TaskView>, u32)>) -> u32 {
        self.before_last_step(schedule).step(schedule.last().1).1
    }
}

/// The tasks that arrive in the course of `schedule`, in order of arrival.
pub open spec fn arrived_with_picks(schedule: Seq<(Seq<TaskView>, u32)>) -> Seq<TaskView>
    decreases schedule.len(),
{
    if schedule.len() == 0 {
        Seq::empty()
    } else {
        arrived_with_picks(schedule.drop_last()) + schedule.last().0
    }
}

/// Tasks that arrive one after the other arrive as `accept_all` says.
pub proof fn lemma_accept_all_is_enqueue_in_turn(
    driver: SimpleDriverView,
    tasks: Seq<TaskView>,
    task: TaskView,
)
    ensures
        driver.accept_all(Seq::empty()) == driver,
        driver.accept_all(tasks.push(task)) == driver.accept_all(tasks).enqueue(task),
{
    assert(driver.pending + Seq::<TaskView>::empty() =~= driver.pending);
    assert(driver.pending + tasks.push(task) =~= (driver.pending + tasks).push(task));
}

/// A step of a first-come-first-served driver takes the first task off the
/// line when that task is due, returning its id, and leaves the line as it
/// is otherwise, returning 0. The active task changes in two ways only: from
/// none to the oldest waiting task, and from the task that is due to none.
pub proof fn lemma_simple_step_keeps_line(driver: SimpleDriverView)
    ensures
        due(driver.disk, driver.active) matches Some(task) ==> driver.line().len() > 0 && task
            == driver.line().first() && driver.step().0.line() == driver.line().drop_first()
            && driver.step().1 == task.id && driver.step().0.active is None,
        due(driver.disk, driver.active) is None ==> driver.step().0.line() == driver.line()
            && driver.step().1 == 0 && (driver.step().0.active == driver.active || (driver.active
            is None && driver.pending.len() > 0 && driver.step().0.active == Some(
            driver.pending.first(),
        ))),
{
    match driver.active {
        Some(task) => {
            assert((seq![task] + driver.pending).drop_first() =~= driver.pending);
        },
        None => {
            if driver.pending.len() > 0 {
                assert(seq![driver.pending.first()] + driver.pending.drop_first()
                    =~= driver.pending);
            }
        },
    }
}

/// First come, first served. Whatever tasks arrive when, the tasks that were
/// reported, followed by the tasks that are still held, are the tasks that
/// were held at the start, followed by the tasks that arrived, in order of
/// arrival: nothing is lost, nothing is added, nothing overtakes. The step
/// of a tick returns the id of the task it reports, or 0.
pub proof fn lemma_simple_serves_in_order_of_arrival(
    driver: SimpleDriverView,
    schedule: Seq<Seq<TaskView>>,
)
    ensures
        driver.served(schedule) + driver.run(schedule).line() == driver.line() + arrived(schedule),
        driver.served(schedule).len() <= driver.line().len() + arrived(schedule).len(),
        forall|i: int|
            0 <= i < driver.served(schedule).len() ==> #[trigger] driver.served(schedule)[i] == (
            driver.line() + arrived(schedule))[i],
        schedule.len() > 0 ==> driver.returned(schedule) == (match due(
            driver.before_last_step(schedule).disk,
            driver.before_last_step(schedule).active,
        ) {
            Some(task) => task.id,
            None => 0,
        }),
    decreases schedule.len(),
{
    let total = driver.line() + arrived(schedule);
    if schedule.len() == 0 {
        assert(driver.served(schedule) + driver.run(schedule).line() =~= total);
    } else {
        let earlier = schedule.drop_last();
        lemma_simple_serves_in_order_of_arrival(driver, earlier);
        let before = driver.before_last_step(schedule);
        lemma_simple_step_keeps_line(before);
        assert(before.line() =~= driver.run(earlier).line() + schedule.last());
        assert(driver.served(earlier) + before.line() =~= total) by {
            assert(driver.served(earlier) + (driver.run(earlier).line() + schedule.last()) =~= (
            driver.served(earlier) + driver.run(earlier).line()) + schedule.last());
            assert((driver.line() + arrived(earlier)) + schedule.last() =~= total);
        }
        match due(before.disk, before.active) {
            Some(task) => {
                assert(driver.served(earlier).push(task) + before.line().drop_first()
                    =~= driver.served(earlier) + before.line());
            },
            None => {},
        }
    }
    let served = driver.served(schedule);
    assert(served.len() <= total.len()) by {
        assert((served + driver.run(schedule).line()).len() == total.len());
    }
    assert forall|i: int| 0 <= i < served.len() implies #[trigger] served[i] == total[i] by {
        assert((served + driver.run(schedule).line())[i] == served[i]);
    }
}

/// Each id is reported at most once across a run of a first-come-first-served
/// driver, if no two of the tasks it holds or is handed have the same id: no
/// two of the tasks it reports have the same id, and a task that was
/// reported is no longer held.
pub proof fn lemma_simple_reports_each_id_once(
    driver: SimpleDriverView,
    schedule: Seq<Seq<TaskView>>,
)
    requires
        distinct_ids(driver.line() + arrived(schedule)),
    ensures
        distinct_ids(driver.served(schedule)),
        forall|i: int, j: int|
            0 <= i < driver.served(schedule).len() && 0 <= j < driver.run(schedule).line().len()
                ==> (#[trigger] driver.served(schedule)[i]).id != (#[trigger] driver.run(
                schedule,
            ).line()[j]).id,
{
    let total = driver.line() + arrived(schedule);
    let served = driver.served(schedule);
    let held = driver.run(schedule).line();
    lemma_simple_serves_in_order_of_arrival(driver, schedule);
    assert forall|i: int, j: int| 0 <= i < j < served.len() implies (#[trigger] served[i]).id != (
    #[trigger] served[j]).id by {
        assert(served[i] == total[i] && served[j] == total[j]);
    }
    assert forall|i: int, j: int| 0 <= i < served.len() && 0 <= j < held.len() implies (
    #[trigger] served[i]).id != (#[trigger] held[j]).id by {
        assert(served[i] == total[i]);
        assert((served + held)[served.len() + j] == held[j]);
        assert(total[served.len() + j] == held[j]);
    }
}

/// A task that arrives at a first-come-first-served driver that holds
/// nothing is the first to be reported, whatever arrives with it or after
/// it: the first task that any run reports is that one.
pub proof fn lemma_simple_first_arrival_is_first(
    driver: SimpleDriverView,
    task: TaskView,
    schedule: Seq<Seq<TaskView>>,
)
    requires
        driver.is_empty(),
        driver.enqueue(task).served(schedule).len() > 0,
    ensures
        driver.enqueue(task).served(schedule)[0] == task,
{
    lemma_simple_serves_in_order_of_arrival(driver.enqueue(task), schedule);
    assert(driver.enqueue(task).line()[0] == task);
}

/// At most one task is active: two tasks that are both the active task of a
/// driver are one and the same. A step of a first-come-first-served driver
/// makes no task active but the oldest waiting one, and that only while none
/// is active.
pub proof fn lemma_at_most_one_active(
    simple: SimpleDriverView,
    elevator: ElevatorView,
    a: TaskView,
    b: TaskView,
)
    ensures
        simple.active == Some(a) && simple.active == Some(b) ==> a == b,
        elevator.active == Some(a) && elevator.active == Some(b) ==> a == b,
        simple.step().0.active matches Some(t) ==> simple.active == Some(t) || (simple.active is None
            && simple.pending.len() > 0 && t == simple.pending.first()),
{
}

/// An arriving task is held once more, and nothing else changes in what a
/// first-come-first-served driver holds.
pub proof fn lemma_simple_enqueue_holds(driver: SimpleDriverView, task: TaskView)
    ensures
        forall|u: TaskView|
            #![trigger driver.enqueue(task).held(u)]
            driver.enqueue(task).held(u) == driver.held(u) + one_if(u == task),
{
    lemma_occurrences_push(driver.pending, task);
}

/// A step of a first-come-first-served driver reports at most one task, the
/// one that is due, and gives up exactly that copy; it returns the task's id.
/// A step at which nothing is due returns 0 and gives up nothing. So a task
/// leaves the driver exactly once: with the step that returns its id.
pub proof fn lemma_simple_step_reports(driver: SimpleDriverView)
    ensures
        due(driver.disk, driver.active) matches Some(t) ==> driver.step().1 == t.id
            && driver.step().0.active is None && forall|u: TaskView|
            #![trigger driver.step().0.held(u)]
            driver.held(u) == driver.step().0.held(u) + one_if(u == t),
        due(driver.disk, driver.active) is None ==> driver.step().1 == 0 && forall|u: TaskView|
            #![trigger driver.step().0.held(u)]
            driver.step().0.held(u) == driver.held(u),
{
    if driver.active is None && driver.pending.len() > 0 {
        lemma_occurrences_remove(driver.pending, 0);
        assert(driver.pending.remove(0) =~= driver.pending.drop_first());
    }
}

/// An arriving task is held once more, and nothing else changes in what an
/// elevator driver holds; the driver stays valid.
pub proof fn lemma_elevator_enqueue_holds(driver: ElevatorView, task: TaskView)
    requires
        driver.valid(),
    ensures
        driver.enqueue(task).valid(),
        forall|u: TaskView|
            #![trigger driver.enqueue(task).held(u)]
            driver.enqueue(task).held(u) == driver.held(u) + one_if(u == task),
{
    lemma_with_task(driver.same_dir, task);
    lemma_with_task(driver.opp_dir, task);
}

/// A step of an elevator driver reports at most one task, the one that is
/// due, and gives up exactly that copy; it returns the task's id. A step at
/// which nothing is due returns 0 and gives up nothing, whichever track it
/// picks. So a task leaves the driver exactly once: with the step that
/// returns its id. Every step keeps the driver valid.
pub proof fn lemma_elevator_step_reports(driver: ElevatorView, pick: u32)
    requires
        driver.valid(),
        driver.may_pick(pick),
    ensures
        driver.step(pick).0.valid(),
        due(driver.disk, driver.active) matches Some(t) ==> driver.step(pick).1 == t.id
            && driver.step(pick).0.active is None && forall|u: TaskView|
            #![trigger driver.step(pick).0.held(u)]
            driver.held(u) == driver.step(pick).0.held(u) + one_if(u == t),
        due(driver.disk, driver.active) is None ==> driver.step(pick).1 == 0 && forall|
            u: TaskView,
        |
            #![trigger driver.step(pick).0.held(u)]
            driver.step(pick).0.held(u) == driver.held(u),
{
    let here = driver.here();
    match driver.active {
        None => {
            if driver.same_dir.contains_key(here) {
                lemma_without_newest(driver.same_dir, here);
            } else if !driver.same_dir.is_empty() {
                lemma_without_newest(driver.same_dir, pick);
            }
        },
        Some(task) => {
            if driver.disk.track != task.track && driver.same_dir.contains_key(here)
                && driver.disk.mode is MOVE {
                lemma_without_newest(driver.same_dir, here);
                lemma_with_task(without_newest(driver.same_dir, here), task);
            }
        },
    }
}

/// Whether `after` is `before` itself, or `before` after one tick or after
/// one request.
pub open spec fn worked_at_most_once(before: DiskView, after: DiskView) -> bool {
    ||| after == before
    ||| after == before.tick()
    ||| after == before.detach()
    ||| exists|angle: u32| after == #[trigger] before.read(angle)
    ||| exists|track: u32| after == #[trigger] before.seek(track)
}

/// A step works the disk at most once: it lets it tick once, or makes one
/// request of it, or leaves it alone.
pub proof fn lemma_step_works_disk_once(simple: SimpleDriverView, elevator: ElevatorView, pick: u32)
    ensures
        worked_at_most_once(simple.disk, simple.step().0.disk),
        worked_at_most_once(elevator.disk, elevator.step(pick).0.disk),
{
    match simple.active {
        Some(task) => {
            assert(simple.disk.read(task.angle) == simple.disk.read(task.angle));
        },
        None => {
            if simple.pending.len() > 0 {
                let track = simple.pending.first().track;
                assert(simple.disk.seek(track) == simple.disk.seek(track));
            }
        },
    }
    match elevator.active {
        Some(task) => {
            assert(elevator.disk.read(task.angle) == elevator.disk.read(task.angle));
        },
        None => {
            let track = newest_at(elevator.same_dir, pick).track;
            assert(elevator.disk.seek(track) == elevator.disk.seek(track));
        },
    }
}

/// Tasks that arrive at an elevator driver are held once more for each time
/// they arrive; the driver stays valid, and its disk and its active task are
/// left alone.
pub proof fn lemma_elevator_accept_all_holds(driver: ElevatorView, tasks: Seq<TaskView>)
    requires
        driver.valid(),
    ensures
        driver.accept_all(tasks).valid(),
        driver.accept_all(tasks).disk == driver.disk,
        driver.accept_all(tasks).active == driver.active,
        forall|u: TaskView|
            #![trigger driver.accept_all(tasks).held(u)]
            driver.accept_all(tasks).held(u) == driver.held(u) + occurrences(tasks, u),
    decreases tasks.len(),
{
    if tasks.len() == 0 {
        lemma_occurrences_none();
        assert(tasks =~= Seq::empty());
    } else {
        lemma_elevator_accept_all_holds(driver, tasks.drop_last());
        lemma_elevator_enqueue_holds(driver.accept_all(tasks.drop_last()), tasks.last());
        lemma_occurrences_push(tasks.drop_last(), tasks.last());
        assert(tasks.drop_last().push(tasks.last()) =~= tasks);
    }
}

/// An elevator driver that held nothing at the start holds no task more
/// often than it arrived, before and after every step, and stays valid.
pub proof fn lemma_elevator_holds_what_arrived(
    driver: ElevatorView,
    schedule: Seq<(Seq<TaskView>, u32)>,
)
    requires
        driver.valid(),
        driver.is_empty(),
        driver.follows(schedule),
    ensures
        driver.run(schedule).valid(),
        forall|u: TaskView|
            #![trigger driver.run(schedule).held(u)]
            driver.run(schedule).held(u) <= occurrences(arrived_with_picks(schedule), u),
        schedule.len() > 0 ==> driver.before_last_step(schedule).valid() && forall|u: TaskView|
            #![trigger driver.before_last_step(schedule).held(u)]
            driver.before_last_step(schedule).held(u) == driver.run(schedule.drop_last()).held(u)
                + occurrences(schedule.last().0, u) && driver.before_last_step(schedule).held(u)
                <= occurrences(arrived_with_picks(schedule), u),
    decreases schedule.len(),
{
    if schedule.len() == 0 {
        lemma_occurrences_none();
    } else {
        let earlier = schedule.drop_last();
        lemma_elevator_holds_what_arrived(driver, earlier);
        lemma_elevator_accept_all_holds(driver.run(earlier), schedule.last().0);
        lemma_elevator_step_reports(driver.before_last_step(schedule), schedule.last().1);
        lemma_multiset_commutative(arrived_with_picks(earlier), schedule.last().0);
        assert forall|u: TaskView|
            occurrences(arrived_with_picks(schedule), u) == occurrences(
                arrived_with_picks(earlier),
                u,
            ) + occurrences(schedule.last().0, u) by {
            broadcast use vstd::multiset::group_multiset_axioms;

        }
    }
}

/// No task arrives more often in the first ticks of a schedule than in the
/// whole of it.
pub proof fn lemma_arrivals_grow(schedule: Seq<(Seq<TaskView>, u32)>, ticks: int)
    requires
        0 <= ticks <= schedule.len(),
    ensures
        forall|u: TaskView|
            #![trigger occurrences(arrived_with_picks(schedule.take(ticks)), u)]
            occurrences(arrived_with_picks(schedule.take(ticks)), u) <= occurrences(
                arrived_with_picks(schedule),
                u,
            ),
    decreases schedule.len(),
{
    if ticks == schedule.len() {
        assert(schedule.take(ticks) =~= schedule);
    } else {
        let earlier = schedule.drop_last();
        lemma_arrivals_grow(earlier, ticks);
        assert(earlier.take(ticks) =~= schedule.take(ticks));
        lemma_multiset_commutative(arrived_with_picks(earlier), schedule.last().0);
        assert forall|u: TaskView|
            occurrences(arrived_with_picks(schedule), u) == occurrences(
                arrived_with_picks(earlier),
                u,
            ) + occurrences(schedule.last().0, u) by {
            broadcast use vstd::multiset::group_multiset_axioms;

        }
    }
}

/// Tasks with ids of their own occur once each.
pub proof fn lemma_distinct_ids_occur_once(tasks: Seq<TaskView>, a: TaskView, b: TaskView)
    requires
        distinct_ids(tasks),
    ensures
        occurrences(tasks, a) <= 1,
        occurrences(tasks, a) >= 1 && occurrences(tasks, b) >= 1 && a.id == b.id ==> a == b,
{
    broadcast use vstd::multiset::group_multiset_axioms;

    assert(tasks.no_duplicates());
    tasks.lemma_multiset_has_no_duplicates();
    tasks.to_multiset_ensures();
    if occurrences(tasks, a) >= 1 && occurrences(tasks, b) >= 1 && a.id == b.id {
        assert(tasks.contains(a) && tasks.contains(b));
        let i = choose|i: int| 0 <= i < tasks.len() && tasks[i] == a;
        let j = choose|j: int| 0 <= j < tasks.len() && tasks[j] == b;
        assert(i == j);
    }
}

/// A task that a tick of an elevator driver reported is not held after any
/// later tick, if the driver held nothing at the start and no two of the
/// tasks that arrive have the same id.
pub proof fn lemma_elevator_reported_task_stays_away(
    driver: ElevatorView,
    schedule: Seq<(Seq<TaskView>, u32)>,
    tick: int,
    later: int,
    task: TaskView,
)
    requires
        driver.valid(),
        driver.is_empty(),
        driver.follows(schedule),
        distinct_ids(arrived_with_picks(schedule)),
        0 <= tick < later <= schedule.len(),
        due(
            driver.before_last_step(schedule.take(tick + 1)).disk,
            driver.before_last_step(schedule.take(tick + 1)).active,
        ) == Some(task),
    ensures
        driver.run(schedule.take(later)).held(task) == 0,
        occurrences(arrived_with_picks(schedule.take(later)), task) == 1,
        driver.follows(schedule.take(later)),
    decreases later,
{
    lemma_follows_so_far(driver, schedule, later);
    lemma_arrivals_grow(schedule, later);
    lemma_distinct_ids_occur_once(arrived_with_picks(schedule), task, task);
    let now = schedule.take(later);
    lemma_elevator_holds_what_arrived(driver, now);
    lemma_elevator_step_reports(driver.before_last_step(now), now.last().1);
    assert(now.drop_last() =~= schedule.take(later - 1));
    lemma_multiset_commutative(arrived_with_picks(now.drop_last()), now.last().0);
    assert forall|u: TaskView|
        occurrences(arrived_with_picks(now), u) == occurrences(arrived_with_picks(now.drop_last()), u)
            + occurrences(now.last().0, u) by {
        broadcast use vstd::multiset::group_multiset_axioms;

    }
    if later == tick + 1 {
        assert(driver.before_last_step(now).held(task) >= 1);
    } else {
        lemma_elevator_reported_task_stays_away(driver, schedule, tick, later - 1, task);
    }
}

/// The first ticks of a schedule whose picks may be picked are a schedule
/// whose picks may be picked.
pub proof fn lemma_follows_so_far(
    driver: ElevatorView,
    schedule: Seq<(Seq<TaskView>, u32)>,
    ticks: int,
)
    requires
        driver.follows(schedule),
        0 <= ticks <= schedule.len(),
    ensures
        driver.follows(schedule.take(ticks)),
    decreases schedule.len(),
{
    if ticks == schedule.len() {
        assert(schedule.take(ticks) =~= schedule);
    } else {
        lemma_follows_so_far(driver, schedule.drop_last(), ticks);
        assert(schedule.drop_last().take(ticks) =~= schedule.take(ticks));
    }
}

/// Each id is reported at most once across a run of an elevator driver that
/// held nothing at the start, if no two of the tasks that arrive have the
/// same id: an id that one tick returned, unless it is 0, is returned by no
/// later tick.
pub proof fn lemma_elevator_reports_each_id_once(
    driver: ElevatorView,
    schedule: Seq<(Seq<TaskView>, u32)>,
    tick: int,
    later: int,
)
    requires
        driver.valid(),
        driver.is_empty(),
        driver.follows(schedule),
        distinct_ids(arrived_with_picks(schedule)),
        0 <= tick < later < schedule.len(),
        driver.returned(schedule.take(tick + 1)) != 0,
    ensures
        driver.returned(schedule.take(later + 1)) != driver.returned(schedule.take(tick + 1)),
{
    let first = schedule.take(tick + 1);
    let second = schedule.take(later + 1);
    lemma_follows_so_far(driver, schedule, tick + 1);
    lemma_follows_so_far(driver, schedule, later + 1);
    lemma_elevator_holds_what_arrived(driver, first);
    lemma_elevator_holds_what_arrived(driver, second);
    lemma_elevator_step_reports(driver.before_last_step(first), first.last().1);
    lemma_elevator_step_reports(driver.before_last_step(second), second.last().1);
    let reported = due(driver.before_last_step(first).disk, driver.before_last_step(first).active);
    assert(reported is Some);
    let task = reported->0;
    lemma_elevator_reported_task_stays_away(driver, schedule, tick, later, task);
    lemma_elevator_reported_task_stays_away(driver, schedule, tick, later + 1, task);
    assert(second.drop_last() =~= schedule.take(later));
    lemma_arrivals_grow(schedule, later + 1);
    lemma_multiset_commutative(arrived_with_picks(second.drop_last()), second.last().0);
    assert forall|u: TaskView|
        occurrences(arrived_with_picks(second), u) == occurrences(
            arrived_with_picks(second.drop_last()),
            u,
        ) + occurrences(second.last().0, u) by {
        broadcast use vstd::multiset::group_multiset_axioms;

    }
    match due(driver.before_last_step(second).disk, driver.before_last_step(second).active) {
        Some(other) => {
            assert(driver.before_last_step(second).held(other) >= 1);
            assert(driver.before_last_step(second).held(task) == 0);
            lemma_distinct_ids_occur_once(arrived_with_picks(schedule), task, other);
            assert(occurrences(arrived_with_picks(second), other) >= 1);
            assert(occurrences(arrived_with_picks(second), task) >= 1);
        },
        None => {},
    }
}

/// A sweep reversal undoes itself: two reversals in a row, with no arrival
/// in between, leave the driver as it was.
pub proof fn lemma_reversal_is_involutive(driver: ElevatorView)
    ensures
        driver.reversed().reversed() == driver,
        forall|u: TaskView| #[trigger] driver.reversed().held(u) == driver.held(u),
{
}

/// A task that arrives at a first-come-first-served driver that holds
/// nothing is the first to complete: whatever number of steps follow, the
/// only task that can be due is that one, and every step returns 0 or its id.
pub proof fn lemma_simple_lone_task_is_first(driver: SimpleDriverView, task: TaskView, n: nat)
    requires
        driver.is_empty(),
    ensures
        forall|u: TaskView|
            #![trigger driver.enqueue(task).steps(n).held(u)]
            u != task ==> driver.enqueue(task).steps(n).held(u) == 0,
        due(driver.enqueue(task).steps(n).disk, driver.enqueue(task).steps(n).active) matches Some(
            t,
        ) ==> t == task,
        driver.enqueue(task).steps(n).step().1 == 0 || driver.enqueue(task).steps(n).step().1
            == task.id,
    decreases n,
{
    let start = driver.enqueue(task);
    if n == 0 {
        lemma_simple_enqueue_holds(driver, task);
        lemma_occurrences_none();
        assert(driver.pending =~= Seq::empty());
    } else {
        lemma_simple_lone_task_is_first(driver, task, (n - 1) as nat);
        lemma_simple_step_reports(start.steps((n - 1) as nat));
    }
    lemma_simple_step_reports(start.steps(n));
    match due(start.steps(n).disk, start.steps(n).active) {
        Some(t) => {
            assert(start.steps(n).held(t) >= 1);
        },
        None => {},
    }
}

/// A task that arrives at an elevator driver that holds nothing is the first
/// to complete: whatever steps follow, the only task that can be due is that
/// one, and every step returns 0 or its id.
pub proof fn lemma_elevator_lone_task_is_first(
    driver: ElevatorView,
    task: TaskView,
    picks: Seq<u32>,
    pick: u32,
)
    requires
        driver.valid(),
        driver.is_empty(),
        driver.enqueue(task).allows(picks),
        driver.enqueue(task).steps(picks).may_pick(pick),
    ensures
        driver.enqueue(task).steps(picks).valid(),
        forall|u: TaskView|
            #![trigger driver.enqueue(task).steps(picks).held(u)]
            u != task ==> driver.enqueue(task).steps(picks).held(u) == 0,
        due(
            driver.enqueue(task).steps(picks).disk,
            driver.enqueue(task).steps(picks).active,
        ) matches Some(t) ==> t == task,
        driver.enqueue(task).steps(picks).step(pick).1 == 0 || driver.enqueue(task).steps(
            picks,
        ).step(pick).1 == task.id,
    decreases picks.len(),
{
    let start = driver.enqueue(task);
    if picks.len() == 0 {
        lemma_elevator_enqueue_holds(driver, task);
        lemma_occurrences_none();
    } else {
        lemma_elevator_lone_task_is_first(driver, task, picks.drop_last(), picks.last());
        lemma_elevator_step_reports(start.steps(picks.drop_last()), picks.last());
    }
    lemma_elevator_step_reports(start.steps(picks), pick);
    match due(start.steps(picks).disk, start.steps(picks).active) {
        Some(t) => {
            assert(start.steps(picks).held(t) >= 1);
        },
        None => {},
    }
}

} // verus!
