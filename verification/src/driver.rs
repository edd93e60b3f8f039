//! Requests and the two schedulers that feed them to a disk.

use std::collections::HashMap;
use vstd::prelude::*;
use vstd::seq_lib::{to_multiset_build, to_multiset_remove};
use vstd::std_specs::iter::IteratorSpec;
use vstd::string::StringExecFns;
use crate::disk::{Disk, DiskView};
use crate::hardware_manager::DiskState;
use crate::text::{decimal, push_decimal};

verus! {

/// Mathematical model of a [`Task`].
pub struct TaskView {
    pub id: u32,
    pub track: u32,
    pub angle: u32,
}

impl TaskView {
    /// The task as it is shown.
    pub open spec fn text(self) -> Seq<char> {
        "Task<task_id: "@ + decimal(self.id as nat) + ", track: "@ + decimal(self.track as nat)
            + ", angle: "@ + decimal(self.angle as nat) + ">"@
    }
}

/// A read request: the sector at `angle` on `track`, known by `task_id`.
/// The id 0 is reserved: a driver reports it when no task completed.
pub struct Task {
    task_id: u32,
    track: u32,
    angle: u32,
}

impl View for Task {
    type V = TaskView;

    closed spec fn view(&self) -> TaskView {
        TaskView { id: self.task_id, track: self.track, angle: self.angle }
    }
}

impl PartialEq for Task {
    fn eq(&self, other: &Task) -> (equal: bool) {
        self.task_id == other.task_id
    }
}

impl vstd::std_specs::cmp::PartialEqSpecImpl for Task {
    open spec fn obeys_eq_spec() -> bool {
        true
    }

    open spec fn eq_spec(&self, other: &Task) -> bool {
        self@.id == other@.id
    }
}

impl Task {
    /// A request with the given id for the given place.
    pub fn new(task_id: u32, track: u32, angle: u32) -> (task: Task)
        ensures
            task@ == (TaskView { id: task_id, track, angle }),
    {
        Task { task_id: task_id, track: track, angle: angle }
    }

    /// The track the request is for.
    pub fn get_track(&self) -> (track: &u32)
        ensures
            *track == self@.track,
    {
        &self.track
    }

    /// The id of the request.
    pub fn get_id(&self) -> (id: &u32)
        ensures
            *id == self@.id,
    {
        &self.task_id
    }

    /// The angle the request is for.
    pub fn get_angle(&self) -> (angle: &u32)
        ensures
            *angle == self@.angle,
    {
        &self.angle
    }

    /// The task as it is shown.
    pub fn to_text(&self) -> (text: String)
        ensures
            text@ == self@.text(),
    {
        let mut text = String::new();
        text.append("Task<task_id: ");
        push_decimal(&mut text, self.task_id as u128);
        text.append(", track: ");
        push_decimal(&mut text, self.track as u128);
        text.append(", angle: ");
        push_decimal(&mut text, self.angle as u128);
        text.append(">");
        assert(text@ =~= self@.text());
        text
    }
}

/// The task a driver is servicing, if any.
pub enum CacheState<'a> {
    EMPTY,
    ACTIVE(&'a Task),
}

impl<'a> View for CacheState<'a> {
    type V = Option<TaskView>;

    open spec fn view(&self) -> Option<TaskView> {
        match self {
            CacheState::EMPTY => None,
            CacheState::ACTIVE(task) => Some(task@),
        }
    }
}

/// The active task, if the head is exactly where that task wants it: a
/// driver's next step completes it.
pub open spec fn due(disk: DiskView, active: Option<TaskView>) -> Option<TaskView> {
    match active {
        Some(task) => if disk.track == task.track && disk.angle == task.angle {
            Some(task)
        } else {
            None
        },
        None => None,
    }
}

/// The disk after one step spent on an active task whose track the head is on
/// but whose angle it is not over: a spinning head keeps spinning, any other
/// is told to spin to the task's angle.
pub open spec fn serve(disk: DiskView, task: TaskView) -> DiskView {
    if disk.mode is READ {
        disk.tick()
    } else {
        disk.read(task.angle)
    }
}

/// 1 if `hit`, else 0.
pub open spec fn one_if(hit: bool) -> nat {
    if hit {
        1
    } else {
        0
    }
}

/// How often `task` occurs in `tasks`.
pub open spec fn occurrences(tasks: Seq<TaskView>, task: TaskView) -> nat {
    tasks.to_multiset().count(task)
}

/// A scheduler that owns a disk: it accepts tasks at any time and, step by
/// step, moves the disk to them.
///
/// `held(task)` says how many copies of `task` the driver has accepted and
/// not yet reported. Accepting a task adds one copy of it. A step reports at
/// most one task: the active one, exactly when the head is on its track and
/// over its angle; it then gives up that copy and returns the task's id. Every
/// other step returns 0 and gives up nothing.
pub trait Driver<'a> {
    /// Well-formedness of the driver and its disk.
    spec fn wf(&self) -> bool;

    /// The model of the disk the driver owns.
    spec fn disk_view(&self) -> DiskView;

    /// The task being serviced, if any.
    spec fn active_view(&self) -> Option<TaskView>;

    /// The number of copies of `task` that are waiting or being serviced.
    spec fn held(&self, task: TaskView) -> nat;

    /// Whether `after` is this driver after `task` arrived at it.
    spec fn accepted(&self, task: TaskView, after: &Self) -> bool;

    /// Whether `after` is this driver after one step, and `id` what that
    /// step returned.
    spec fn stepped(&self, after: &Self, id: u32) -> bool;

    /// The active task of a well-formed driver is among the tasks it holds.
    proof fn lemma_active_is_held(&self)
        requires
            self.wf(),
        ensures
            self.active_view() matches Some(task) ==> self.held(task) >= 1,
    ;

    /// The disk the driver owns.
    fn get_disk(&self) -> (disk: &Disk)
        ensures
            disk@ == self.disk_view(),
    ;

    /// Accepts an arriving task.
    fn add_new_task(&mut self, task: &'a Task)
        requires
            old(self).wf(),
        ensures
            final(self).wf(),
            old(self).accepted(task@, &*final(self)),
            final(self).disk_view() == old(self).disk_view(),
            final(self).active_view() == old(self).active_view(),
            forall|t: TaskView|
                #![trigger final(self).held(t)]
                final(self).held(t) == old(self).held(t) + one_if(t == task@),
    ;

    /// Advances the simulation by one tick and returns the id of the task
    /// that completed, or 0 when none did.
    fn step(&mut self) -> (id: u32)
        requires
            old(self).wf(),
        ensures
            final(self).wf(),
            old(self).stepped(&*final(self), id),
            due(old(self).disk_view(), old(self).active_view()) matches Some(t) ==> id == t.id
                && final(self).active_view() is None && final(self).disk_view() == old(
                self,
            ).disk_view() && forall|u: TaskView|
                #![trigger final(self).held(u)]
                old(self).held(u) == final(self).held(u) + one_if(u == t),
            due(old(self).disk_view(), old(self).active_view()) is None ==> id == 0
                && forall|u: TaskView|
                #![trigger final(self).held(u)]
                final(self).held(u) == old(self).held(u),
    ;
}

/// Mathematical model of a [`SimpleDriver`]: the disk, the task being
/// serviced and the waiting tasks, oldest first.
pub struct SimpleDriverView {
    pub disk: DiskView,
    pub active: Option<TaskView>,
    pub pending: Seq<TaskView>,
}

impl SimpleDriverView {
    /// The number of copies of `task` that wait or are being serviced.
    pub open spec fn held(self, task: TaskView) -> nat {
        one_if(self.active == Some(task)) + occurrences(self.pending, task)
    }

    /// The driver after `task` arrived: it waits behind all others.
    pub open spec fn enqueue(self, task: TaskView) -> SimpleDriverView {
        SimpleDriverView { pending: self.pending.push(task), ..self }
    }

    /// The driver one step later, and what that step returns.
    ///
    /// With no active task, the oldest waiting task becomes active and the
    /// disk is asked to seek its track. With an active task, the step
    /// completes it when the head is in place, else spends the tick on
    /// spinning (on the right track) or on travelling.
    pub open spec fn step(self) -> (SimpleDriverView, u32) {
        match self.active {
            None => if self.pending.len() == 0 {
                (self, 0)
            } else {
                (
                    SimpleDriverView {
                        disk: self.disk.seek(self.pending.first().track),
                        active: Some(self.pending.first()),
                        pending: self.pending.drop_first(),
                    },
                    0,
                )
            },
            Some(task) => if self.disk.track == task.track {
                if self.disk.angle == task.angle {
                    (SimpleDriverView { active: None, ..self }, task.id)
                } else {
                    (SimpleDriverView { disk: serve(self.disk, task), ..self }, 0)
                }
            } else {
                (SimpleDriverView { disk: self.disk.tick(), ..self }, 0)
            },
        }
    }
}

/// First come, first served: tasks are serviced in the order they arrived.
pub struct SimpleDriver<'a> {
    disk: Disk,
    cache: CacheState<'a>,
    task_list: Vec<&'a Task>,
}

impl<'a> View for SimpleDriver<'a> {
    type V = SimpleDriverView;

    closed spec fn view(&self) -> SimpleDriverView {
        SimpleDriverView {
            disk: self.disk@,
            active: self.cache@,
            pending: oldest_first(self.task_list@),
        }
    }
}

/// The models of the tasks of a list that holds the newest task first, in
/// order of arrival.
spec fn oldest_first(newest_first: Seq<&Task>) -> Seq<TaskView> {
    Seq::new(newest_first.len(), |i: int| newest_first[newest_first.len() - 1 - i]@)
}

/// A task added at the end of a sequence occurs once more in it.
pub proof fn lemma_occurrences_push(tasks: Seq<TaskView>, task: TaskView)
    ensures
        forall|u: TaskView|
            #![trigger occurrences(tasks.push(task), u)]
            occurrences(tasks.push(task), u) == occurrences(tasks, u) + one_if(u == task),
{
    broadcast use vstd::multiset::group_multiset_axioms;

    to_multiset_build(tasks, task);
}

/// No task occurs in the empty sequence.
pub proof fn lemma_occurrences_none()
    ensures
        forall|u: TaskView| occurrences(Seq::empty(), u) == 0,
{
    broadcast use vstd::multiset::group_multiset_axioms;

    Seq::<TaskView>::empty().to_multiset_ensures();
}

/// A task taken out of a sequence occurs once less in it.
pub proof fn lemma_occurrences_remove(tasks: Seq<TaskView>, i: int)
    requires
        0 <= i < tasks.len(),
    ensures
        forall|u: TaskView|
            #![trigger occurrences(tasks.remove(i), u)]
            occurrences(tasks, u) == occurrences(tasks.remove(i), u) + one_if(u == tasks[i]),
{
    broadcast use vstd::multiset::group_multiset_axioms;

    to_multiset_remove(tasks, i);
    tasks.to_multiset_ensures();
    assert(tasks.contains(tasks[i]));
}

impl<'a> SimpleDriver<'a> {
    /// A driver for `disk` with nothing to do.
    pub fn new(disk: Disk) -> (driver: SimpleDriver<'a>)
        ensures
            driver@ == (SimpleDriverView { disk: disk@, active: None, pending: Seq::empty() }),
            disk.wf() ==> driver.wf(),
            forall|u: TaskView| driver.held(u) == 0,
    {
        let driver = SimpleDriver { disk: disk, cache: CacheState::EMPTY, task_list: Vec::new() };
        assert(driver@.pending =~= Seq::empty());
        proof {
            lemma_occurrences_none();
        }
        driver
    }
}

impl<'a> Driver<'a> for SimpleDriver<'a> {
    open spec fn wf(&self) -> bool {
        self@.disk.valid()
    }

    open spec fn disk_view(&self) -> DiskView {
        self@.disk
    }

    open spec fn active_view(&self) -> Option<TaskView> {
        self@.active
    }

    open spec fn held(&self, task: TaskView) -> nat {
        self@.held(task)
    }

    open spec fn accepted(&self, task: TaskView, after: &Self) -> bool {
        after@ == self@.enqueue(task)
    }

    open spec fn stepped(&self, after: &Self, id: u32) -> bool {
        after@ == self@.step().0 && id == self@.step().1
    }

    proof fn lemma_active_is_held(&self) {
    }

    fn get_disk(&self) -> (disk: &Disk) {
        &self.disk
    }

    fn add_new_task(&mut self, task: &'a Task)
        ensures
            final(self)@ == old(self)@.enqueue(task@),
    {
        self.task_list.insert(0, task);
        proof {
            assert(final(self)@.pending =~= old(self)@.pending.push(task@));
            lemma_occurrences_push(old(self)@.pending, task@);
        }
    }

    fn step(&mut self) -> (id: u32)
        ensures
            final(self)@ == old(self)@.step().0,
            id == old(self)@.step().1,
    {
        match self.cache {
            CacheState::EMPTY => {
                if !self.task_list.is_empty() {
                    let peak = self.task_list.pop().unwrap();
                    self.disk.add_move_task(peak.track);
                    self.cache = CacheState::ACTIVE(peak);
                    proof {
                        assert(peak@ == old(self)@.pending.first());
                        assert(final(self)@.pending =~= old(self)@.pending.drop_first());
                        assert(old(self)@.pending.drop_first() =~= old(self)@.pending.remove(0));
                        lemma_occurrences_remove(old(self)@.pending, 0);
                    }
                }
            },
            CacheState::ACTIVE(f) => {
                if self.disk.get_current_track() == f.track {
                    if self.disk.get_current_angle() == f.angle {
                        self.cache = CacheState::EMPTY;
                        return f.task_id;
                    } else {
                        if self.disk.is_rotating() {
                            self.disk.step()
                        } else {
                            self.disk.add_reading_task(f.angle);
                        }
                    }
                } else {
                    self.disk.step();
                }
            },
        }

        0
    }
}

/// The tasks waiting at `track` in `queue`, oldest first; none where the
/// queue has no entry for the track.
pub open spec fn waiting_at(queue: Map<u32, Seq<TaskView>>, track: u32) -> Seq<TaskView> {
    if queue.contains_key(track) {
        queue[track]
    } else {
        Seq::empty()
    }
}

/// The queue with `task` added behind the tasks that wait at its track.
pub open spec fn with_task(queue: Map<u32, Seq<TaskView>>, task: TaskView) -> Map<
    u32,
    Seq<TaskView>,
> {
    queue.insert(task.track, waiting_at(queue, task.track).push(task))
}

/// The task that was added last among those waiting at `track`.
pub open spec fn newest_at(queue: Map<u32, Seq<TaskView>>, track: u32) -> TaskView {
    queue[track].last()
}

/// The queue without the newest task at `track`; a track at which nothing
/// is left has no entry.
pub open spec fn without_newest(queue: Map<u32, Seq<TaskView>>, track: u32) -> Map<
    u32,
    Seq<TaskView>,
> {
    if queue[track].len() <= 1 {
        queue.remove(track)
    } else {
        queue.insert(track, queue[track].drop_last())
    }
}

/// The invariant of a queue: every entry holds at least one task, and every
/// task waits under its own track.
pub open spec fn queue_valid(queue: Map<u32, Seq<TaskView>>) -> bool {
    &&& forall|track: u32| #[trigger]
        queue.contains_key(track) ==> queue[track].len() > 0
    &&& forall|track: u32, i: int|
        queue.contains_key(track) && 0 <= i < queue[track].len() ==> (#[trigger] queue[track][i]).track
            == track
}

/// Mathematical model of an [`ElevetorDriver`]: the disk, the task being
/// serviced, the tasks of the current sweep and those of the next one, each
/// by track.
pub struct ElevatorView {
    pub disk: DiskView,
    pub active: Option<TaskView>,
    pub same_dir: Map<u32, Seq<TaskView>>,
    pub opp_dir: Map<u32, Seq<TaskView>>,
}

impl ElevatorView {
    /// The invariant of the driver: that of its disk and of its two queues.
    pub open spec fn valid(self) -> bool {
        &&& self.disk.valid()
        &&& queue_valid(self.same_dir)
        &&& queue_valid(self.opp_dir)
    }

    /// The number of copies of `task` that wait or are being serviced.
    pub open spec fn held(self, task: TaskView) -> nat {
        one_if(self.active == Some(task)) + occurrences(waiting_at(self.same_dir, task.track), task)
            + occurrences(waiting_at(self.opp_dir, task.track), task)
    }

    /// The track the head is on, as a key of the queues.
    pub open spec fn here(self) -> u32 {
        self.disk.track as u32
    }

    /// Whether an arriving task belongs to the current sweep.
    ///
    /// With the head at rest every task does. While the head reads, a task
    /// for the head's own track does. While the head travels, a task does if
    /// it lies elsewhere, in the direction of travel.
    pub open spec fn in_current_sweep(self, task: TaskView) -> bool {
        match self.disk.mode {
            DiskState::STOP => true,
            DiskState::READ(_) => self.disk.track == task.track,
            DiskState::MOVE(m) => self.disk.track != task.track && self.disk.direction_towards(
                task.track,
            ) == m.direction,
        }
    }

    /// The driver after `task` arrived.
    pub open spec fn enqueue(self, task: TaskView) -> ElevatorView {
        if self.in_current_sweep(task) {
            ElevatorView { same_dir: with_task(self.same_dir, task), ..self }
        } else {
            ElevatorView { opp_dir: with_task(self.opp_dir, task), ..self }
        }
    }

    /// The driver after a sweep reversal: the two queues change places.
    pub open spec fn reversed(self) -> ElevatorView {
        ElevatorView { same_dir: self.opp_dir, opp_dir: self.same_dir, ..self }
    }

    /// Whether the next step starts a seek to a track of its own choosing:
    /// nothing is active, nothing waits where the head is, something waits
    /// elsewhere in the current sweep.
    pub open spec fn picks_track(self) -> bool {
        self.active is None && !self.same_dir.contains_key(self.here()) && !self.same_dir.is_empty()
    }

    /// Whether the next step may choose `track`.
    pub open spec fn may_pick(self, track: u32) -> bool {
        self.picks_track() ==> self.same_dir.contains_key(track)
    }

    /// The driver one step later, and what that step returns, where `pick`
    /// is the track the step chooses if it `picks_track`.
    ///
    /// With no active task: a task waiting where the head is becomes active;
    /// else the newest task at `pick` becomes active and the disk is asked to
    /// seek it; else, if only the next sweep has tasks, the sweep reverses.
    /// With an active task: the step completes it when the head is in place,
    /// spends the tick on spinning when the head is on its track, hands the
    /// head over to a task waiting at the track it is passing, or spends the
    /// tick on travelling.
    pub open spec fn step(self, pick: u32) -> (ElevatorView, u32) {
        match self.active {
            None => if self.same_dir.contains_key(self.here()) {
                (
                    ElevatorView {
                        active: Some(newest_at(self.same_dir, self.here())),
                        same_dir: without_newest(self.same_dir, self.here()),
                        ..self
                    },
                    0,
                )
            } else if !self.same_dir.is_empty() {
                (
                    ElevatorView {
                        disk: self.disk.seek(newest_at(self.same_dir, pick).track),
                        active: Some(newest_at(self.same_dir, pick)),
                        same_dir: without_newest(self.same_dir, pick),
                        ..self
                    },
                    0,
                )
            } else if !self.opp_dir.is_empty() {
                (self.reversed(), 0)
            } else {
                (self, 0)
            },
            Some(task) => if self.disk.track == task.track {
                if self.disk.angle == task.angle {
                    (ElevatorView { active: None, ..self }, task.id)
                } else {
                    (ElevatorView { disk: serve(self.disk, task), ..self }, 0)
                }
            } else if self.same_dir.contains_key(self.here()) && self.disk.mode is MOVE {
                (
                    ElevatorView {
                        disk: self.disk.detach(),
                        active: Some(newest_at(self.same_dir, self.here())),
                        same_dir: with_task(without_newest(self.same_dir, self.here()), task),
                        ..self
                    },
                    0,
                )
            } else {
                (ElevatorView { disk: self.disk.tick(), ..self }, 0)
            },
        }
    }
}

/// Tasks are batched by direction: those that lie ahead are serviced on the
/// current sweep, the others on the way back.
pub struct ElevetorDriver<'a> {
    disk: Disk,
    cache: CacheState<'a>,
    same_direction_list: HashMap<u32, Vec<&'a Task>>,
    opposite_direction_list: HashMap<u32, Vec<&'a Task>>,
}

/// The models of the tasks of a list, in the order of the list.
spec fn tasks_view<'a>(tasks: Seq<&'a Task>) -> Seq<TaskView> {
    tasks.map_values(|task: &'a Task| task@)
}

/// The model of a queue: for every track that has an entry, the models of
/// the tasks that wait there.
spec fn queue_view<'a>(list: Map<u32, Vec<&'a Task>>) -> Map<u32, Seq<TaskView>> {
    list.map_values(|tasks: Vec<&'a Task>| tasks_view(tasks@))
}

impl<'a> View for ElevetorDriver<'a> {
    type V = ElevatorView;

    closed spec fn view(&self) -> ElevatorView {
        ElevatorView {
            disk: self.disk@,
            active: self.cache@,
            same_dir: queue_view(self.same_direction_list@),
            opp_dir: queue_view(self.opposite_direction_list@),
        }
    }
}

/// Adding a task to a queue adds one copy of it to the tasks waiting at its
/// track and keeps the queue valid.
pub proof fn lemma_with_task(queue: Map<u32, Seq<TaskView>>, task: TaskView)
    requires
        queue_valid(queue),
    ensures
        queue_valid(with_task(queue, task)),
        forall|u: TaskView|
            #![trigger waiting_at(with_task(queue, task), u.track)]
            occurrences(waiting_at(with_task(queue, task), u.track), u) == occurrences(
                waiting_at(queue, u.track),
                u,
            ) + one_if(u == task),
{
    lemma_occurrences_push(waiting_at(queue, task.track), task);
}

/// Taking the newest task at a track out of a queue removes one copy of it
/// from the tasks waiting there and keeps the queue valid.
pub proof fn lemma_without_newest(queue: Map<u32, Seq<TaskView>>, track: u32)
    requires
        queue_valid(queue),
        queue.contains_key(track),
    ensures
        queue_valid(without_newest(queue, track)),
        newest_at(queue, track).track == track,
        forall|u: TaskView|
            #![trigger waiting_at(without_newest(queue, track), u.track)]
            occurrences(waiting_at(queue, u.track), u) == occurrences(
                waiting_at(without_newest(queue, track), u.track),
                u,
            ) + one_if(u == newest_at(queue, track)),
{
    let tasks = queue[track];
    lemma_occurrences_remove(tasks, tasks.len() - 1);
    assert(tasks.remove(tasks.len() - 1) =~= tasks.drop_last());
    assert(tasks.len() <= 1 ==> tasks.drop_last() =~= Seq::empty());
    assert(tasks[tasks.len() - 1].track == track);
}

/// The item an iterator yields next, if it has one left.
fn next_item<I: Iterator>(iter: &mut I) -> (item: Option<I::Item>)
    ensures
        IteratorSpec::obeys_prophetic_iter_laws(&*old(iter)) ==> item == (if IteratorSpec::remaining(
            &*old(iter),
        ).len() > 0 {
            Some(IteratorSpec::remaining(&*old(iter))[0])
        } else {
            None
        }),
{
    iter.next()
}

/// Adds `task` behind the tasks that wait at its track in `list`.
fn push_task<'a>(list: &mut HashMap<u32, Vec<&'a Task>>, task: &'a Task)
    ensures
        queue_view(final(list)@) == with_task(queue_view(old(list)@), task@),
{
    broadcast use vstd::std_specs::hash::group_hash_axioms;

    let waiting = list.remove(&task.track);
    match waiting {
        Some(tasks) => {
            let mut tasks = tasks;
            tasks.push(task);
            assert(tasks_view(tasks@) =~= tasks_view(old(list)@[task.track]@).push(task@));
            list.insert(task.track, tasks);
        },
        None => {
            let tasks = vec![task];
            assert(tasks_view(tasks@) =~= Seq::<TaskView>::empty().push(task@));
            list.insert(task.track, tasks);
        },
    }
    assert(queue_view(final(list)@) =~= with_task(queue_view(old(list)@), task@));
}

/// Takes the newest of the tasks that wait at `track` out of `list`, and the
/// entry with it when nothing is left there.
fn pop_task<'a>(list: &mut HashMap<u32, Vec<&'a Task>>, track: u32) -> (task: &'a Task)
    requires
        queue_view(old(list)@).contains_key(track),
        queue_view(old(list)@)[track].len() > 0,
    ensures
        task@ == newest_at(queue_view(old(list)@), track),
        queue_view(final(list)@) == without_newest(queue_view(old(list)@), track),
{
    broadcast use vstd::std_specs::hash::group_hash_axioms;

    let mut tasks = list.remove(&track).unwrap();
    let task = tasks.pop().unwrap();

    if tasks.len() != 0 {
        assert(tasks_view(tasks@) =~= tasks_view(old(list)@[track]@).drop_last());
        list.insert(track, tasks);
    }
    assert(queue_view(final(list)@) =~= without_newest(queue_view(old(list)@), track));

    task
}

impl<'a> ElevetorDriver<'a> {
    /// A driver for `disk` with nothing to do.
    pub fn new(disk: Disk) -> (driver: ElevetorDriver<'a>)
        ensures
            driver@ == (ElevatorView {
                disk: disk@,
                active: None,
                same_dir: Map::empty(),
                opp_dir: Map::empty(),
            }),
            disk.wf() ==> driver.wf(),
            forall|u: TaskView| driver.held(u) == 0,
    {
        proof {
            lemma_occurrences_none();
        }
        let driver = ElevetorDriver {
            disk: disk,
            cache: CacheState::EMPTY,
            same_direction_list: HashMap::new(),
            opposite_direction_list: HashMap::new(),
        };
        assert(driver@.same_dir =~= Map::empty());
        assert(driver@.opp_dir =~= Map::empty());
        driver
    }

    fn add_to_same_direction_list(&mut self, task: &'a Task)
        ensures
            final(self)@ == (ElevatorView {
                same_dir: with_task(old(self)@.same_dir, task@),
                ..old(self)@
            }),
    {
        push_task(&mut self.same_direction_list, task);
    }

    fn add_to_opposite_direction_list(&mut self, task: &'a Task)
        ensures
            final(self)@ == (ElevatorView {
                opp_dir: with_task(old(self)@.opp_dir, task@),
                ..old(self)@
            }),
    {
        push_task(&mut self.opposite_direction_list, task);
    }

    /// Takes the newest task out of some entry of the current sweep.
    fn fetch_same_direction_task(&mut self) -> (fetched: Option<&'a Task>)
        requires
            queue_valid(old(self)@.same_dir),
        ensures
            match fetched {
                Some(task) => old(self)@.same_dir.contains_key(task@.track) && task@ == newest_at(
                    old(self)@.same_dir,
                    task@.track,
                ) && final(self)@ == (ElevatorView {
                    same_dir: without_newest(old(self)@.same_dir, task@.track),
                    ..old(self)@
                }),
                None => old(self)@.same_dir.is_empty() && final(self)@ == old(self)@,
            },
    {
        broadcast use vstd::std_specs::hash::group_hash_axioms;

        let mut keys = self.same_direction_list.keys();
        proof {
            let first_to_last = vstd::std_specs::hash::into_iter_keys(keys);
            let tracks = self.same_direction_list@.dom();
            assert(first_to_last == IteratorSpec::remaining(&keys).unref());
            assert(first_to_last.to_set() == tracks);
            assert(old(self)@.same_dir.dom() =~= tracks);
            if first_to_last.len() > 0 {
                assert(first_to_last.contains(first_to_last[0]));
            } else {
                tracks.lemma_len0_is_empty();
            }
        }
        let key = match next_item(&mut keys) {
            Some(key) => *key,
            None => {
                return None;
            },
        };
        proof {
            lemma_without_newest(old(self)@.same_dir, key);
        }
        let task = pop_task(&mut self.same_direction_list, key);
        Some(task)
    }

    /// Takes the newest task out of the entry of the current sweep for the
    /// track the head is on.
    fn fetch_a_task_for_current_track(&mut self) -> (task: &'a Task)
        requires
            queue_valid(old(self)@.same_dir),
            old(self)@.same_dir.contains_key(old(self)@.here()),
        ensures
            task@ == newest_at(old(self)@.same_dir, old(self)@.here()),
            final(self)@ == (ElevatorView {
                same_dir: without_newest(old(self)@.same_dir, old(self)@.here()),
                ..old(self)@
            }),
    {
        let track = self.disk.get_current_track();
        pop_task(&mut self.same_direction_list, track)
    }
}

impl<'a> Driver<'a> for ElevetorDriver<'a> {
    open spec fn wf(&self) -> bool {
        self@.valid()
    }

    open spec fn disk_view(&self) -> DiskView {
        self@.disk
    }

    open spec fn active_view(&self) -> Option<TaskView> {
        self@.active
    }

    open spec fn held(&self, task: TaskView) -> nat {
        self@.held(task)
    }

    open spec fn accepted(&self, task: TaskView, after: &Self) -> bool {
        after@ == self@.enqueue(task)
    }

    open spec fn stepped(&self, after: &Self, id: u32) -> bool {
        exists|pick: u32|
            #![trigger self@.step(pick)]
            self@.may_pick(pick) && after@ == self@.step(pick).0 && id == self@.step(pick).1
    }

    proof fn lemma_active_is_held(&self) {
    }

    fn get_disk(&self) -> (disk: &Disk) {
        &self.disk
    }

    fn add_new_task(&mut self, task: &'a Task)
        ensures
            final(self)@ == old(self)@.enqueue(task@),
    {
        proof {
            lemma_with_task(old(self)@.same_dir, task@);
            lemma_with_task(old(self)@.opp_dir, task@);
        }
        let state = *self.disk.get_state();
        match state {
            DiskState::STOP => {
                self.add_to_same_direction_list(task);
            },
            DiskState::READ(_) => {
                if self.disk.get_current_track() == task.track {
                    self.add_to_same_direction_list(task);
                } else {
                    self.add_to_opposite_direction_list(task);
                }
            },
            DiskState::MOVE(state) => {
                if self.disk.get_current_track() == task.track {
                    self.add_to_opposite_direction_list(task);
                } else {
                    if self.disk.calculate_moving_direction(task) == state.direction {
                        self.add_to_same_direction_list(task);
                    } else {
                        self.add_to_opposite_direction_list(task);
                    }
                }
            },
        }
    }

    fn step(&mut self) -> (id: u32)
        ensures
            exists|pick: u32|
                #![trigger old(self)@.step(pick)]
                old(self)@.may_pick(pick) && final(self)@ == old(self)@.step(pick).0 && id == old(
                    self,
                )@.step(pick).1,
    {
        broadcast use vstd::std_specs::hash::group_hash_axioms;

        let here = self.disk.get_current_track();
        match self.cache {
            CacheState::EMPTY => {
                if self.same_direction_list.contains_key(&here) {
                    proof {
                        lemma_without_newest(old(self)@.same_dir, here);
                    }
                    let task = self.fetch_a_task_for_current_track();
                    self.cache = CacheState::ACTIVE(task);
                    assert(final(self)@ == old(self)@.step(here).0);
                } else if !self.same_direction_list.is_empty() {
                    let task = self.fetch_same_direction_task().unwrap();
                    self.cache = CacheState::ACTIVE(task);
                    self.disk.add_move_task(task.track);
                    proof {
                        lemma_without_newest(old(self)@.same_dir, task@.track);
                    }
                    assert(final(self)@ == old(self)@.step(task@.track).0);
                } else if !self.opposite_direction_list.is_empty() {
                    std::mem::swap(
                        &mut self.same_direction_list,
                        &mut self.opposite_direction_list,
                    );
                    assert(final(self)@ == old(self)@.step(here).0);
                } else {
                    assert(final(self)@ == old(self)@.step(here).0);
                }
            },
            CacheState::ACTIVE(f) => {
                if self.disk.get_current_track() == f.track {
                    if self.disk.get_current_angle() == f.angle {
                        self.cache = CacheState::EMPTY;
                        assert(final(self)@ == old(self)@.step(here).0);
                        return f.task_id;
                    } else {
                        if self.disk.is_rotating() {
                            self.disk.step()
                        } else {
                            self.disk.add_reading_task(f.angle);
                        }
                        assert(final(self)@ == old(self)@.step(here).0);
                    }
                } else if self.same_direction_list.contains_key(&here) && self.disk.is_seeking() {
                    proof {
                        lemma_without_newest(old(self)@.same_dir, here);
                        lemma_with_task(without_newest(old(self)@.same_dir, here), f@);
                    }
                    let new_task = self.fetch_a_task_for_current_track();
                    self.disk.detach_current_state();
                    self.add_to_same_direction_list(f);
                    self.cache = CacheState::ACTIVE(new_task);
                    assert(final(self)@ == old(self)@.step(here).0);
                } else {
                    self.disk.step();
                    assert(final(self)@ == old(self)@.step(here).0);
                }
            },
        }

        0
    }
}

} // verus!
