//! The bookkeeping of a simulation run: which requests have arrived, when,
//! and how long each took to complete.

use std::collections::HashMap;
use rand::Rng;
use vstd::prelude::*;
use crate::driver::{due, Driver, Task, TaskView};

verus! {

/// The highest angle a request can ask for.
pub const LAST_ANGLE: u32 = 359;

/// A number drawn by `rand::Rng::gen_range` from `low..=high`, on the
/// generator that `rand::thread_rng` hands out. The draw lies in the range;
/// nothing else is known of it. An empty range makes `gen_range` panic and is
/// left out.
#[verifier::external_body]
fn random_in_range(low: u32, high: u32) -> (value: u32)
    requires
        low <= high,
    ensures
        low <= value <= high,
{
    rand::thread_rng().gen_range(low..=high)
}

/// A request with the given id for a random place: a track from 1 to
/// `max_track` and an angle of the circle.
pub fn generate_random_request(task_id: u32, max_track: u32) -> (task: Task)
    requires
        max_track >= 1,
    ensures
        task@.id == task_id,
        1 <= task@.track <= max_track,
        task@.angle <= LAST_ANGLE,
{
    let track = random_in_range(1, max_track);
    let angle = random_in_range(0, LAST_ANGLE);

    Task::new(task_id, track, angle)
}

/// Whether the ids of `tasks` count up from 1 in the order of the tasks.
pub open spec fn numbered_from_one(tasks: Seq<Task>) -> bool {
    forall|i: int| 0 <= i < tasks.len() ==> (#[trigger] tasks[i])@.id == i + 1
}

/// `requests` random requests, with the ids 1 to `requests` in this order.
pub fn generate_requests(requests: u32, max_track: u32) -> (tasks: Vec<Task>)
    requires
        requests > 0 ==> max_track >= 1,
    ensures
        tasks@.len() == requests,
        numbered_from_one(tasks@),
        forall|i: int|
            0 <= i < tasks@.len() ==> 1 <= (#[trigger] tasks@[i])@.track <= max_track && tasks@[i]@.angle
                <= LAST_ANGLE,
{
    let mut tasks: Vec<Task> = Vec::new();
    let mut made: u32 = 0;
    while made < requests
        invariant
            requests > 0 ==> max_track >= 1,
            made <= requests,
            tasks@.len() == made,
            numbered_from_one(tasks@),
            forall|i: int|
                0 <= i < tasks@.len() ==> 1 <= (#[trigger] tasks@[i])@.track <= max_track
                    && tasks@[i]@.angle <= LAST_ANGLE,
        decreases requests - made,
    {
        made = made + 1;
        let task = generate_random_request(made, max_track);
        tasks.push(task);
    }
    tasks
}

/// Mathematical model of a [`Simulation`]: the driver, the requests, and
/// the books kept on them.
///
/// `arrivals` maps the id of each request that has arrived and not yet
/// completed to the time it arrived at. `completed` holds the ids of the
/// completed requests and `responses` their response times, both in order of
/// completion.
pub struct SimulationView<D> {
    pub driver: D,
    pub requests: Seq<Task>,
    pub time: nat,
    pub added: nat,
    pub remaining: nat,
    pub arrivals: Map<u32, u32>,
    pub responses: Seq<u32>,
    pub completed: Seq<u32>,
}

impl<D> SimulationView<D> {
    /// The run after one tick in which the request `accepted` arrived (if
    /// any) and the request `reported` was reported (if any), and which left
    /// the driver as `driver`.
    ///
    /// A request arrives at the time before the tick and is reported at the
    /// time after it; its response time is the difference.
    pub open spec fn tick(
        self,
        accepted: Option<u32>,
        reported: Option<u32>,
        driver: D,
    ) -> SimulationView<D> {
        let arrivals = match accepted {
            Some(id) => self.arrivals.insert(id, self.time as u32),
            None => self.arrivals,
        };
        let arrived: nat = if accepted is Some {
            1
        } else {
            0
        };
        match reported {
            Some(id) => SimulationView {
                driver,
                requests: self.requests,
                time: self.time + 1,
                added: self.added + arrived,
                remaining: (self.remaining + arrived - 1) as nat,
                arrivals: arrivals.remove(id),
                responses: self.responses.push((self.time + 1 - arrivals[id]) as u32),
                completed: self.completed.push(id),
            },
            None => SimulationView {
                driver,
                requests: self.requests,
                time: self.time + 1,
                added: self.added + arrived,
                remaining: self.remaining + arrived,
                arrivals,
                responses: self.responses,
                completed: self.completed,
            },
        }
    }

    /// Whether every request has arrived and completed.
    pub open spec fn finished(self) -> bool {
        self.added == self.requests.len() && self.remaining == 0
    }
}

/// A simulation run: a driver, the requests that will arrive at it, and the
/// books kept on them.
pub struct Simulation<'a, D: Driver<'a>> {
    driver: D,
    tasks: &'a Vec<Task>,
    insertion_times: HashMap<u32, u32>,
    response_times: Vec<u32>,
    completed: Ghost<Seq<u32>>,
    added_tasks: u32,
    remaining_tasks: u32,
    time: u32,
}

impl<'a, D: Driver<'a>> View for Simulation<'a, D> {
    type V = SimulationView<D>;

    closed spec fn view(&self) -> SimulationView<D> {
        SimulationView {
            driver: self.driver,
            requests: self.tasks@,
            time: self.time as nat,
            added: self.added_tasks as nat,
            remaining: self.remaining_tasks as nat,
            arrivals: self.insertion_times@,
            responses: self.response_times@,
            completed: self.completed@,
        }
    }
}

impl<'a, D: Driver<'a>> Simulation<'a, D> {
    /// Well-formedness: the driver is well-formed and the books agree with
    /// it and with each other.
    ///
    /// Every request that has arrived is either on record with its arrival
    /// time, which lies before the clock, or among the completed ones, never
    /// both and never twice. There is one response time for each completed
    /// request, none of them below 2. What the driver holds are requests on
    /// record, each once.
    pub open spec fn wf(&self) -> bool {
        &&& self@.driver.wf()
        &&& self@.requests.len() <= u32::MAX
        &&& self@.time <= u32::MAX
        &&& numbered_from_one(self@.requests)
        &&& self@.remaining <= self@.added <= self@.requests.len()
        &&& self@.arrivals.dom().finite()
        &&& self@.remaining == self@.arrivals.dom().len()
        &&& self@.responses.len() + self@.remaining == self@.added
        &&& self@.completed.len() == self@.responses.len()
        &&& self@.completed.no_duplicates()
        &&& forall|i: int| 0 <= i < self@.responses.len() ==> #[trigger] self@.responses[i] >= 2
        &&& forall|id: u32| #[trigger]
            self@.arrivals.contains_key(id) ==> 1 <= id <= self@.added && self@.arrivals[id]
                < self@.time && !self@.completed.contains(id)
        &&& forall|i: int|
            0 <= i < self@.completed.len() ==> 1 <= #[trigger] self@.completed[i] <= self@.added
        &&& forall|id: u32|
            1 <= id <= self@.added ==> #[trigger] self@.arrivals.contains_key(id)
                || self@.completed.contains(id)
        &&& forall|u: TaskView|
            #![trigger self@.driver.held(u)]
            self@.driver.held(u) >= 1 ==> self@.driver.held(u) == 1 && 1 <= u.id <= self@.added
                && u == self@.requests[u.id - 1]@ && self@.arrivals.contains_key(u.id)
    }

    /// The request that arrives with the next tick, if the harness lets one
    /// arrive: the next in line, while there is one.
    pub open spec fn accepts(&self, arrive: bool) -> Option<Task> {
        if arrive && self@.added < self@.requests.len() {
            Some(self@.requests[self@.added as int])
        } else {
            None
        }
    }

    /// The id of the request that the next tick reports, if any: that of the
    /// task that is due at the driver.
    pub open spec fn completes(&self) -> Option<u32> {
        match due(self@.driver.disk_view(), self@.driver.active_view()) {
            Some(task) => Some(task.id),
            None => None,
        }
    }

    /// Whether `driver` is the driver of the run after the next tick, and
    /// `id` what that tick returns: the request that arrives, if one does, is
    /// handed to the driver, and the driver then steps exactly once.
    pub open spec fn drives(&self, arrive: bool, driver: D, id: u32) -> bool {
        exists|between: D|
            #![trigger between.stepped(&driver, id)]
            between.stepped(&driver, id) && match self.accepts(arrive) {
                Some(task) => self@.driver.accepted(task@, &between),
                None => between == self@.driver,
            }
    }

    /// Whether the 32-bit clock has room for one more tick.
    pub open spec fn can_tick(&self) -> bool {
        self@.time < u32::MAX
    }

    /// A run of `driver`, which holds nothing yet, on `tasks`: at time 0, with
    /// nothing arrived. `None` unless the ids of the tasks count up from 1 and
    /// their number fits the 32-bit counters of the books.
    pub fn new(driver: D, tasks: &'a Vec<Task>) -> (run: Option<Simulation<'a, D>>)
        requires
            driver.wf(),
            forall|u: TaskView| driver.held(u) == 0,
        ensures
            run is Some <==> tasks@.len() <= u32::MAX && numbered_from_one(tasks@),
            run matches Some(run) ==> run.wf() && run@ == (SimulationView {
                driver,
                requests: tasks@,
                time: 0,
                added: 0,
                remaining: 0,
                arrivals: Map::empty(),
                responses: Seq::empty(),
                completed: Seq::empty(),
            }),
    {
        if tasks.len() > u32::MAX as usize {
            return None;
        }
        let mut checked: usize = 0;
        while checked < tasks.len()
            invariant
                checked <= tasks@.len() <= u32::MAX,
                forall|i: int| 0 <= i < checked ==> (#[trigger] tasks@[i])@.id == i + 1,
            decreases tasks@.len() - checked,
        {
            if *tasks[checked].get_id() as usize != checked + 1 {
                assert(!numbered_from_one(tasks@));
                return None;
            }
            checked = checked + 1;
        }
        let run = Simulation {
            driver: driver,
            tasks: tasks,
            insertion_times: HashMap::new(),
            response_times: Vec::new(),
            completed: Ghost(Seq::empty()),
            added_tasks: 0,
            remaining_tasks: 0,
            time: 0,
        };
        assert(run@.arrivals =~= Map::empty());
        Some(run)
    }

    /// Whether the 32-bit clock has room for one more tick.
    pub fn is_ready(&self) -> (ready: bool)
        ensures
            ready == self.can_tick(),
    {
        self.time < u32::MAX
    }

    /// Whether every request has arrived and completed. A well-formed run
    /// that is finished has one response time for each request, and every id
    /// from 1 to the number of requests is among the completed ones, once.
    pub fn is_finished(&self) -> (finished: bool)
        ensures
            finished == self@.finished(),
            finished && self.wf() ==> self@.responses.len() == self@.requests.len()
                && self@.completed.no_duplicates() && forall|id: u32|
                1 <= id <= self@.requests.len() ==> #[trigger] self@.completed.contains(id),
    {
        let finished = self.added_tasks as usize == self.tasks.len() && self.remaining_tasks == 0;
        proof {
            if finished && self.wf() {
                self@.arrivals.dom().lemma_len0_is_empty();
                assert forall|id: u32| 1 <= id <= self@.requests.len() implies #[trigger] self@.completed.contains(
                    id,
                ) by {
                    assert(!self@.arrivals.contains_key(id));
                }
            }
        }
        finished
    }

    /// The number of requests that have completed.
    pub fn completed(&self) -> (count: u32)
        requires
            self.wf(),
        ensures
            count == self@.added - self@.remaining,
            count == self@.responses.len(),
    {
        self.added_tasks - self.remaining_tasks
    }

    /// The response times of the completed requests, in order of completion.
    pub fn get_response_times(&self) -> (times: &Vec<u32>)
        ensures
            times@ == self@.responses,
    {
        &self.response_times
    }

    /// One tick of the run. If the harness lets a request arrive and one is
    /// left, the next request is handed to the driver and its arrival time
    /// recorded. Then the clock advances and the driver steps, once; the id it
    /// returns is handed on, and when a request completed, its response time
    /// is recorded and its arrival time struck off.
    pub fn tick(&mut self, arrive: bool) -> (id: u32)
        requires
            old(self).wf(),
            old(self).can_tick(),
        ensures
            final(self).wf(),
            final(self)@ == old(self)@.tick(
                match old(self).accepts(arrive) {
                    Some(task) => Some(task@.id),
                    None => None,
                },
                old(self).completes(),
                final(self)@.driver,
            ),
            old(self).drives(arrive, final(self)@.driver, id),
            id == (match old(self).completes() {
                Some(id) => id,
                None => 0,
            }),
            final(self)@.responses.len() + final(self)@.remaining == final(self)@.added,
            old(self).completes() is Some ==> final(self)@.responses.last() >= 2,
    {
        broadcast use vstd::std_specs::hash::group_hash_axioms;

        proof {
            self.driver.lemma_active_is_held();
        }
        let tasks: &'a Vec<Task> = self.tasks;
        if arrive && (self.added_tasks as usize) < tasks.len() {
            let task: &'a Task = &tasks[self.added_tasks as usize];

            self.driver.add_new_task(task);
            self.insertion_times.insert(*task.get_id(), self.time);

            self.added_tasks = self.added_tasks + 1;
            self.remaining_tasks = self.remaining_tasks + 1;
        }

        let between: Ghost<D> = Ghost(self.driver);
        assert forall|u: TaskView|
            #![trigger self.driver.held(u)]
            self.driver.held(u) >= 1 implies self.driver.held(u) == 1 && 1 <= u.id
            <= self.added_tasks && u == tasks@[u.id - 1]@ && self.insertion_times@.contains_key(
            u.id,
        ) by {
            assert(old(self).driver.held(u) >= 1 || u == tasks@[old(self).added_tasks as int]@);
        }

        self.time = self.time + 1;
        let result = self.driver.step();
        proof {
            match due(between@.disk_view(), between@.active_view()) {
                Some(task) => {
                    assert(between@.held(task) == self.driver.held(task) + 1);
                    assert(old(self).driver.held(task) >= 1);
                },
                None => {},
            }
            assert(between@.stepped(&self.driver, result));
        }

        if result != 0 {
            let arrived_at = *self.insertion_times.get(&result).unwrap();
            self.remaining_tasks = self.remaining_tasks - 1;
            let response_length = self.time - arrived_at;
            self.insertion_times.remove(&result);

            self.response_times.push(response_length);
            self.completed = Ghost(self.completed@.push(result));
            proof {
                let done = old(self).completed@;
                assert forall|id: u32| done.push(result).contains(id) <==> done.contains(id) || id
                    == result by {
                    if done.contains(id) {
                        let i = choose|i: int| 0 <= i < done.len() && done[i] == id;
                        assert(done.push(result)[i] == id);
                    }
                    if id == result {
                        assert(done.push(result)[done.len() as int] == id);
                    }
                }
            }
        }

        result
    }
}

} // verus!
