use disk_simulator::disk::{Disk, DiskMetadata};
use disk_simulator::driver::{ElevetorDriver, SimpleDriver, Task};
use disk_simulator::simulation::{generate_random_request, generate_requests, Simulation};

fn disk(forward_speed: u32, spin_speed: u32) -> Disk {
    Disk::new(DiskMetadata::from_config(forward_speed, spin_speed))
}

#[test]
fn random_request_keeps_id_and_ranges() {
    for id in 1u32..=500 {
        let task = generate_random_request(id, 40);
        assert_eq!(*task.get_id(), id);
        assert!(1 <= *task.get_track() && *task.get_track() <= 40);
        assert!(*task.get_angle() <= 359);
    }
}

#[test]
fn random_request_on_a_single_track() {
    for _ in 0..50 {
        assert_eq!(*generate_random_request(9, 1).get_track(), 1);
    }
}

#[test]
fn random_requests_are_drawn_not_fixed() {
    let tasks = generate_requests(300, 1000);
    assert!(tasks.iter().any(|task| *task.get_track() != 1));
    assert!(tasks.iter().any(|task| *task.get_track() != 1000));
    assert!(tasks.iter().any(|task| *task.get_angle() != 0));
    assert!(tasks.iter().any(|task| *task.get_angle() != 359));
    let first_track = *tasks[0].get_track();
    assert!(tasks.iter().any(|task| *task.get_track() != first_track));
}

#[test]
fn generated_requests_are_numbered_from_one() {
    let tasks = generate_requests(25, 7);
    assert_eq!(tasks.len(), 25);
    for (i, task) in tasks.iter().enumerate() {
        assert_eq!(*task.get_id() as usize, i + 1);
        assert!(1 <= *task.get_track() && *task.get_track() <= 7);
        assert!(*task.get_angle() <= 359);
    }
    assert!(generate_requests(0, 7).is_empty());
}

#[test]
fn simulation_refuses_tasks_not_numbered_from_one() {
    let tasks = vec![Task::new(1, 5, 0), Task::new(3, 3, 0)];
    assert!(Simulation::new(SimpleDriver::new(disk(1, 1)), &tasks).is_none());
    let tasks = vec![Task::new(0, 5, 0)];
    assert!(Simulation::new(ElevetorDriver::new(disk(1, 1)), &tasks).is_none());
}

#[test]
fn simulation_without_requests_is_finished_at_once() {
    let tasks: Vec<Task> = Vec::new();
    let run = Simulation::new(SimpleDriver::new(disk(1, 1)), &tasks).unwrap();
    assert!(run.is_finished());
    assert!(run.is_ready());
    assert_eq!(run.completed(), 0);
    assert!(run.get_response_times().is_empty());
}

#[test]
fn simulation_records_response_times() {
    let tasks = vec![Task::new(1, 5, 0), Task::new(2, 3, 0)];
    let mut run = Simulation::new(SimpleDriver::new(disk(1, 1)), &tasks).unwrap();
    let mut reports: Vec<(u32, u32)> = Vec::new();
    for tick in 1u32..=10 {
        assert!(!run.is_finished());
        assert!(run.is_ready());
        // the first request arrives with the first tick, the second with the second
        let id = run.tick(tick <= 2);
        if id != 0 {
            reports.push((tick, id));
        }
    }
    assert_eq!(reports, vec![(6, 1), (10, 2)]);
    // arrived at 0 and reported at 6; arrived at 1 and reported at 10
    assert_eq!(*run.get_response_times(), vec![6, 9]);
    assert_eq!(run.completed(), 2);
    assert!(run.is_finished());
}

#[test]
fn simulation_lets_no_request_arrive_unless_told() {
    let tasks = vec![Task::new(1, 1, 0)];
    let mut run = Simulation::new(ElevetorDriver::new(disk(1, 1)), &tasks).unwrap();
    for _ in 0..20 {
        assert_eq!(run.tick(false), 0);
    }
    assert!(!run.is_finished());
    assert_eq!(run.completed(), 0);
    assert_eq!(run.tick(true), 0);
    assert_eq!(run.tick(true), 1);
    // arrived at 20, reported at 22
    assert_eq!(*run.get_response_times(), vec![2]);
    assert!(run.is_finished());
    assert_eq!(run.tick(true), 0);
    assert!(run.is_finished());
}

#[test]
fn simulation_with_elevator_completes_every_request() {
    let tasks = generate_requests(40, 60);
    let mut run = Simulation::new(ElevetorDriver::new(disk(1, 2)), &tasks).unwrap();
    let mut seen = vec![false; 41];
    let mut ticks = 0u32;
    while !run.is_finished() {
        assert!(run.is_ready());
        assert!(ticks < 1_000_000);
        let id = run.tick(ticks % 3 == 0);
        if id != 0 {
            assert!(!seen[id as usize]);
            seen[id as usize] = true;
        }
        ticks += 1;
    }
    assert!(seen[1..].iter().all(|done| *done));
    assert_eq!(run.get_response_times().len(), 40);
    assert!(run.get_response_times().iter().all(|time| *time >= 2));
    assert_eq!(run.completed(), 40);
}

#[test]
fn simulation_counts_one_response_for_each_report() {
    let tasks = generate_requests(12, 9);
    let mut run = Simulation::new(SimpleDriver::new(disk(1, 1)), &tasks).unwrap();
    let mut reports = 0usize;
    let mut ticks = 0u32;
    while !run.is_finished() {
        assert!(run.is_ready());
        assert!(ticks < 1_000_000);
        if run.tick(true) != 0 {
            reports += 1;
        }
        assert_eq!(run.get_response_times().len(), reports);
        assert_eq!(run.completed() as usize, reports);
        ticks += 1;
    }
    assert_eq!(reports, 12);
    // a request is never reported by the tick it arrives with
    assert!(run.get_response_times().iter().all(|time| *time >= 2));
}
