use disk_simulator::disk::{Disk, DiskMetadata};
use disk_simulator::driver::{Driver, ElevetorDriver, SimpleDriver, Task};
use disk_simulator::hardware_manager::{DiskState, MoveDirection, MoveState};

fn disk(forward_speed: u32, spin_speed: u32) -> Disk {
    Disk::new(DiskMetadata::from_config(forward_speed, spin_speed))
}

/// Steps until the driver reports a task; returns the id and the number of
/// steps taken, the reporting one included.
fn run_until_report<'a, D: Driver<'a>>(driver: &mut D, limit: u32) -> (u32, u32) {
    for step in 1..=limit {
        let id = driver.step();
        if id != 0 {
            return (id, step);
        }
    }
    (0, limit)
}

#[test]
fn task_getters_return_the_parts() {
    let task = Task::new(4, 17, 270);
    assert_eq!(*task.get_id(), 4);
    assert_eq!(*task.get_track(), 17);
    assert_eq!(*task.get_angle(), 270);
}

#[test]
fn tasks_are_equal_by_id() {
    assert!(Task::new(4, 17, 270) == Task::new(4, 3, 5));
    assert!(Task::new(4, 17, 270) != Task::new(5, 17, 270));
}

#[test]
fn simple_driver_with_nothing_to_do_returns_zero() {
    let mut driver = SimpleDriver::new(disk(1, 1));
    for _ in 0..100 {
        assert_eq!(driver.step(), 0);
    }
    assert_eq!(driver.get_disk().get_current_track(), 1);
    assert_eq!(driver.get_disk().get_current_angle(), 0);
}

#[test]
fn simple_driver_completes_in_fifo_order() {
    let first = Task::new(1, 5, 0);
    let second = Task::new(2, 3, 0);
    let mut driver = SimpleDriver::new(disk(1, 1));
    driver.add_new_task(&first);
    driver.add_new_task(&second);

    let mut reports: Vec<(u32, u32)> = Vec::new();
    for step in 1u32..=20 {
        let id = driver.step();
        if id != 0 {
            reports.push((id, step));
        }
    }
    // dispatch, four track moves, report; dispatch, two track moves, report
    assert_eq!(reports, vec![(1, 6), (2, 10)]);
    assert!(reports[0].1 >= 4);
}

#[test]
fn simple_driver_dispatch_spends_no_tick_on_the_disk() {
    let task = Task::new(1, 5, 0);
    let mut driver = SimpleDriver::new(disk(1, 1));
    driver.add_new_task(&task);
    assert_eq!(driver.step(), 0);
    assert_eq!(driver.get_disk().get_current_track(), 1);
    assert!(
        *driver.get_disk().get_state()
            == DiskState::MOVE(MoveState::new(5, MoveDirection::FORWARD))
    );
    assert_eq!(driver.step(), 0);
    assert_eq!(driver.get_disk().get_current_track(), 2);
}

#[test]
fn simple_driver_read_waits_for_the_angle() {
    let task = Task::new(1, 1, 90);
    let mut driver = SimpleDriver::new(disk(1, 2));
    driver.add_new_task(&task);
    // dispatch and read request, then 2 * 90 ticks of spinning
    assert_eq!(driver.step(), 0);
    assert_eq!(driver.step(), 0);
    assert!(*driver.get_disk().get_state() == DiskState::READ(90));
    for _ in 0..179 {
        assert_eq!(driver.step(), 0);
        assert!(driver.get_disk().is_rotating());
    }
    assert_eq!(driver.step(), 0);
    assert!(!driver.get_disk().is_operating());
    assert_eq!(driver.get_disk().get_current_angle(), 90);
    assert_eq!(driver.step(), 1);
    assert_eq!(driver.step(), 0);
}

#[test]
fn simple_driver_task_in_place_completes_right_after_dispatch() {
    let task = Task::new(1, 1, 0);
    let mut driver = SimpleDriver::new(disk(1, 1));
    driver.add_new_task(&task);
    assert_eq!(driver.step(), 0);
    assert!(*driver.get_disk().get_state() == DiskState::STOP);
    assert_eq!(driver.step(), 1);
    assert_eq!(driver.step(), 0);
}

#[test]
fn simple_driver_reports_each_id_once() {
    let tasks = vec![
        Task::new(1, 9, 10),
        Task::new(2, 2, 350),
        Task::new(3, 9, 10),
        Task::new(4, 1, 0),
        Task::new(5, 30, 180),
    ];
    let mut driver = SimpleDriver::new(disk(2, 3));
    for task in &tasks {
        driver.add_new_task(task);
    }
    let mut reports: Vec<u32> = Vec::new();
    for _ in 0..20000 {
        let id = driver.step();
        if id != 0 {
            reports.push(id);
        }
    }
    assert_eq!(reports, vec![1, 2, 3, 4, 5]);
}

#[test]
fn simple_driver_lone_task_is_first_even_with_later_arrivals() {
    let early = Task::new(7, 4, 0);
    let late = Task::new(8, 2, 0);
    let mut driver = SimpleDriver::new(disk(1, 1));
    driver.add_new_task(&early);
    assert_eq!(driver.step(), 0);
    assert_eq!(driver.step(), 0);
    driver.add_new_task(&late);
    assert_eq!(run_until_report(&mut driver, 100).0, 7);
    assert_eq!(run_until_report(&mut driver, 100).0, 8);
}

#[test]
fn elevator_with_nothing_to_do_returns_zero() {
    let mut driver = ElevetorDriver::new(disk(1, 1));
    for _ in 0..100 {
        assert_eq!(driver.step(), 0);
    }
    assert_eq!(driver.get_disk().get_current_track(), 1);
    assert!(!driver.get_disk().is_operating());
}

#[test]
fn elevator_lone_task_completes() {
    let task = Task::new(3, 6, 2);
    let mut driver = ElevetorDriver::new(disk(1, 1));
    driver.add_new_task(&task);
    // pick, five track moves, read request, two degrees, report
    assert_eq!(run_until_report(&mut driver, 100), (3, 10));
    assert_eq!(driver.step(), 0);
}

#[test]
fn elevator_services_a_task_it_passes_first() {
    let far = Task::new(1, 10, 0);
    let near = Task::new(2, 7, 0);
    let mut driver = ElevetorDriver::new(disk(1, 1));
    driver.add_new_task(&far);
    for _ in 0..5 {
        assert_eq!(driver.step(), 0);
    }
    assert_eq!(driver.get_disk().get_current_track(), 5);
    assert!(
        *driver.get_disk().get_state()
            == DiskState::MOVE(MoveState::new(10, MoveDirection::FORWARD))
    );
    driver.add_new_task(&near);

    assert_eq!(driver.step(), 0);
    assert_eq!(driver.step(), 0);
    assert_eq!(driver.get_disk().get_current_track(), 7);
    assert!(driver.get_disk().is_seeking());
    // the hand-over stops the head where it is
    assert_eq!(driver.step(), 0);
    assert!(!driver.get_disk().is_operating());
    assert_eq!(driver.get_disk().get_current_track(), 7);
    assert_eq!(driver.step(), 2);
    // the first task goes on from here, with no reversal in between
    assert_eq!(driver.step(), 0);
    assert!(
        *driver.get_disk().get_state()
            == DiskState::MOVE(MoveState::new(10, MoveDirection::FORWARD))
    );
    assert_eq!(run_until_report(&mut driver, 100), (1, 4));
}

#[test]
fn elevator_defers_a_task_behind_the_head() {
    let far = Task::new(1, 10, 0);
    let behind = Task::new(3, 2, 0);
    let mut driver = ElevetorDriver::new(disk(1, 1));
    driver.add_new_task(&far);
    for _ in 0..5 {
        assert_eq!(driver.step(), 0);
    }
    assert_eq!(driver.get_disk().get_current_track(), 5);
    driver.add_new_task(&behind);

    // five more track moves, then the report
    assert_eq!(run_until_report(&mut driver, 100), (1, 6));
    assert_eq!(driver.get_disk().get_current_track(), 10);
    // the reversal takes a step of its own, the pick another
    assert_eq!(driver.step(), 0);
    assert!(!driver.get_disk().is_operating());
    assert_eq!(driver.step(), 0);
    assert!(
        *driver.get_disk().get_state()
            == DiskState::MOVE(MoveState::new(2, MoveDirection::BACKWARD))
    );
    assert_eq!(run_until_report(&mut driver, 100), (3, 9));
    assert_eq!(driver.get_disk().get_current_track(), 2);
}

#[test]
fn elevator_defers_a_task_for_the_track_just_left() {
    let far = Task::new(1, 10, 0);
    let here = Task::new(2, 5, 0);
    let mut driver = ElevetorDriver::new(disk(1, 1));
    driver.add_new_task(&far);
    for _ in 0..5 {
        driver.step();
    }
    assert_eq!(driver.get_disk().get_current_track(), 5);
    driver.add_new_task(&here);
    // not handed over at track 5: the head travels on
    assert_eq!(driver.step(), 0);
    assert_eq!(driver.get_disk().get_current_track(), 6);
    assert_eq!(run_until_report(&mut driver, 100).0, 1);
    assert_eq!(run_until_report(&mut driver, 100).0, 2);
}

#[test]
fn elevator_piggybacks_on_a_read_at_the_same_track() {
    let reading = Task::new(1, 7, 90);
    let same_track = Task::new(5, 7, 90);
    let other_track = Task::new(6, 8, 90);
    let mut driver = ElevetorDriver::new(disk(1, 1));
    driver.add_new_task(&reading);
    for _ in 0..8 {
        assert_eq!(driver.step(), 0);
    }
    assert_eq!(driver.get_disk().get_current_track(), 7);
    assert!(*driver.get_disk().get_state() == DiskState::READ(90));
    driver.add_new_task(&other_track);
    driver.add_new_task(&same_track);

    assert_eq!(run_until_report(&mut driver, 200), (1, 91));
    // dequeued with the next step, with no seek, and reported with the one after
    assert_eq!(driver.step(), 0);
    assert!(!driver.get_disk().is_operating());
    assert_eq!(driver.step(), 5);
    // the task for the other track had to wait for the reversal
    assert_eq!(driver.step(), 0);
    assert!(!driver.get_disk().is_operating());
    assert_eq!(run_until_report(&mut driver, 200).0, 6);
}

#[test]
fn elevator_pops_the_newest_task_at_a_track_first() {
    let older = Task::new(1, 1, 0);
    let newer = Task::new(2, 1, 0);
    let mut driver = ElevetorDriver::new(disk(1, 1));
    driver.add_new_task(&older);
    driver.add_new_task(&newer);
    assert_eq!(run_until_report(&mut driver, 10), (2, 2));
    assert_eq!(run_until_report(&mut driver, 10), (1, 2));
}

#[test]
fn elevator_reports_each_id_once() {
    let tasks = vec![
        Task::new(1, 1, 0),
        Task::new(2, 100, 50),
        Task::new(3, 200, 180),
        Task::new(4, 100, 50),
        Task::new(5, 150, 50),
        Task::new(6, 1, 20),
        Task::new(7, 1, 0),
        Task::new(8, 1, 0),
    ];
    let mut driver = ElevetorDriver::new(disk(1, 2));
    for task in &tasks {
        driver.add_new_task(task);
    }
    let mut reports: Vec<u32> = Vec::new();
    for _ in 0..100000 {
        let id = driver.step();
        if id != 0 {
            reports.push(id);
        }
    }
    assert_eq!(reports.len(), 8);
    reports.sort();
    assert_eq!(reports, vec![1, 2, 3, 4, 5, 6, 7, 8]);
}

#[test]
fn elevator_angle_stays_on_the_circle() {
    let tasks = vec![Task::new(1, 3, 359), Task::new(2, 3, 1), Task::new(3, 2, 358)];
    let mut driver = ElevetorDriver::new(disk(1, 1));
    for task in &tasks {
        driver.add_new_task(task);
    }
    let mut reported = 0;
    for _ in 0..5000 {
        if driver.step() != 0 {
            reported += 1;
        }
        assert!(driver.get_disk().get_current_angle() < 360);
    }
    assert_eq!(reported, 3);
}

#[test]
fn simple_driver_stalls_when_a_seek_leaves_the_counter_above_the_spin_speed() {
    // three tracks at five ticks a track leave the counter at 3, above the
    // spin speed of 2, so the count never reaches it and the disk never turns
    let task = Task::new(1, 4, 90);
    let mut driver = SimpleDriver::new(disk(5, 2));
    driver.add_new_task(&task);
    for _ in 0..10000 {
        assert_eq!(driver.step(), 0);
    }
    assert_eq!(driver.get_disk().get_current_track(), 4);
    assert_eq!(driver.get_disk().get_current_angle(), 0);
    assert!(driver.get_disk().is_rotating());
}

#[test]
fn drivers_report_two_tasks_for_one_place_in_two_steps() {
    let first = Task::new(1, 1, 0);
    let second = Task::new(2, 1, 0);
    let mut simple = SimpleDriver::new(disk(1, 1));
    simple.add_new_task(&first);
    simple.add_new_task(&second);
    let ids: Vec<u32> = (0..4).map(|_| simple.step()).collect();
    assert_eq!(ids, vec![0, 1, 0, 2]);
    let mut elevator = ElevetorDriver::new(disk(1, 1));
    elevator.add_new_task(&first);
    elevator.add_new_task(&second);
    let ids: Vec<u32> = (0..4).map(|_| elevator.step()).collect();
    assert_eq!(ids, vec![0, 2, 0, 1]);
}

#[test]
fn simple_driver_reports_a_lone_task_at_the_exact_call() {
    // one call to make it active, four tracks, one call to start the read,
    // ninety degrees at two ticks each, and the call that reports
    let task = Task::new(1, 5, 90);
    let mut driver = SimpleDriver::new(disk(1, 2));
    driver.add_new_task(&task);
    for _ in 1..(4 + 3 + 90 * 2) {
        assert_eq!(driver.step(), 0);
    }
    assert_eq!(driver.step(), 1);
    assert_eq!(driver.step(), 0);
}

#[test]
fn simple_driver_reports_a_lone_task_backwards_and_across_zero_degrees() {
    let first = Task::new(1, 9, 350);
    let second = Task::new(2, 3, 10);
    let mut driver = SimpleDriver::new(disk(1, 3));
    driver.add_new_task(&first);
    assert_eq!(run_until_report(&mut driver, 100000), (1, 8 + 3 + 350 * 3));
    driver.add_new_task(&second);
    // six tracks back, twenty degrees on, across 359
    assert_eq!(run_until_report(&mut driver, 100000), (2, 6 + 3 + 20 * 3));
}
