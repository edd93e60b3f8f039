use disk_simulator::disk::{Disk, DiskHead, DiskMetadata};
use disk_simulator::driver::Task;
use disk_simulator::hardware_manager::{DiskState, MoveDirection, MoveState};

fn disk(forward_speed: u32, spin_speed: u32) -> Disk {
    Disk::new(DiskMetadata::from_config(forward_speed, spin_speed))
}

#[test]
fn move_state_keeps_its_parts() {
    let state = MoveState::new(9, MoveDirection::BACKWARD);
    assert_eq!(state.destination, 9);
    assert!(state.direction == MoveDirection::BACKWARD);
}

#[test]
fn head_default_can_be_built() {
    let _head = DiskHead::default();
}

#[test]
fn metadata_from_config_is_verbatim() {
    let metadata = DiskMetadata::from_config(7, 250);
    assert_eq!(*metadata.get_forward_speed(), 7);
    assert_eq!(*metadata.get_spin_speed(), 250);
}

#[test]
fn metadata_default_is_one_and_hundred() {
    let metadata = DiskMetadata::default();
    assert_eq!(*metadata.get_forward_speed(), 1);
    assert_eq!(*metadata.get_spin_speed(), 100);
}

#[test]
fn new_disk_rests_on_track_one() {
    let d = disk(3, 4);
    assert_eq!(d.get_current_track(), 1);
    assert_eq!(d.get_current_angle(), 0);
    assert_eq!(d.get_sub_ticks(), 0);
    assert!(*d.get_state() == DiskState::STOP);
    assert!(!d.is_operating());
    assert!(!d.is_rotating());
    assert!(!d.is_seeking());
}

#[test]
fn seek_forward_sets_direction() {
    let mut d = disk(1, 1);
    d.add_move_task(5);
    assert!(*d.get_state() == DiskState::MOVE(MoveState::new(5, MoveDirection::FORWARD)));
    assert!(d.is_operating());
    assert!(d.is_seeking());
    assert!(!d.is_rotating());
}

#[test]
fn seek_backward_sets_direction() {
    let mut d = disk(1, 1);
    d.add_move_task(0);
    assert!(*d.get_state() == DiskState::MOVE(MoveState::new(0, MoveDirection::BACKWARD)));
    d.step();
    assert_eq!(d.get_current_track(), 0);
    assert!(*d.get_state() == DiskState::STOP);
}

#[test]
fn seek_to_current_track_is_ignored() {
    let mut d = disk(1, 1);
    d.add_move_task(1);
    assert!(*d.get_state() == DiskState::STOP);
    assert_eq!(d.get_current_track(), 1);
    assert_eq!(d.get_current_angle(), 0);
}

#[test]
fn seek_while_busy_is_ignored() {
    let mut d = disk(1, 1);
    d.add_move_task(5);
    d.add_move_task(9);
    assert!(*d.get_state() == DiskState::MOVE(MoveState::new(5, MoveDirection::FORWARD)));
    d.add_reading_task(10);
    d.add_move_task(9);
    assert!(*d.get_state() == DiskState::READ(10));
}

#[test]
fn read_request_replaces_a_seek() {
    let mut d = disk(1, 1);
    d.add_move_task(5);
    d.add_reading_task(45);
    assert!(*d.get_state() == DiskState::READ(45));
    assert!(d.is_rotating());
}

#[test]
fn idle_disk_does_not_move() {
    let mut d = disk(2, 3);
    for _ in 0..1000 {
        d.step();
        assert_eq!(d.get_current_track(), 1);
        assert_eq!(d.get_current_angle(), 0);
        assert_eq!(d.get_sub_ticks(), 0);
        assert!(*d.get_state() == DiskState::STOP);
    }
}

#[test]
fn seek_takes_one_tick_per_track_whatever_the_speed() {
    for forward_speed in [1u32, 2, 5, 17] {
        let mut d = disk(forward_speed, 1);
        d.add_move_task(41);
        for tick in 1u32..=40 {
            assert!(d.is_seeking());
            d.step();
            assert_eq!(d.get_current_track(), 1 + tick);
        }
        assert!(*d.get_state() == DiskState::STOP);
        assert_eq!(d.get_current_track(), 41);
        assert_eq!(d.get_current_angle(), 0);
    }
}

#[test]
fn seek_backward_takes_one_tick_per_track() {
    let mut d = disk(3, 1);
    d.add_move_task(30);
    for _ in 0..29 {
        d.step();
    }
    assert_eq!(d.get_current_track(), 30);
    d.add_move_task(12);
    for tick in 1u32..=18 {
        assert!(d.is_seeking());
        d.step();
        assert_eq!(d.get_current_track(), 30 - tick);
    }
    assert!(!d.is_operating());
}

#[test]
fn seek_counter_resets_at_forward_speed() {
    let mut d = disk(3, 100);
    d.add_move_task(20);
    let expected = [1u32, 2, 0, 1, 2, 0, 1];
    for want in expected {
        d.step();
        assert_eq!(d.get_sub_ticks(), want);
    }
}

#[test]
fn read_turns_one_degree_per_spin_speed_ticks() {
    let mut d = disk(1, 2);
    d.add_reading_task(90);
    for tick in 1u32..=179 {
        d.step();
        assert_eq!(d.get_current_angle(), tick / 2);
        assert_eq!(d.get_sub_ticks(), tick % 2);
        assert!(d.is_rotating());
    }
    d.step();
    assert_eq!(d.get_current_angle(), 90);
    assert_eq!(d.get_sub_ticks(), 0);
    assert!(*d.get_state() == DiskState::STOP);
}

#[test]
fn read_wraps_around_the_circle() {
    let mut d = disk(1, 1);
    d.add_reading_task(350);
    for _ in 0..350 {
        d.step();
    }
    assert_eq!(d.get_current_angle(), 350);
    assert!(!d.is_operating());
    d.add_reading_task(5);
    for tick in 1u32..=14 {
        d.step();
        assert_eq!(d.get_current_angle(), (350 + tick) % 360);
        assert!(d.is_rotating());
    }
    d.step();
    assert_eq!(d.get_current_angle(), 5);
    assert!(!d.is_operating());
}

#[test]
fn angle_stays_on_the_circle() {
    let mut d = disk(1, 1);
    d.add_reading_task(1000);
    for _ in 0..2000 {
        d.step();
        assert!(d.get_current_angle() < 360);
        assert!(d.is_rotating());
    }
}

#[test]
fn full_turn_takes_360_times_spin_speed() {
    let mut d = disk(1, 3);
    d.add_reading_task(400);
    for tick in 1u32..1080 {
        d.step();
        if tick < 3 {
            assert_eq!(d.get_current_angle(), 0);
        } else {
            assert_ne!(d.get_current_angle(), 0);
        }
    }
    d.step();
    assert_eq!(d.get_current_angle(), 0);
    assert_eq!(d.get_sub_ticks(), 0);
    assert_eq!(d.get_current_track(), 1);
}

#[test]
fn full_turn_back_to_the_wanted_angle_at_speed_one() {
    let mut d = disk(1, 1);
    d.add_reading_task(0);
    for _ in 0..359 {
        d.step();
        assert!(d.is_rotating());
    }
    d.step();
    assert_eq!(d.get_current_angle(), 0);
    assert!(!d.is_operating());
}

#[test]
fn read_of_current_angle_ends_with_first_tick() {
    let mut d = disk(1, 2);
    d.add_reading_task(0);
    d.step();
    assert!(*d.get_state() == DiskState::STOP);
    assert_eq!(d.get_current_angle(), 0);
    assert_eq!(d.get_sub_ticks(), 1);
}

#[test]
fn read_of_current_angle_goes_round_when_first_tick_turns() {
    let mut d = disk(1, 1);
    d.add_reading_task(0);
    d.step();
    assert!(d.is_rotating());
    assert_eq!(d.get_current_angle(), 1);
}

#[test]
fn detach_returns_the_operation_and_stops() {
    let mut d = disk(1, 1);
    d.add_move_task(8);
    d.step();
    let state = d.detach_current_state();
    assert!(state == DiskState::MOVE(MoveState::new(8, MoveDirection::FORWARD)));
    assert!(*d.get_state() == DiskState::STOP);
    assert_eq!(d.get_current_track(), 2);
    let again = d.detach_current_state();
    assert!(again == DiskState::STOP);
}

#[test]
fn direction_towards_counts_own_track_as_forward() {
    let mut d = disk(1, 1);
    d.add_move_task(10);
    for _ in 0..9 {
        d.step();
    }
    assert!(d.calculate_moving_direction(&Task::new(1, 11, 0)) == MoveDirection::FORWARD);
    assert!(d.calculate_moving_direction(&Task::new(1, 10, 0)) == MoveDirection::FORWARD);
    assert!(d.calculate_moving_direction(&Task::new(1, 9, 0)) == MoveDirection::BACKWARD);
}

#[test]
fn counter_left_by_a_seek_can_stall_a_read() {
    let mut d = disk(5, 2);
    d.add_move_task(4);
    for _ in 0..3 {
        d.step();
    }
    assert_eq!(d.get_sub_ticks(), 3);
    d.add_reading_task(90);
    for _ in 0..1000 {
        d.step();
    }
    assert_eq!(d.get_current_angle(), 0);
    assert!(d.is_rotating());
}
