use disk_simulator::disk::{Disk, DiskHead, DiskMetadata};
use disk_simulator::driver::Task;
use disk_simulator::hardware_manager::{DiskState, MoveDirection, MoveState};
use disk_simulator::report::{
    experiment, log_data_text, log_file_name, main_menu_option, main_menu_transition, Algorithms,
    Experiment, LogHeader, MainMenuOptions, MenuAction, DEFAULT_MAX_TRACKS, EXPERIMENTS,
};
use disk_simulator::text::{decimal_text, push_decimal};

#[test]
fn decimal_of_small_and_large_numbers() {
    assert_eq!(decimal_text(0), "0");
    assert_eq!(decimal_text(7), "7");
    assert_eq!(decimal_text(10), "10");
    assert_eq!(decimal_text(109), "109");
    assert_eq!(decimal_text(4294967295), "4294967295");
    assert_eq!(decimal_text(u128::MAX), "340282366920938463463374607431768211455");
}

#[test]
fn decimal_is_appended() {
    let mut text = String::from("n = ");
    push_decimal(&mut text, 360);
    assert_eq!(text, "n = 360");
}

#[test]
fn decimal_agrees_with_std_formatting() {
    for n in 0u128..2000 {
        assert_eq!(decimal_text(n), format!("{}", n));
    }
}

#[test]
fn state_texts() {
    assert_eq!(DiskState::STOP.to_text(), "STOP");
    assert_eq!(DiskState::READ(45).to_text(), "READ(45)");
    assert_eq!(
        DiskState::MOVE(MoveState::new(5, MoveDirection::FORWARD)).to_text(),
        "MOVE(5, FORWARD)"
    );
    assert_eq!(
        DiskState::MOVE(MoveState::new(0, MoveDirection::BACKWARD)).to_text(),
        "MOVE(0, BACWARD)"
    );
}

#[test]
fn head_text_of_a_fresh_head() {
    assert_eq!(
        DiskHead::default().to_text(),
        "DiskHead<current track: 1, current angle: 0, state: STOP>"
    );
}

#[test]
fn disk_text_follows_the_disk() {
    let mut disk = Disk::new(DiskMetadata::default());
    assert_eq!(disk.get_str_state(), "STOP");
    assert_eq!(
        disk.to_text(),
        "Disk <\n\tHead <current track: 1, current angle: 0, state: STOP>\n\tMetadata <forward speed: 1, spin speed: 100>\n>"
    );
    disk.add_move_task(12);
    disk.step();
    assert_eq!(disk.get_str_state(), "MOVE(12, FORWARD)");
    assert_eq!(
        disk.to_text(),
        "Disk <\n\tHead <current track: 2, current angle: 0, state: MOVE(12, FORWARD)>\n\tMetadata <forward speed: 1, spin speed: 100>\n>"
    );
}

#[test]
fn task_text() {
    assert_eq!(Task::new(1, 200, 359).to_text(), "Task<task_id: 1, track: 200, angle: 359>");
}

#[test]
fn log_entry_has_header_and_times() {
    let header =
        LogHeader { metadata: DiskMetadata::from_config(5, 250), max_tracks: 10000, steps: 3 };
    assert_eq!(
        log_data_text(Algorithms::NAIVE, &header, &vec![12, 7, 300]),
        "algorithm: Naive, forward_speed: 5, spin_speed: 250, max_track: 10000, steps: 3\n12,7,300,\n"
    );
    assert_eq!(
        log_data_text(Algorithms::ELEVATOR, &header, &vec![0]),
        "algorithm: Elevator, forward_speed: 5, spin_speed: 250, max_track: 10000, steps: 3\n0,\n"
    );
}

#[test]
fn log_entry_without_times() {
    let header = LogHeader { metadata: DiskMetadata::default(), max_tracks: 1, steps: 0 };
    assert_eq!(
        log_data_text(Algorithms::ELEVATOR, &header, &Vec::new()),
        "algorithm: Elevator, forward_speed: 1, spin_speed: 100, max_track: 1, steps: 0\n\n"
    );
}

#[test]
fn log_file_is_named_by_the_time() {
    assert_eq!(log_file_name(1700000000123), "1700000000123.txt");
    assert_eq!(log_file_name(0), "0.txt");
}

#[test]
fn menu_numbers_stand_for_choices() {
    assert!(main_menu_option(Some(1)) == MainMenuOptions::NAIVE);
    assert!(main_menu_option(Some(2)) == MainMenuOptions::ELEVATOR);
    assert!(main_menu_option(Some(3)) == MainMenuOptions::LOG);
    assert!(main_menu_option(Some(4)) == MainMenuOptions::INFO);
    assert!(main_menu_option(Some(5)) == MainMenuOptions::EXIT);
    assert!(main_menu_option(Some(0)) == MainMenuOptions::INVALID);
    assert!(main_menu_option(Some(6)) == MainMenuOptions::INVALID);
    assert!(main_menu_option(None) == MainMenuOptions::INVALID);
}

#[test]
fn menu_choices_lead_to_actions() {
    assert!(
        main_menu_transition(MainMenuOptions::NAIVE, false)
            == (MenuAction::Simulate(Algorithms::NAIVE), true)
    );
    assert!(
        main_menu_transition(MainMenuOptions::ELEVATOR, false)
            == (MenuAction::Simulate(Algorithms::ELEVATOR), true)
    );
    assert!(main_menu_transition(MainMenuOptions::LOG, false) == (MenuAction::LogAllConfigs, false));
    assert!(main_menu_transition(MainMenuOptions::LOG, true) == (MenuAction::LogAllConfigs, true));
    assert!(main_menu_transition(MainMenuOptions::INFO, false) == (MenuAction::ShowInfo, true));
    assert!(
        main_menu_transition(MainMenuOptions::INVALID, true) == (MenuAction::ReportError, false)
    );
    assert!(main_menu_transition(MainMenuOptions::EXIT, true) == (MenuAction::Quit, true));
}

#[test]
fn stock_disk_has_ten_thousand_tracks() {
    assert_eq!(DEFAULT_MAX_TRACKS, 10000);
}

#[test]
fn experiments_go_through_all_settings_in_order() {
    let mut index = 0u32;
    for algorithm in [Algorithms::NAIVE, Algorithms::ELEVATOR] {
        for forward_speed in [1u32, 5, 10, 15, 20, 25] {
            for spin_speed in [25u32, 50, 100, 250, 500] {
                for max_tracks in [1000u32, 5000, 10000, 50000] {
                    for steps in [100u32, 500, 1000, 5000] {
                        for _ in 0..10 {
                            let want = Experiment {
                                algorithm: algorithm,
                                forward_speed: forward_speed,
                                spin_speed: spin_speed,
                                max_tracks: max_tracks,
                                steps: steps,
                            };
                            assert!(experiment(index) == want);
                            index += 1;
                        }
                    }
                }
            }
        }
    }
    assert_eq!(index, EXPERIMENTS);
}

#[test]
fn first_and_last_experiment() {
    let first = experiment(0);
    assert!(first.algorithm == Algorithms::NAIVE);
    assert_eq!(
        (first.forward_speed, first.spin_speed, first.max_tracks, first.steps),
        (1, 25, 1000, 100)
    );
    let last = experiment(9599);
    assert!(last.algorithm == Algorithms::ELEVATOR);
    assert_eq!(
        (last.forward_speed, last.spin_speed, last.max_tracks, last.steps),
        (25, 500, 50000, 5000)
    );
}
