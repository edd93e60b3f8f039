//! What the harness shows and writes down: the log of a run, the name of a
//! log file, and the choices of the main menu.

use vstd::prelude::*;
use vstd::string::StringExecFns;
use crate::disk::DiskMetadata;
use crate::text::{decimal, push_decimal};

verus! {

/// The number of tracks of the stock disk.
pub const DEFAULT_MAX_TRACKS: u32 = 10000;

/// The two scheduling policies.
#[derive(PartialEq, Eq, Structural, Copy, Clone, Debug)]
pub enum Algorithms {
    NAIVE,
    ELEVATOR,
}

/// What a log records of the setting of a run.
#[derive(Copy, Clone)]
pub struct LogHeader {
    pub metadata: DiskMetadata,
    pub max_tracks: u32,
    pub steps: u32,
}

/// The choices of the main menu, and `INVALID` for anything else.
#[derive(PartialEq, Eq, Structural, Copy, Clone, Debug)]
pub enum MainMenuOptions {
    NAIVE,
    ELEVATOR,
    LOG,
    INFO,
    EXIT,
    INVALID,
}

/// What the harness does after a choice was made.
#[derive(PartialEq, Eq, Structural, Copy, Clone, Debug)]
pub enum MenuAction {
    Simulate(Algorithms),
    LogAllConfigs,
    ShowInfo,
    ReportError,
    Quit,
}

/// The number of runs in the log of all configurations: two policies, six
/// forward speeds, five spin speeds, four disk sizes and four request counts,
/// each combination ten times.
pub const EXPERIMENTS: u32 = 9600;

/// The setting of one run of the log of all configurations.
#[derive(PartialEq, Eq, Structural, Copy, Clone, Debug)]
pub struct Experiment {
    pub algorithm: Algorithms,
    pub forward_speed: u32,
    pub spin_speed: u32,
    pub max_tracks: u32,
    pub steps: u32,
}

/// The forward speeds that are tried, in order.
pub open spec fn forward_speed_choices() -> Seq<u32> {
    seq![1u32, 5u32, 10u32, 15u32, 20u32, 25u32]
}

/// The spin speeds that are tried, in order.
pub open spec fn spin_speed_choices() -> Seq<u32> {
    seq![25u32, 50u32, 100u32, 250u32, 500u32]
}

/// The disk sizes that are tried, in order.
pub open spec fn max_tracks_choices() -> Seq<u32> {
    seq![1000u32, 5000u32, 10000u32, 50000u32]
}

/// The request counts that are tried, in order.
pub open spec fn steps_choices() -> Seq<u32> {
    seq![100u32, 500u32, 1000u32, 5000u32]
}

/// The setting of run number `index` of the log of all configurations. The
/// runs go through the policies, within a policy through the forward speeds,
/// within those through the spin speeds, the disk sizes and the request
/// counts, and every setting is run ten times in a row.
pub open spec fn experiment_at(index: nat) -> Experiment {
    Experiment {
        algorithm: if index / 4800 == 0 {
            Algorithms::NAIVE
        } else {
            Algorithms::ELEVATOR
        },
        forward_speed: forward_speed_choices()[(index / 800) as int % 6],
        spin_speed: spin_speed_choices()[(index / 160) as int % 5],
        max_tracks: max_tracks_choices()[(index / 40) as int % 4],
        steps: steps_choices()[(index / 10) as int % 4],
    }
}

/// The name of a policy in a log.
pub open spec fn algorithm_text(algorithm: Algorithms) -> Seq<char> {
    match algorithm {
        Algorithms::NAIVE => "Naive"@,
        Algorithms::ELEVATOR => "Elevator"@,
    }
}

/// The first line of a log entry, with its line end.
pub open spec fn header_text(
    algorithm: Algorithms,
    forward_speed: nat,
    spin_speed: nat,
    max_tracks: nat,
    steps: nat,
) -> Seq<char> {
    "algorithm: "@ + algorithm_text(algorithm) + ", forward_speed: "@ + decimal(forward_speed)
        + ", spin_speed: "@ + decimal(spin_speed) + ", max_track: "@ + decimal(max_tracks)
        + ", steps: "@ + decimal(steps) + "\n"@
}

/// Response times in a row, each followed by a comma.
pub open spec fn times_text(times: Seq<u32>) -> Seq<char>
    decreases times.len(),
{
    if times.len() == 0 {
        Seq::empty()
    } else {
        times_text(times.drop_last()) + decimal(times.last() as nat) + ","@
    }
}

/// A whole log entry: the header line and the line of response times.
pub open spec fn log_text(
    algorithm: Algorithms,
    forward_speed: nat,
    spin_speed: nat,
    max_tracks: nat,
    steps: nat,
    times: Seq<u32>,
) -> Seq<char> {
    header_text(algorithm, forward_speed, spin_speed, max_tracks, steps) + times_text(times)
        + "\n"@
}

/// The choice that a number typed at the main menu stands for; anything but
/// 1 to 5 is invalid, and so is input that is no number.
pub open spec fn option_of(input: Option<u32>) -> MainMenuOptions {
    match input {
        Some(n) => if n == 1 {
            MainMenuOptions::NAIVE
        } else if n == 2 {
            MainMenuOptions::ELEVATOR
        } else if n == 3 {
            MainMenuOptions::LOG
        } else if n == 4 {
            MainMenuOptions::INFO
        } else if n == 5 {
            MainMenuOptions::EXIT
        } else {
            MainMenuOptions::INVALID
        },
        None => MainMenuOptions::INVALID,
    }
}

/// What follows a choice: the action to take, and whether the menu is next
/// shown with its heading. An invalid choice drops the heading, the log of
/// all configurations leaves it as it was, every other choice brings it back.
pub open spec fn transition_of(option: MainMenuOptions, details: bool) -> (MenuAction, bool) {
    match option {
        MainMenuOptions::NAIVE => (MenuAction::Simulate(Algorithms::NAIVE), true),
        MainMenuOptions::ELEVATOR => (MenuAction::Simulate(Algorithms::ELEVATOR), true),
        MainMenuOptions::LOG => (MenuAction::LogAllConfigs, details),
        MainMenuOptions::INFO => (MenuAction::ShowInfo, true),
        MainMenuOptions::INVALID => (MenuAction::ReportError, false),
        MainMenuOptions::EXIT => (MenuAction::Quit, details),
    }
}

/// The choice that the input at the main menu stands for.
pub fn main_menu_option(input: Option<u32>) -> (option: MainMenuOptions)
    ensures
        option == option_of(input),
{
    match input {
        Some(1) => MainMenuOptions::NAIVE,
        Some(2) => MainMenuOptions::ELEVATOR,
        Some(3) => MainMenuOptions::LOG,
        Some(4) => MainMenuOptions::INFO,
        Some(5) => MainMenuOptions::EXIT,
        _ => MainMenuOptions::INVALID,
    }
}

/// The action that follows a choice at the main menu, and whether the menu
/// is next shown with its heading.
pub fn main_menu_transition(option: MainMenuOptions, details: bool) -> (next: (MenuAction, bool))
    ensures
        next == transition_of(option, details),
{
    match option {
        MainMenuOptions::NAIVE => (MenuAction::Simulate(Algorithms::NAIVE), true),
        MainMenuOptions::ELEVATOR => (MenuAction::Simulate(Algorithms::ELEVATOR), true),
        MainMenuOptions::LOG => (MenuAction::LogAllConfigs, details),
        MainMenuOptions::INFO => (MenuAction::ShowInfo, true),
        MainMenuOptions::INVALID => (MenuAction::ReportError, false),
        MainMenuOptions::EXIT => (MenuAction::Quit, details),
    }
}

/// The setting of run number `index` of the log of all configurations.
pub fn experiment(index: u32) -> (setting: Experiment)
    requires
        index < EXPERIMENTS,
    ensures
        setting == experiment_at(index as nat),
{
    let algorithm = if index / 4800 == 0 {
        Algorithms::NAIVE
    } else {
        Algorithms::ELEVATOR
    };
    let forward_speeds: [u32; 6] = [1, 5, 10, 15, 20, 25];
    let spin_speeds: [u32; 5] = [25, 50, 100, 250, 500];
    let max_tracks: [u32; 4] = [1000, 5000, 10000, 50000];
    let steps: [u32; 4] = [100, 500, 1000, 5000];
    Experiment {
        algorithm: algorithm,
        forward_speed: forward_speeds[(index / 800 % 6) as usize],
        spin_speed: spin_speeds[(index / 160 % 5) as usize],
        max_tracks: max_tracks[(index / 40 % 4) as usize],
        steps: steps[(index / 10 % 4) as usize],
    }
}

/// The name of the log file made at `millis` milliseconds after the epoch.
pub fn log_file_name(millis: u128) -> (name: String)
    ensures
        name@ == decimal(millis as nat) + ".txt"@,
{
    let mut name = String::new();
    push_decimal(&mut name, millis);
    name.append(".txt");
    assert(name@ =~= decimal(millis as nat) + ".txt"@);
    name
}

/// The log entry of a run: a header line that names the policy and the
/// setting, and a line with the response times, each followed by a comma.
pub fn log_data_text(algorithm: Algorithms, log_header: &LogHeader, times: &Vec<u32>) -> (text:
    String)
    ensures
        text@ == log_text(
            algorithm,
            log_header.metadata@.forward_speed,
            log_header.metadata@.spin_speed,
            log_header.max_tracks as nat,
            log_header.steps as nat,
            times@,
        ),
{
    let mut text = String::new();
    text.append("algorithm: ");
    match algorithm {
        Algorithms::NAIVE => {
            text.append("Naive");
        },
        Algorithms::ELEVATOR => {
            text.append("Elevator");
        },
    }
    text.append(", forward_speed: ");
    push_decimal(&mut text, *log_header.metadata.get_forward_speed() as u128);
    text.append(", spin_speed: ");
    push_decimal(&mut text, *log_header.metadata.get_spin_speed() as u128);
    text.append(", max_track: ");
    push_decimal(&mut text, log_header.max_tracks as u128);
    text.append(", steps: ");
    push_decimal(&mut text, log_header.steps as u128);
    text.append("\n");
    let ghost header = header_text(
        algorithm,
        log_header.metadata@.forward_speed,
        log_header.metadata@.spin_speed,
        log_header.max_tracks as nat,
        log_header.steps as nat,
    );
    assert(text@ =~= header);

    let mut written: usize = 0;
    while written < times.len()
        invariant
            written <= times@.len(),
            text@ == header + times_text(times@.take(written as int)),
        decreases times@.len() - written,
    {
        push_decimal(&mut text, times[written] as u128);
        text.append(",");
        proof {
            let done = times@.take(written + 1);
            assert(done.drop_last() =~= times@.take(written as int));
            assert(text@ =~= header + times_text(done));
        }
        written = written + 1;
    }
    text.append("\n");
    assert(times@.take(written as int) =~= times@);
    text
}

} // verus!
