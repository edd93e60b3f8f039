//! The vocabulary of head motion: seek directions, seek targets and the mode
//! the head is in.

use vstd::prelude::*;
use vstd::string::StringExecFns;
use crate::text::{decimal, push_decimal};

verus! {

/// Direction of a radial head movement. `FORWARD` is towards higher track
/// numbers, `BACKWARD` towards lower ones.
#[derive(PartialEq, Eq, Structural, Copy, Clone, Debug)]
pub enum MoveDirection {
    FORWARD,
    BACKWARD,
}

/// The target of a seek: the track the head travels to and the direction it
/// travels in.
#[derive(PartialEq, Eq, Structural, Copy, Clone, Debug)]
pub struct MoveState {
    pub destination: u32,
    pub direction: MoveDirection,
}

/// What the head is doing.
///
/// * `STOP`: the head is stationary and nothing is pending.
/// * `READ(angle)`: the head spins in place until it is over `angle`.
/// * `MOVE(target)`: the head travels along the tracks towards `target`.
#[derive(PartialEq, Eq, Structural, Copy, Clone, Debug)]
pub enum DiskState {
    STOP,
    READ(u32),
    MOVE(MoveState),
}

/// The name of a direction as it is shown.
pub open spec fn direction_text(direction: MoveDirection) -> Seq<char> {
    match direction {
        MoveDirection::FORWARD => "FORWARD"@,
        MoveDirection::BACKWARD => "BACWARD"@,
    }
}

/// A mode as it is shown: its name, and in brackets what it aims at.
pub open spec fn state_text(state: DiskState) -> Seq<char> {
    match state {
        DiskState::STOP => "STOP"@,
        DiskState::READ(angle) => "READ("@ + decimal(angle as nat) + ")"@,
        DiskState::MOVE(m) => "MOVE("@ + decimal(m.destination as nat) + ", "@ + direction_text(
            m.direction,
        ) + ")"@,
    }
}

impl DiskState {
    /// The mode as it is shown.
    pub fn to_text(&self) -> (text: String)
        ensures
            text@ == state_text(*self),
    {
        let mut text = String::new();
        match self {
            DiskState::STOP => {
                text.append("STOP");
            },
            DiskState::READ(angle) => {
                text.append("READ(");
                push_decimal(&mut text, *angle as u128);
                text.append(")");
            },
            DiskState::MOVE(m) => {
                text.append("MOVE(");
                push_decimal(&mut text, m.destination as u128);
                text.append(", ");
                match m.direction {
                    MoveDirection::FORWARD => {
                        text.append("FORWARD");
                    },
                    MoveDirection::BACKWARD => {
                        text.append("BACWARD");
                    },
                }
                text.append(")");
            },
        }
        assert(text@ =~= state_text(*self));
        text
    }
}

impl MoveState {
    /// Builds a seek target from its two parts.
    pub fn new(destination: u32, direction: MoveDirection) -> (state: MoveState)
        ensures
            state.destination == destination,
            state.direction == direction,
    {
        MoveState { destination: destination, direction: direction }
    }
}

} // verus!
