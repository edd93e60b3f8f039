//! The mechanics of the disk head: where it is, what it is doing, and how one
//! tick of simulated time moves it.

use vstd::prelude::*;
use vstd::string::StringExecFns;
use crate::driver::Task;
use crate::hardware_manager::{state_text, DiskState, MoveDirection, MoveState};
use crate::text::{decimal, push_decimal};

verus! {

/// Number of angular positions on a track.
pub const FULL_TURN: u32 = 360;

/// Mathematical model of a [`DiskHead`].
pub struct HeadView {
    pub track: nat,
    pub angle: nat,
    pub mode: DiskState,
}

/// Mathematical model of a [`DiskMetadata`]: the two mechanical time
/// constants, in ticks. The spin speed is the number of ticks per degree;
/// the forward speed is the count at which the counter starts over while the
/// head travels, which it does at one track per tick.
pub struct MetadataView {
    pub forward_speed: nat,
    pub spin_speed: nat,
}

/// Mathematical model of a [`Disk`].
///
/// `sub_ticks` counts the ticks since the counter was last reset.
pub struct DiskView {
    pub track: nat,
    pub angle: nat,
    pub mode: DiskState,
    pub forward_speed: nat,
    pub spin_speed: nat,
    pub sub_ticks: nat,
}

impl HeadView {
    /// The head as it is shown.
    pub open spec fn text(self) -> Seq<char> {
        "DiskHead<current track: "@ + decimal(self.track) + ", current angle: "@ + decimal(
            self.angle,
        ) + ", state: "@ + state_text(self.mode) + ">"@
    }
}

impl DiskView {
    /// The disk as it is shown: the head in one line, the time constants in
    /// the next.
    pub open spec fn text(self) -> Seq<char> {
        "Disk <\n\tHead <current track: "@ + decimal(self.track) + ", current angle: "@ + decimal(
            self.angle,
        ) + ", state: "@ + state_text(self.mode) + ">\n\tMetadata <forward speed: "@ + decimal(
            self.forward_speed,
        ) + ", spin speed: "@ + decimal(self.spin_speed) + ">\n>"@
    }

    /// The invariant of the head: the angle is a degree of the circle, and a
    /// seek in progress points from the head towards its destination.
    pub open spec fn valid(self) -> bool {
        &&& self.angle < FULL_TURN
        &&& match self.mode {
            DiskState::MOVE(m) => match m.direction {
                MoveDirection::FORWARD => self.track < m.destination,
                MoveDirection::BACKWARD => self.track > m.destination,
            },
            _ => true,
        }
    }

    /// The direction in which `track` lies, seen from the head. A track equal
    /// to the head's own counts as forward.
    pub open spec fn direction_towards(self, track: u32) -> MoveDirection {
        if track >= self.track {
            MoveDirection::FORWARD
        } else {
            MoveDirection::BACKWARD
        }
    }

    /// The disk after a seek to `destination` was requested: an idle head
    /// that is elsewhere starts to travel, anything else stays as it is.
    pub open spec fn seek(self, destination: u32) -> DiskView {
        if self.mode is STOP && destination != self.track {
            DiskView {
                mode: DiskState::MOVE(
                    MoveState {
                        destination,
                        direction: if destination > self.track {
                            MoveDirection::FORWARD
                        } else {
                            MoveDirection::BACKWARD
                        },
                    },
                ),
                ..self
            }
        } else {
            self
        }
    }

    /// The disk after a read of `angle` was requested, whatever it was doing.
    pub open spec fn read(self, angle: u32) -> DiskView {
        DiskView { mode: DiskState::READ(angle), ..self }
    }

    /// The disk with its operation taken away.
    pub open spec fn detach(self) -> DiskView {
        DiskView { mode: DiskState::STOP, ..self }
    }

    /// The disk one tick later.
    ///
    /// An idle disk does not change. A reading disk counts the tick, turns by
    /// one degree when the count reaches the spin speed, and stops once it is
    /// over the wanted angle. A seeking disk counts the tick, moves by one
    /// track on every tick, and stops once it is on the wanted track.
    pub open spec fn tick(self) -> DiskView {
        match self.mode {
            DiskState::STOP => self,
            DiskState::READ(target) => {
                let turn = self.sub_ticks + 1 == self.spin_speed;
                let angle: nat = if turn {
                    (self.angle + 1) % (FULL_TURN as nat)
                } else {
                    self.angle
                };
                DiskView {
                    angle,
                    sub_ticks: if turn { 0 } else { self.sub_ticks + 1 },
                    mode: if angle == target { DiskState::STOP } else { self.mode },
                    ..self
                }
            },
            DiskState::MOVE(m) => {
                let track: nat = match m.direction {
                    MoveDirection::FORWARD => self.track + 1,
                    MoveDirection::BACKWARD => (self.track - 1) as nat,
                };
                DiskView {
                    track,
                    sub_ticks: if self.sub_ticks + 1 == self.forward_speed {
                        0
                    } else {
                        self.sub_ticks + 1
                    },
                    mode: if track == m.destination { DiskState::STOP } else { self.mode },
                    ..self
                }
            },
        }
    }

    /// The disk `n` ticks later.
    pub open spec fn ticks(self, n: nat) -> DiskView
        decreases n,
    {
        if n == 0 {
            self
        } else {
            self.ticks((n - 1) as nat).tick()
        }
    }
}

/// Position and mode of the head.
pub struct DiskHead {
    current_track: u32,
    current_angle: u32,
    state: DiskState,
}

/// The mechanical time constants of a disk, in ticks.
#[derive(Copy, Clone)]
pub struct DiskMetadata {
    forward_speed: u32,
    spin_speed: u32,
}

/// A disk: a head, its time constants and the sub-tick counter.
///
/// The counter is kept in 32 bits. A count that no longer fits can never
/// again meet a time constant, so only its excess is tracked, as a ghost.
pub struct Disk {
    head: DiskHead,
    metadata: DiskMetadata,
    sub_ticks: u32,
    excess: Ghost<nat>,
}

impl View for DiskHead {
    type V = HeadView;

    closed spec fn view(&self) -> HeadView {
        HeadView {
            track: self.current_track as nat,
            angle: self.current_angle as nat,
            mode: self.state,
        }
    }
}

impl View for DiskMetadata {
    type V = MetadataView;

    closed spec fn view(&self) -> MetadataView {
        MetadataView {
            forward_speed: self.forward_speed as nat,
            spin_speed: self.spin_speed as nat,
        }
    }
}

impl View for Disk {
    type V = DiskView;

    closed spec fn view(&self) -> DiskView {
        DiskView {
            track: self.head.current_track as nat,
            angle: self.head.current_angle as nat,
            mode: self.head.state,
            forward_speed: self.metadata.forward_speed as nat,
            spin_speed: self.metadata.spin_speed as nat,
            sub_ticks: if self.sub_ticks < u32::MAX {
                self.sub_ticks as nat
            } else {
                u32::MAX as nat + self.excess@
            },
        }
    }
}

impl DiskHead {
    /// A head at rest on track 1, over angle 0.
    pub fn default() -> (head: DiskHead)
        ensures
            head@ == (HeadView { track: 1, angle: 0, mode: DiskState::STOP }),
    {
        DiskHead { current_track: 1, current_angle: 0, state: DiskState::STOP }
    }

    /// The head as it is shown.
    pub fn to_text(&self) -> (text: String)
        ensures
            text@ == self@.text(),
    {
        let state = self.state.to_text();
        let mut text = String::new();
        text.append("DiskHead<current track: ");
        push_decimal(&mut text, self.current_track as u128);
        text.append(", current angle: ");
        push_decimal(&mut text, self.current_angle as u128);
        text.append(", state: ");
        text.append(state.as_str());
        text.append(">");
        assert(text@ =~= self@.text());
        text
    }
}

impl DiskMetadata {
    /// The time constants of the stock disk: one tick per track, a hundred
    /// ticks per degree.
    pub fn default() -> (metadata: DiskMetadata)
        ensures
            metadata@ == (MetadataView { forward_speed: 1, spin_speed: 100 }),
    {
        DiskMetadata::from_config(1, 100)
    }

    /// Time constants taken verbatim as tick counts.
    pub fn from_config(forward_speed: u32, spin_speed: u32) -> (metadata: DiskMetadata)
        ensures
            metadata@ == (MetadataView {
                forward_speed: forward_speed as nat,
                spin_speed: spin_speed as nat,
            }),
    {
        DiskMetadata { forward_speed: forward_speed, spin_speed: spin_speed }
    }

    /// The forward speed: the count at which the counter starts over while
    /// the head travels.
    pub fn get_forward_speed(&self) -> (speed: &u32)
        ensures
            *speed == self@.forward_speed,
    {
        &self.forward_speed
    }

    /// The spin speed: the ticks the disk needs to turn by one degree.
    pub fn get_spin_speed(&self) -> (speed: &u32)
        ensures
            *speed == self@.spin_speed,
    {
        &self.spin_speed
    }
}

impl Disk {
    /// Well-formedness: the model satisfies the invariant of the head.
    pub open spec fn wf(&self) -> bool {
        self@.valid()
    }

    /// A fresh disk: at rest on track 1 over angle 0, with a counter of 0 and
    /// the given time constants.
    pub fn new(metadata: DiskMetadata) -> (disk: Disk)
        ensures
            disk.wf(),
            disk@ == (DiskView {
                track: 1,
                angle: 0,
                mode: DiskState::STOP,
                forward_speed: metadata@.forward_speed,
                spin_speed: metadata@.spin_speed,
                sub_ticks: 0,
            }),
    {
        Disk { head: DiskHead::default(), metadata: metadata, sub_ticks: 0, excess: Ghost(0) }
    }

    /// The mode of the head as it is shown.
    pub fn get_str_state(&self) -> (text: String)
        ensures
            text@ == state_text(self@.mode),
    {
        self.head.state.to_text()
    }

    /// The disk as it is shown.
    pub fn to_text(&self) -> (text: String)
        ensures
            text@ == self@.text(),
    {
        let state = self.get_str_state();
        let mut text = String::new();
        text.append("Disk <\n\tHead <current track: ");
        push_decimal(&mut text, self.head.current_track as u128);
        text.append(", current angle: ");
        push_decimal(&mut text, self.head.current_angle as u128);
        text.append(", state: ");
        text.append(state.as_str());
        text.append(">\n\tMetadata <forward speed: ");
        push_decimal(&mut text, self.metadata.forward_speed as u128);
        text.append(", spin speed: ");
        push_decimal(&mut text, self.metadata.spin_speed as u128);
        text.append(">\n>");
        assert(text@ =~= self@.text());
        text
    }

    /// Asks the head to spin until it is over `angle`, replacing whatever it
    /// was doing.
    pub fn add_reading_task(&mut self, angle: u32)
        requires
            old(self).wf(),
        ensures
            final(self).wf(),
            final(self)@ == old(self)@.read(angle),
    {
        self.head.state = DiskState::READ(angle);
    }

    /// Asks the head to travel to `destination`. The request is dropped when
    /// the head is busy or already on that track.
    pub fn add_move_task(&mut self, destination: u32)
        requires
            old(self).wf(),
        ensures
            final(self).wf(),
            final(self)@ == old(self)@.seek(destination),
            destination == old(self)@.track ==> final(self)@ == old(self)@,
    {
        if destination != self.head.current_track {
            if self.head.state == DiskState::STOP {
                let direction = if destination > self.head.current_track {
                    MoveDirection::FORWARD
                } else {
                    MoveDirection::BACKWARD
                };

                self.head.state = DiskState::MOVE(MoveState::new(destination, direction));
            }
        }
    }

    /// Counts one tick. When the count reaches `limit`, the counter starts
    /// over and `true` is returned.
    fn count_tick(&mut self, limit: u32) -> (reached: bool)
        ensures
            reached == (old(self)@.sub_ticks + 1 == limit),
            final(self)@ == (DiskView {
                sub_ticks: if reached {
                    0
                } else {
                    old(self)@.sub_ticks + 1
                },
                ..old(self)@
            }),
    {
        if self.sub_ticks == u32::MAX {
            self.excess = Ghost(self.excess@ + 1);
            false
        } else {
            self.sub_ticks = self.sub_ticks + 1;
            self.excess = Ghost(0);
            if self.sub_ticks == limit {
                self.sub_ticks = 0;
                true
            } else {
                false
            }
        }
    }

    /// Advances the disk by one tick.
    ///
    /// The angle stays a degree of the circle: it is kept, or goes on to the
    /// next degree, with 0 after 359. A travelling head moves by exactly one
    /// track towards its destination, whatever the counter and the forward
    /// speed are, and keeps its angle. A read of the angle the head is over
    /// ends with this tick, unless the tick turns the disk.
    pub fn step(&mut self)
        requires
            old(self).wf(),
        ensures
            final(self).wf(),
            final(self)@ == old(self)@.tick(),
            old(self)@.mode is STOP ==> final(self)@ == old(self)@,
            final(self)@.angle < FULL_TURN,
            final(self)@.angle == old(self)@.angle || final(self)@.angle == (old(self)@.angle + 1)
                % (FULL_TURN as nat),
            old(self)@.mode matches DiskState::READ(target) ==> final(self)@.track == old(
                self,
            )@.track && (target == old(self)@.angle && old(self)@.sub_ticks + 1 != old(
                self,
            )@.spin_speed ==> final(self)@.mode is STOP && final(self)@.angle == old(self)@.angle
                && final(self)@.sub_ticks == old(self)@.sub_ticks + 1),
            old(self)@.mode matches DiskState::MOVE(m) ==> final(self)@.angle == old(self)@.angle
                && final(self)@.track == (if m.direction == MoveDirection::FORWARD {
                old(self)@.track + 1int
            } else {
                old(self)@.track - 1int
            }) && final(self)@.mode == (if final(self)@.track == m.destination {
                DiskState::STOP
            } else {
                old(self)@.mode
            }),
    {
        match self.head.state {
            DiskState::STOP => {},
            DiskState::READ(r) => {
                if self.count_tick(self.metadata.spin_speed) {
                    self.head.current_angle = (self.head.current_angle + 1) % FULL_TURN;
                }

                if r == self.head.current_angle {
                    self.head.state = DiskState::STOP;
                }
            },
            DiskState::MOVE(m) => {
                self.count_tick(self.metadata.forward_speed);

                match m.direction {
                    MoveDirection::FORWARD => {
                        self.head.current_track = self.head.current_track + 1;
                    },
                    MoveDirection::BACKWARD => {
                        self.head.current_track = self.head.current_track - 1;
                    },
                }

                if self.head.current_track == m.destination {
                    self.head.state = DiskState::STOP;
                }
            },
        }
    }

    /// Whether the head is reading or seeking.
    pub fn is_operating(&self) -> (busy: bool)
        ensures
            busy == !(self@.mode is STOP),
    {
        self.head.state != DiskState::STOP
    }

    /// Takes the current operation away from the head and hands it back,
    /// leaving the head at rest where it is.
    pub fn detach_current_state(&mut self) -> (state: DiskState)
        requires
            old(self).wf(),
        ensures
            final(self).wf(),
            state == old(self)@.mode,
            final(self)@ == old(self)@.detach(),
    {
        let state = self.head.state;
        self.head.state = DiskState::STOP;

        state
    }

    /// The mode the head is in.
    pub fn get_state(&self) -> (state: &DiskState)
        ensures
            *state == self@.mode,
    {
        &self.head.state
    }

    /// The track the head is on.
    pub fn get_current_track(&self) -> (track: u32)
        ensures
            track == self@.track,
    {
        self.head.current_track
    }

    /// The angle the head is over; for a well-formed disk a degree of the
    /// circle.
    pub fn get_current_angle(&self) -> (angle: u32)
        ensures
            angle == self@.angle,
            self.wf() ==> angle < FULL_TURN,
    {
        self.head.current_angle
    }

    /// The count of ticks since the sub-tick counter last started over, as
    /// far as 32 bits can tell it: a larger count is given as the largest
    /// 32-bit number.
    pub fn get_sub_ticks(&self) -> (count: u32)
        ensures
            count == (if self@.sub_ticks < u32::MAX {
                self@.sub_ticks
            } else {
                u32::MAX as nat
            }),
    {
        self.sub_ticks
    }

    /// Whether the head is spinning towards an angle.
    pub fn is_rotating(&self) -> (rotating: bool)
        ensures
            rotating == (self@.mode is READ),
    {
        match self.head.state {
            DiskState::READ(_) => true,
            _ => false,
        }
    }

    /// Whether the head is travelling towards a track.
    pub fn is_seeking(&self) -> (seeking: bool)
        ensures
            seeking == (self@.mode is MOVE),
    {
        match self.head.state {
            DiskState::MOVE(_) => true,
            _ => false,
        }
    }

    /// The direction in which the track of `task` lies, seen from the head.
    pub fn calculate_moving_direction(&self, task: &Task) -> (direction: MoveDirection)
        ensures
            direction == self@.direction_towards(task@.track),
    {
        if *task.get_track() >= self.head.current_track {
            MoveDirection::FORWARD
        } else {
            MoveDirection::BACKWARD
        }
    }
}

} // verus!
