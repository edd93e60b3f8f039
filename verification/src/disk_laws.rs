//! What holds of the mechanics of the head over any number of ticks.

use vstd::prelude::*;
use crate::disk::{DiskView, FULL_TURN};
use crate::hardware_manager::{DiskState, MoveDirection, MoveState};

verus! {

/// The number of tracks between two tracks.
pub open spec fn track_distance(from: nat, to: nat) -> nat {
    if from <= to {
        (to - from) as nat
    } else {
        (from - to) as nat
    }
}

/// The number of degrees the disk turns to bring `to` under a head that is
/// over `from`; a head that is already there needs the whole turn.
pub open spec fn degrees_ahead(from: nat, to: nat) -> nat {
    if from < to {
        (to - from) as nat
    } else {
        (to + FULL_TURN - from) as nat
    }
}

/// The angle a head over `from` is over once the disk has turned by
/// `degrees`.
pub open spec fn angle_after(from: nat, degrees: nat) -> nat {
    (from + degrees) % (FULL_TURN as nat)
}

/// Whether a read of `target` goes on for at least `turns` whole degrees
/// from `disk` without ending: the wanted angle lies further ahead than
/// that, or is no angle of the circle.
pub open spec fn keeps_reading_for(disk: DiskView, target: u32, turns: nat) -> bool {
    target < FULL_TURN ==> turns < degrees_ahead(disk.angle, target as nat)
}

/// Whether the first tick of a read of `target` leaves the read going: the
/// head is not yet over the wanted angle, or that tick turns the disk.
pub open spec fn first_tick_keeps_reading(disk: DiskView, target: u32) -> bool {
    target != disk.angle || disk.spin_speed == 1
}

/// Requests and ticks keep the invariant of the head. In particular the angle
/// is a degree of the circle after every tick, and a head that travels
/// backward is above its destination, so its track never falls below 0.
pub proof fn lemma_valid_is_kept(disk: DiskView, destination: u32, angle: u32)
    requires
        disk.valid(),
    ensures
        disk.tick().valid(),
        disk.tick().angle < FULL_TURN,
        disk.seek(destination).valid(),
        disk.read(angle).valid(),
        disk.detach().valid(),
        disk.mode matches DiskState::MOVE(m) && m.direction == MoveDirection::BACKWARD
            ==> disk.tick().track + 1 == disk.track,
{
}

/// Any number of ticks keeps the invariant of the head and leaves the time
/// constants alone.
pub proof fn lemma_ticks_keep_valid(disk: DiskView, n: nat)
    requires
        disk.valid(),
    ensures
        disk.ticks(n).valid(),
        disk.ticks(n).angle < FULL_TURN,
        disk.ticks(n).forward_speed == disk.forward_speed,
        disk.ticks(n).spin_speed == disk.spin_speed,
    decreases n,
{
    if n > 0 {
        lemma_ticks_keep_valid(disk, (n - 1) as nat);
    }
}

/// Ticks add up: `m + n` ticks are `m` ticks followed by `n` ticks.
pub proof fn lemma_ticks_add(disk: DiskView, m: nat, n: nat)
    ensures
        disk.ticks(m + n) == disk.ticks(m).ticks(n),
    decreases n,
{
    if n > 0 {
        lemma_ticks_add(disk, m, (n - 1) as nat);
        assert(((m + n) - 1) as nat == m + ((n - 1) as nat));
    }
}

/// While the disk is idle, no tick changes anything: neither the track nor
/// the angle, nor anything else.
pub proof fn lemma_idle_disk_stays(disk: DiskView, n: nat)
    requires
        disk.mode is STOP,
    ensures
        disk.tick() == disk,
        disk.ticks(n) == disk,
    decreases n,
{
    if n > 0 {
        lemma_idle_disk_stays(disk, (n - 1) as nat);
    }
}

/// A seek to the track the head is on changes nothing.
pub proof fn lemma_seek_to_current_track(disk: DiskView, destination: u32)
    requires
        destination == disk.track,
    ensures
        disk.seek(destination) == disk,
{
}

/// A head that travels has, after `k` ticks that do not outlast the way,
/// covered `k` tracks, whatever the forward speed is; it is at rest exactly
/// when the whole way is covered.
pub proof fn lemma_travel(disk: DiskView, target: MoveState, k: nat)
    requires
        disk.valid(),
        disk.mode == DiskState::MOVE(target),
        k <= track_distance(disk.track, target.destination as nat),
    ensures
        track_distance(disk.ticks(k).track, target.destination as nat) + k == track_distance(
            disk.track,
            target.destination as nat,
        ),
        track_distance(disk.ticks(k).track, disk.track) == k,
        disk.ticks(k).mode == (if k == track_distance(disk.track, target.destination as nat) {
            DiskState::STOP
        } else {
            disk.mode
        }),
        disk.ticks(k).angle == disk.angle,
        disk.ticks(k).valid(),
    decreases k,
{
    if k > 0 {
        lemma_travel(disk, target, (k - 1) as nat);
    }
}

/// A seek over `n` tracks from an idle disk takes exactly `n` ticks: after
/// `n` ticks the head is at rest on the destination, and after fewer it is
/// still travelling. The forward speed plays no part in this.
pub proof fn lemma_seek_takes_one_tick_per_track(disk: DiskView, destination: u32, k: nat)
    requires
        disk.valid(),
        disk.mode is STOP,
        k <= track_distance(disk.track, destination as nat),
    ensures
        k == track_distance(disk.track, destination as nat) ==> disk.seek(destination).ticks(
            k,
        ).track == destination && disk.seek(destination).ticks(k).mode is STOP,
        k < track_distance(disk.track, destination as nat) ==> disk.seek(destination).ticks(
            k,
        ).track != destination && disk.seek(destination).ticks(k).mode is MOVE,
        track_distance(disk.seek(destination).ticks(k).track, disk.track) == k,
        disk.seek(destination).ticks(k).angle == disk.angle,
{
    if destination != disk.track {
        lemma_travel(disk.seek(destination), disk.seek(destination).mode->MOVE_0, k);
    }
}

/// A read of the angle the head is over ends with the first tick, the head
/// still over that angle, unless that very tick turns the disk.
pub proof fn lemma_read_of_current_angle(disk: DiskView, angle: u32)
    requires
        disk.valid(),
        angle == disk.angle,
        disk.sub_ticks + 1 != disk.spin_speed,
    ensures
        disk.read(angle).tick().mode is STOP,
        disk.read(angle).tick().angle == angle,
        disk.read(angle).tick().track == disk.track,
{
}

/// A reading disk whose counter is at 0 turns by one degree every
/// `spin_speed` ticks: as long as the read goes on, `turns * spin_speed +
/// rest` ticks leave the head `turns` degrees further, with `rest` ticks
/// counted towards the next degree, and still reading.
pub proof fn lemma_spinning(disk: DiskView, target: u32, turns: nat, rest: nat)
    requires
        disk.valid(),
        disk.mode == DiskState::READ(target),
        disk.sub_ticks == 0,
        rest < disk.spin_speed,
        keeps_reading_for(disk, target, turns),
        turns + rest > 0 ==> first_tick_keeps_reading(disk, target),
    ensures
        disk.ticks(turns * disk.spin_speed + rest) == (DiskView {
            angle: angle_after(disk.angle, turns),
            sub_ticks: rest,
            ..disk
        }),
    decreases turns, rest,
{
    let speed = disk.spin_speed;
    if rest > 0 {
        lemma_spinning(disk, target, turns, (rest - 1) as nat);
        assert((turns * speed + rest - 1) as nat == turns * speed + (rest - 1) as nat);
    } else if turns > 0 {
        lemma_spinning(disk, target, (turns - 1) as nat, (speed - 1) as nat);
        assert((turns - 1) * speed + speed == turns * speed) by (nonlinear_arith);
        assert((turns * speed + rest - 1) as nat == ((turns - 1) as nat) * speed + (speed - 1) as nat);
    } else {
        assert(turns * speed + rest == 0) by (nonlinear_arith)
            requires
                turns == 0,
                rest == 0,
        ;
    }
}

/// A read that starts with the counter at 0 takes exactly `spin_speed` ticks
/// per degree to go: after that many ticks the head is at rest over the
/// wanted angle with the counter at 0. (By `lemma_spinning` the read is still
/// going after any smaller number of ticks.)
pub proof fn lemma_read_takes_spin_speed_per_degree(disk: DiskView, target: u32)
    requires
        disk.valid(),
        disk.mode == DiskState::READ(target),
        disk.sub_ticks == 0,
        disk.spin_speed >= 1,
        target < FULL_TURN,
        first_tick_keeps_reading(disk, target),
    ensures
        disk.ticks(degrees_ahead(disk.angle, target as nat) * disk.spin_speed) == (DiskView {
            angle: target as nat,
            sub_ticks: 0,
            mode: DiskState::STOP,
            ..disk
        }),
{
    let speed = disk.spin_speed;
    let degrees = degrees_ahead(disk.angle, target as nat);
    lemma_spinning(disk, target, (degrees - 1) as nat, (speed - 1) as nat);
    assert((degrees - 1) * speed + speed == degrees * speed) by (nonlinear_arith);
    assert((degrees * speed - 1) as nat == ((degrees - 1) as nat) * speed + (speed - 1) as nat);
    assert(degrees * speed >= 1) by (nonlinear_arith)
        requires
            degrees >= 1,
            speed >= 1,
    ;
}

/// The ticks a reading disk still spins until it is over `target`: the
/// degrees ahead at the spin speed, less the ticks already counted.
pub open spec fn ticks_left_to_read(disk: DiskView, target: u32) -> nat {
    (degrees_ahead(disk.angle, target as nat) * disk.spin_speed - disk.sub_ticks) as nat
}

/// Whether the disk reads `target` and has not counted a whole degree yet.
pub open spec fn reads_towards(disk: DiskView, target: u32) -> bool {
    &&& disk.valid()
    &&& disk.mode == DiskState::READ(target)
    &&& target < FULL_TURN
    &&& disk.angle != target
    &&& disk.sub_ticks < disk.spin_speed
}

/// A read of an angle the head is not over ends with the tick that
/// `ticks_left_to_read` counts to, and with no earlier one: after every
/// smaller number of ticks the disk is still reading, with one tick less left
/// for each tick made; after that number it rests over the wanted angle, on
/// the track it was on, with the counter at 0. From a counter of 0 this is
/// the spin speed for each degree to go.
pub proof fn lemma_read_ends_after(disk: DiskView, target: u32, n: nat)
    requires
        reads_towards(disk, target),
        n <= ticks_left_to_read(disk, target),
    ensures
        ticks_left_to_read(disk, target) >= 1,
        disk.ticks(n).track == disk.track,
        n < ticks_left_to_read(disk, target) ==> reads_towards(disk.ticks(n), target)
            && ticks_left_to_read(disk.ticks(n), target) + n == ticks_left_to_read(disk, target),
        n == ticks_left_to_read(disk, target) ==> disk.ticks(n).mode is STOP && disk.ticks(n).angle
            == target && disk.ticks(n).sub_ticks == 0,
    decreases n,
{
    let speed = disk.spin_speed;
    let degrees = degrees_ahead(disk.angle, target as nat);
    assert(speed <= degrees * speed) by (nonlinear_arith)
        requires
            1 <= degrees,
            speed >= 1,
    ;
    if n > 0 {
        lemma_read_ends_after(disk, target, (n - 1) as nat);
        let before = disk.ticks((n - 1) as nat);
        let after = before.tick();
        let ahead = degrees_ahead(before.angle, target as nat);
        let rate = before.spin_speed;
        assert(rate <= ahead * rate) by (nonlinear_arith)
            requires
                1 <= ahead,
                rate >= 1,
        ;
        assert(ahead >= 2 ==> ahead * rate >= 2 * rate) by (nonlinear_arith)
            requires
                rate >= 1,
        ;
        assert(ahead == 1 ==> ahead * rate == rate) by (nonlinear_arith);
        if before.sub_ticks + 1 == rate && after.angle != target {
            let left = degrees_ahead(after.angle, target as nat);
            assert(left == ahead - 1);
            assert(left * rate == ahead * rate - rate) by (nonlinear_arith)
                requires
                    left == ahead - 1,
            ;
        }
    }
}

/// A full turn takes exactly `360 * spin_speed` ticks. A disk that reads
/// from a counter of 0, and whose read does not end on the way, is over its
/// first angle again after that many ticks, with the counter back at 0; it
/// leaves that angle with tick `spin_speed` and is not over it at any tick
/// in between.
pub proof fn lemma_full_turn(disk: DiskView, target: u32, turns: nat, rest: nat)
    requires
        disk.valid(),
        disk.mode == DiskState::READ(target),
        disk.sub_ticks == 0,
        disk.spin_speed >= 1,
        target >= FULL_TURN || (target == disk.angle && disk.spin_speed == 1),
        turns < FULL_TURN,
        rest < disk.spin_speed,
    ensures
        disk.ticks(360 * disk.spin_speed).angle == disk.angle,
        disk.ticks(360 * disk.spin_speed).sub_ticks == 0,
        disk.ticks(360 * disk.spin_speed).track == disk.track,
        turns == 0 ==> disk.ticks(turns * disk.spin_speed + rest).angle == disk.angle,
        turns > 0 ==> disk.ticks(turns * disk.spin_speed + rest).angle != disk.angle,
{
    lemma_spinning(disk, target, turns, rest);
    if target >= FULL_TURN {
        lemma_spinning(disk, target, FULL_TURN as nat, 0);
    } else {
        lemma_read_takes_spin_speed_per_degree(disk, target);
    }
}

} // verus!
