//! A discrete-time simulator of a rotating disk head that services read
//! requests under a first-come-first-served and an elevator scheduling policy.
//!
//! Every executable function carries a contract over a mathematical model of
//! the state it works on: [`disk::DiskView`] for the mechanics of the head and
//! [`driver::SimpleDriverView`] / [`driver::ElevatorView`] for the schedulers.

pub mod hardware_manager;
pub mod disk;
pub mod driver;
pub mod disk_laws;
pub mod driver_laws;
pub mod liveness;
pub mod report;
pub mod simulation;
pub mod text;
