//! A discrete-time traffic microsimulation on a directed network of road
//! segments, in fixed-point arithmetic.
//!
//! Units: lengths and positions are in milli-units (a thousandth of a world
//! unit), velocities in milli-units per second, accelerations in milli-units
//! per second squared, and time steps in milliseconds.
pub mod geometry;
pub mod kinematics;
pub mod road;
pub mod route;
pub mod vehicle;
pub mod world;
