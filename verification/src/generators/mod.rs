pub mod carving;
pub mod decimate;
pub mod generate;
pub mod hunt_and_kill;
pub mod tools;
