//! Grid mazes: carving by hunt-and-kill, braiding, and shortest-path search,
//! with the bookkeeping that lets a foreground show and cancel a running job.

pub mod error;
pub mod generators;
pub mod manager;
pub mod path;
pub mod point;
pub mod solve;
pub mod tools;
