pub mod point;
