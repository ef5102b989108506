pub mod direction;
pub mod point;
pub mod point_state;
