pub mod a_star;
pub mod solve;
