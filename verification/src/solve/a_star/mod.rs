pub mod a_star;
pub mod model;
pub mod node;
pub mod route;
