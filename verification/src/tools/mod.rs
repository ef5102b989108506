pub mod clock;
pub mod consts;
pub mod direction_data;
pub mod graph;
pub mod image;
pub mod math;
pub mod matrix;
pub mod options;
pub mod seeder;
pub mod window;
