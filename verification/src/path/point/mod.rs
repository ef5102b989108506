pub mod face;
