pub mod board;
pub mod controller;
pub mod laws;
pub mod model;
