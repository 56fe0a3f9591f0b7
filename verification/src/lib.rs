pub mod config;
pub mod context;
pub mod elements;
pub mod game;
pub mod solvers;
pub mod utils;
