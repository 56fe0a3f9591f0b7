pub mod action_sequences;
pub mod actions;
pub mod finish_solver;
pub mod macro_solver;
pub mod memo;
pub mod upper_bound_solver;
pub mod util;
