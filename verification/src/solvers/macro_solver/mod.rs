pub mod action_sequence;
pub mod search_queue;
pub mod macro_solver;
