pub mod action_sequence;
pub mod pareto_front;
pub mod pareto_key;
