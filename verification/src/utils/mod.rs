//! Pareto-front mathematics and stop conditions.
pub mod chance;
pub mod pareto;
pub mod programs;
pub mod stop_condition;
