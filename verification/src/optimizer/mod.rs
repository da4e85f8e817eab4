//! The optimizer: its state, its data and its loop.
pub mod adapter;
pub mod cache;
pub mod cached_eval;
pub mod callbacks;
pub mod component;
pub mod data_loader;
pub mod engine;
pub mod evaluation;
pub mod frontier;
pub mod fronts;
pub mod full_eval;
pub mod laws;
pub mod record;
pub mod result;
pub mod result_record;
pub mod run;
pub mod schema;
pub mod state;
