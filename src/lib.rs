//! Planning and bookkeeping for loading and writing nested object graphs
//! over a relational store.
//!
//! The library decides; the caller performs the statements. Every decision
//! is stated as a contract over plain values and proved.
pub mod error;
pub mod page;
pub mod merge;
pub mod mapping;
pub mod insert_plan;
pub mod insert_run;
pub mod update_plan;
pub mod update_run;
pub mod load_loop;
pub mod registration;
pub mod acyclic;
