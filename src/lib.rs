//! Classic in-memory sorting and searching routines with machine-checked contracts.
pub mod laws;
pub mod order;
pub mod searching;
pub mod sorting;
pub mod util;
