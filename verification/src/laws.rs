//! What the layer promises as a whole.
//!
//! Each law is a theorem about the functions that specify the crate, so it holds of
//! whatever the verified code returns.

pub mod arbitration;
pub mod config;
pub mod cycle;
pub mod field;
pub mod geometry;
pub mod history;
pub mod numbers;
pub mod perception;
pub mod state;
pub mod types;
