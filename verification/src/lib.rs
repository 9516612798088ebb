//! An implementation of the Esperto input system: a system for key
//! combinations made of modifier groups and action keys.
//!
//! The main functionalities are provided by [`combo::ComboHandler`].

/// The combo algorithm.
pub mod combo;

/// Configuration types.
pub mod config;

/// Event types.
pub mod types;
