//! pixie-pi: the logic of a terminal coding agent.

pub mod agent;
pub mod ai;
pub mod cli;
pub mod config;
pub mod json;
pub mod modes;
pub mod prompt;
pub mod session;
pub mod skills;
pub mod text;
pub mod tools;
