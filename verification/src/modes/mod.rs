//! The ways to run the agent.

pub mod interactive;
