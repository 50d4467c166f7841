//! The agent: tools, context, events and the turn loop.

pub mod agent_loop;
pub mod context;
pub mod tool;
