//! The Executor: how a Script's run and its host calls alternate.

pub mod budget;
pub mod dealing;
pub mod executor;
pub mod laws;
pub mod wire;
