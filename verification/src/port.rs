//! The wire codec: stream framing, envelopes, and the one error shape that a Backend receives.

pub mod codec;
pub mod error;
pub mod frame;
pub mod history;
pub mod settings;
pub mod shape;
pub mod taking;
