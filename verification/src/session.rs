//! Sessions: what a Backend hands over at init, and the registry of live Sessions.

pub mod accepting;
pub mod init;
pub mod registry;
