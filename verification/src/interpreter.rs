//! The evaluator.

pub mod attach;
pub mod detach;
pub mod doing;
pub mod environment;
pub mod execution;
pub mod finite;
pub mod heap;
pub mod keeping;
pub mod lasting;
pub mod laws;
pub mod machine;
pub mod metering;
pub mod naming;
pub mod numbering;
pub mod operating;
pub mod operators;
pub mod pausing;
pub mod scopes;
pub mod semantics;
pub mod texts;
pub mod value;
