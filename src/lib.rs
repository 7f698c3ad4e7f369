//! Edit reconciliation and session coordination for an editor's language-server bridge.

pub mod text;
pub mod offset;
pub mod edit;
pub mod normalize;
pub mod script;
pub mod patch;
pub mod session;
