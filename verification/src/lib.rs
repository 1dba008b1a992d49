//! Xuehua: the build engine's verified core.
pub mod engine;
pub mod nar;
pub mod query;
pub mod reports;
