//! Error reports: trees of messages with frames, and their renderers.
pub mod laws;
pub mod layer;
pub mod pretty;
pub mod render;
pub mod report;
