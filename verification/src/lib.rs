//! Scene encoding for a GPU vector renderer: draw tags and their payloads,
//! the encoded scene streams, and the packing of those streams into one
//! buffer for the GPU.

pub mod atlas;
pub mod config;
pub mod draw;
pub mod path;
pub mod pool;
pub mod sums;
pub mod words;
pub mod encoding;
pub mod engine;
pub mod resolve;
pub mod scene;
