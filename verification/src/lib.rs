//! A small task tracker: a store of named items with status
//! transitions, listings, and JSON persistence, all verified against
//! the model in `model`.
mod clock;
mod strutil;
pub mod codec;
pub mod item;
pub mod laws;
pub mod model;
pub mod num;
pub mod render;
pub mod roundtrip;
pub mod store;
