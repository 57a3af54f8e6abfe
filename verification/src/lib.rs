//! A deterministic multi-level skip list over a sorted run of `(key, value)`
//! entries, laid out as bytes: a builder that serializes the levels and a
//! reader that seeks the predecessor of a key by descending them.

pub mod error;
pub mod wire;
pub mod codec;
pub mod level;
pub mod tower;
pub mod builder;
pub mod reader;
pub mod scan;
pub mod links;
pub mod opening;
pub mod pace;
pub mod laws;
pub mod cost;

pub use crate::builder::LayerBuilder;
pub use crate::builder::SkipListBuilder;
pub use crate::codec::BinarySerializable;
pub use crate::error::Error;
pub use crate::error::WriteStage;
pub use crate::level::DocId;
pub use crate::reader::Layer;
pub use crate::reader::SkipList;
pub use crate::wire::ByteCursor;
