//! Protocol framing and metadata.
pub mod le;
pub mod binary;
pub mod frame;
pub mod xml;
pub mod metadata;
