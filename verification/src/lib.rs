//! Open Media Transport (OMT): wire protocol, metadata and source
//! descriptions, with their behaviour stated as Verus contracts.
#![allow(unused_imports)]

pub mod clock;
pub mod codec;
pub mod color;
pub mod discovery;
pub mod error;
pub mod logging;
pub mod types;
pub mod protocol;
pub mod receive;
pub mod redirect;
pub mod send;
pub mod send_video;
pub mod settings;
pub mod text;
pub mod transport;

pub use error::OmtError;
