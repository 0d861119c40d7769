//! Media codecs (FPA1).
pub mod fpa1;
