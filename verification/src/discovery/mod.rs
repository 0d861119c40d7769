//! Source discovery: addresses of OMT sources and their text forms.
pub mod address;
pub mod mdns;
pub mod listing;
pub mod server;
pub mod client;
pub mod document;
