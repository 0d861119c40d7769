//! Error values produced by the OMT library.
use vstd::prelude::*;
use crate::text::push_str;

verus! {

/// Errors produced by the OMT stack.
///
/// Variants that in an embedding carry an operating-system or codec error
/// carry its rendered message here.
#[derive(Debug, Clone, PartialEq, Eq)]
pub enum OmtError {
    /// Invalid argument or configuration.
    InvalidArgument(String),
    /// Network / socket failure.
    Network(String),
    /// Protocol framing or parse error.
    Protocol(String),
    /// Discovery failure.
    Discovery(String),
    /// Codec failure.
    Codec(String),
    /// Underlying I/O error (rendered message).
    Io(String),
    /// VMX codec error (rendered message).
    Vmx(String),
    /// Feature not yet implemented.
    NotImplemented(&'static str),
}

/// The words that open the rendered message of each kind of error.
pub open spec fn error_prefix(e: OmtError) -> Seq<char> {
    match e {
        OmtError::InvalidArgument(_) => "invalid argument: "@,
        OmtError::Network(_) => "network error: "@,
        OmtError::Protocol(_) => "protocol error: "@,
        OmtError::Discovery(_) => "discovery error: "@,
        OmtError::Codec(_) => "codec error: "@,
        OmtError::Io(_) => "I/O error: "@,
        OmtError::Vmx(_) => "VMX error: "@,
        OmtError::NotImplemented(_) => "not implemented: "@,
    }
}

/// The detail that an error carries.
pub open spec fn error_detail(e: OmtError) -> Seq<char> {
    match e {
        OmtError::InvalidArgument(m) => m@,
        OmtError::Network(m) => m@,
        OmtError::Protocol(m) => m@,
        OmtError::Discovery(m) => m@,
        OmtError::Codec(m) => m@,
        OmtError::Io(m) => m@,
        OmtError::Vmx(m) => m@,
        OmtError::NotImplemented(m) => m@,
    }
}

impl OmtError {
    /// The error rendered for people: its kind's prefix, then its detail.
    pub fn to_string(&self) -> (r: String)
        ensures
            r@ == error_prefix(*self) + error_detail(*self),
    {
        let mut out = String::new();
        let (prefix, detail): (&str, &str) = match self {
            OmtError::InvalidArgument(m) => ("invalid argument: ", m.as_str()),
            OmtError::Network(m) => ("network error: ", m.as_str()),
            OmtError::Protocol(m) => ("protocol error: ", m.as_str()),
            OmtError::Discovery(m) => ("discovery error: ", m.as_str()),
            OmtError::Codec(m) => ("codec error: ", m.as_str()),
            OmtError::Io(m) => ("I/O error: ", m.as_str()),
            OmtError::Vmx(m) => ("VMX error: ", m.as_str()),
            OmtError::NotImplemented(m) => ("not implemented: ", *m),
        };
        push_str(&mut out, prefix);
        push_str(&mut out, detail);
        assert(Seq::<char>::empty() + prefix@ =~= prefix@);
        out
    }
}

} // verus!
