//! Redirection of an OMT stream from one address to another.
use vstd::prelude::*;
use crate::error::OmtError;
use crate::text::owned;

verus! {

broadcast use vstd::string::group_string_axioms;

/// Redirects an OMT stream from one address to another.
#[derive(Debug)]
pub struct Redirect {
    source: String,
    destination: String,
}

impl Redirect {
    /// The source address.
    pub closed spec fn source_view(&self) -> Seq<char> {
        self.source@
    }

    /// The destination address.
    pub closed spec fn destination_view(&self) -> Seq<char> {
        self.destination@
    }

    /// Create a redirect from `source` to `destination`.
    pub fn new(source: &str, destination: &str) -> (r: Redirect)
        ensures
            r.source_view() == source@,
            r.destination_view() == destination@,
    {
        Redirect { source: owned(source), destination: owned(destination) }
    }

    /// Source address.
    pub fn source(&self) -> (r: &str)
        ensures
            r@ == self.source_view(),
    {
        self.source.as_str()
    }

    /// Destination address.
    pub fn destination(&self) -> (r: &str)
        ensures
            r@ == self.destination_view(),
    {
        self.destination.as_str()
    }

    /// Run the redirect: not implemented yet.
    pub fn run(&mut self) -> (r: Result<(), OmtError>)
        ensures
            r == Err::<(), OmtError>(OmtError::NotImplemented("Redirect::run")),
            final(self).source_view() == old(self).source_view(),
            final(self).destination_view() == old(self).destination_view(),
    {
        Err(OmtError::NotImplemented("Redirect::run"))
    }
}

} // verus!
