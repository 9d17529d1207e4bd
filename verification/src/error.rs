//! The failures of talking to a bookmaker's site.

use vstd::prelude::*;

verus! {

/// A failure: of the network, an unexpected status code of a reply, or anything
/// unexpected in what the site sent, with its description.
#[derive(Debug)]
pub enum SiteError {
    Network(String),
    Status(u16),
    Unexpected(String),
}

} // verus!
