//! Session-level error taxonomy.

use vstd::prelude::*;

verus! {

/// What can abort a download session or one of its steps.
///
/// Transport failures are fatal for the initial playlist fetch but only drop
/// the one segment when they hit a segment fetch; parse and sink failures are
/// always fatal for the session.
#[derive(Clone, Copy, Debug, PartialEq, Eq, Structural)]
pub enum HlsError {
    /// Transport-level failure while fetching a playlist or a segment.
    Network,
    /// The playlist bytes could not be classified or parsed, or a URL could
    /// not be resolved.
    Parse,
    /// A master playlist offered no bandwidth variants to choose from.
    EmptyVariantList,
    /// The downstream sink refused a write or the close signal.
    Sink,
}

impl HlsError {
    /// A short human-readable description, for callers that report errors.
    pub fn describe(&self) -> String {
        match self {
            HlsError::Network => String::from_str("network failure"),
            HlsError::Parse => String::from_str("playlist could not be parsed"),
            HlsError::EmptyVariantList => String::from_str("master playlist has no variants"),
            HlsError::Sink => String::from_str("sink failure"),
        }
    }
}

} // verus!
