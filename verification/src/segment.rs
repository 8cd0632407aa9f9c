//! Plain data for playlist entries and selected segments.
//!
//! Durations are carried in whole milliseconds, so that contracts and
//! arithmetic stay over integers.

use vstd::prelude::*;

verus! {

/// One entry of a media playlist: a segment URI (relative or absolute) and
/// its nominal duration in milliseconds.
#[derive(Debug)]
pub struct SegmentInfo {
    pub uri: String,
    pub duration_ms: u64,
}

/// One bandwidth variant of a master playlist.
#[derive(Debug)]
pub struct VariantInfo {
    pub bandwidth: u64,
    pub uri: String,
}

/// A segment chosen for download. `sequence_index` is dense and zero-based
/// within the selected sub-range of one session; it is the reordering key for
/// reassembly, not the segment's position in the original playlist.
#[derive(Debug)]
pub struct Segment {
    pub sequence_index: usize,
    pub uri: String,
    pub duration_ms: u64,
}

/// Mathematical stand-in for a [`VariantInfo`]: (bandwidth, uri characters).
pub open spec fn variant_model(v: VariantInfo) -> (nat, Seq<char>) {
    (v.bandwidth as nat, v.uri@)
}

} // verus!
