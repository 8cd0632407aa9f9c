//! Playlist classification and the resolver's decision step.
//!
//! Fetching and document parsing happen outside; what arrives here is the
//! parsed playlist as plain data. One decision step then either finishes —
//! a media playlist is the segment list, at the URL it was fetched from —
//! or says which URL to fetch next: the media playlist of the variant the
//! policy chose, resolved against the root URL with its query carried
//! forward.

use vstd::prelude::*;
use crate::errors::HlsError;
use crate::segment::SegmentInfo;
use crate::segment::VariantInfo;
use crate::urls::resolve_target_spec;
use crate::urls::resolve_target_url;
use crate::variant::VariantPolicy;
use crate::variant::bandwidths_of;
use crate::variant::choose_variant;
use crate::variant::chosen_variant_ok;
use crate::variant::sorted_bandwidths;

verus! {

/// A parsed playlist: either a master playlist offering bandwidth
/// variants, or a media playlist carrying the segment list itself.
pub enum Playlist {
    Master { variants: Vec<VariantInfo> },
    Media { segments: Vec<SegmentInfo> },
}

/// What one resolver step decides: the session is ready to select and
/// fetch segments, or one more fetch is needed first.
#[derive(Debug)]
pub enum ResolveStep {
    /// The playlist at `effective_url` is the media playlist: these are its
    /// segments.
    Ready { effective_url: String, segments: Vec<SegmentInfo> },
    /// The root was a master playlist: fetch the media playlist at this
    /// resolved URL and feed it back in.
    FetchMedia { media_url: String },
}

/// The bandwidths a playlist offers a user to choose from, ascending: a
/// master playlist's variant bandwidths, nothing for a media playlist
/// (there is nothing to choose).
pub fn playlist_bandwidths(playlist: Playlist) -> (r: Vec<u64>)
    ensures
        match playlist {
            Playlist::Master { variants } => {
                &&& forall|i: int, j: int| 0 <= i < j < r@.len() ==> r@[i] <= r@[j]
                &&& r@.to_multiset() == bandwidths_of(variants@).to_multiset()
            },
            Playlist::Media { .. } => r@.len() == 0,
        },
{
    match playlist {
        Playlist::Master { variants } => sorted_bandwidths(variants),
        Playlist::Media { .. } => Vec::new(),
    }
}

/// Decide what follows from one fetched-and-parsed playlist.
///
/// A media playlist is final: the effective URL is the URL it was fetched
/// from, the segments are its own. A master playlist yields the URL of the
/// policy-chosen variant's media playlist, resolved against `root_url`
/// with the root's query string carried forward; an empty variant list and
/// an unresolvable variant URI are errors.
pub fn resolve_playlist(root_url: &str, playlist: Playlist, policy: &VariantPolicy) -> (r: Result<
    ResolveStep,
    HlsError,
>)
    requires
        match playlist {
            Playlist::Master { ref variants } => match policy {
                VariantPolicy::Index(i) => variants@.len() == 0 || (i as int) < variants@.len(),
                _ => true,
            },
            Playlist::Media { .. } => true,
        },
    ensures
        match playlist {
            Playlist::Media { segments } => r matches Ok(
                ResolveStep::Ready { effective_url, segments: s2 },
            ) && effective_url@ == root_url@ && s2@ == segments@,
            Playlist::Master { variants } => {
                if variants@.len() == 0 {
                    r == Err::<ResolveStep, HlsError>(HlsError::EmptyVariantList)
                } else {
                    exists|v: VariantInfo|
                        #[trigger] chosen_variant_ok(variants@, *policy, v) && (match
                            resolve_target_spec(root_url@, v.uri@) {
                            Option::Some(u) => r matches Ok(ResolveStep::FetchMedia { media_url })
                                && media_url@ == u,
                            Option::None => r == Err::<ResolveStep, HlsError>(HlsError::Parse),
                        })
                }
            },
        },
{
    match playlist {
        Playlist::Media { segments } => {
            Ok(ResolveStep::Ready { effective_url: root_url.to_owned(), segments })
        },
        Playlist::Master { variants } => {
            let ghost vs = variants@;
            let chosen = match choose_variant(variants, policy) {
                Ok(c) => c,
                Err(e) => {
                    return Err(e);
                },
            };
            let resolved = resolve_target_url(root_url, chosen.uri.as_str());
            proof {
                assert(chosen_variant_ok(vs, *policy, chosen));
            }
            match resolved {
                Some(u) => Ok(ResolveStep::FetchMedia { media_url: u }),
                None => Err(HlsError::Parse),
            }
        },
    }
}

} // verus!
