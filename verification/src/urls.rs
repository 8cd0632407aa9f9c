//! URL resolution for playlists and segments.
//!
//! Variant and segment references inside a playlist are relative or absolute
//! URIs; they are resolved against the URL the playlist was fetched from,
//! and the original URL's query string is carried forward onto every
//! resolved URL (some origins put auth tokens there). The string work —
//! parsing, RFC 3986 reference resolution, query replacement — is done by
//! the `url` crate behind trusted wrappers; the decision structure around
//! them is verified.

use vstd::prelude::*;

verus! {

/// Serialized URLs stay below this many characters, comfortably clear of
/// the `url` parser's 4 GiB serialization cap.
pub const URL_LEN_CAP: usize = 0x0800_0000;

/// A `String` option as the character sequences it holds.
pub open spec fn str_opt_view(o: Option<String>) -> Option<Seq<char>> {
    match o {
        Option::Some(s) => Option::Some(s@),
        Option::None => Option::None,
    }
}

/// What `url::Url::parse` yields for this string, serialized — when it
/// parses and the result can serve as a base for relative references;
/// `None` otherwise.
pub uninterp spec fn parsed_base_of(s: Seq<char>) -> Option<Seq<char>>;

/// What `url::Url::join` yields, serialized, when `rel` is resolved
/// against the parsed `base`; `None` when either step fails.
pub uninterp spec fn joined_of(base: Seq<char>, rel: Seq<char>) -> Option<Seq<char>>;

/// The percent-encoded query part of this URL string; `None` both for a
/// URL without a query and for a string that does not parse.
pub uninterp spec fn query_of(s: Seq<char>) -> Option<Seq<char>>;

/// This URL string, serialized, with its query part replaced by `q`
/// (cleared for `None`); `None` when the string does not parse.
pub uninterp spec fn with_query_of(s: Seq<char>, q: Option<Seq<char>>) -> Option<Seq<char>>;

/// Relies on `url::Url::parse` and `url::Url::cannot_be_a_base`: both are
/// pure functions of the string; the result is the parsed URL's
/// serialization.
#[verifier::external_body]
fn url_parse_base(s: &str) -> (r: Option<String>)
    ensures
        str_opt_view(r) == parsed_base_of(s@),
{
    match url::Url::parse(s) {
        Ok(u) => {
            if u.cannot_be_a_base() {
                None
            } else {
                Some(String::from(u))
            }
        },
        Err(_) => None,
    }
}

/// Relies on `url::Url::join`, RFC 3986 reference resolution, a pure
/// function of base and reference; parsing the base is argument conversion.
#[verifier::external_body]
fn url_join(base: &str, rel: &str) -> (r: Option<String>)
    ensures
        str_opt_view(r) == joined_of(base@, rel@),
{
    match url::Url::parse(base) {
        Ok(b) => match b.join(rel) {
            Ok(u) => Some(String::from(u)),
            Err(_) => None,
        },
        Err(_) => None,
    }
}

/// Relies on `url::Url::query`: the percent-encoded query part, a pure
/// function of the URL string; parsing it is argument conversion.
#[verifier::external_body]
fn url_query(s: &str) -> (r: Option<String>)
    ensures
        str_opt_view(r) == query_of(s@),
{
    match url::Url::parse(s) {
        Ok(u) => u.query().map(|q| q.to_owned()),
        Err(_) => None,
    }
}

/// Relies on `url::Url::set_query`, a pure function of the URL string and
/// the new query; parsing the string is argument conversion. The length
/// bounds keep the serialization clear of the parser's 4 GiB cap, past
/// which `set_query` could panic.
#[verifier::external_body]
fn url_with_query(s: &str, q: Option<&str>) -> (r: Option<String>)
    requires
        s@.len() <= URL_LEN_CAP,
        q matches Option::Some(qs) ==> qs@.len() <= URL_LEN_CAP,
    ensures
        str_opt_view(r) == with_query_of(
            s@,
            match q {
                Option::Some(qs) => Option::Some(qs@),
                Option::None => Option::None,
            },
        ),
{
    match url::Url::parse(s) {
        Ok(mut u) => {
            u.set_query(q);
            Some(String::from(u))
        },
        Err(_) => None,
    }
}

/// Whether a query part is small enough to carry forward.
pub open spec fn query_fits(q: Option<Seq<char>>) -> bool {
    match q {
        Option::Some(qs) => qs.len() <= URL_LEN_CAP,
        Option::None => true,
    }
}

/// How a target reference found in a playlist resolves against the URL the
/// playlist came from: a target that parses as an absolute, base-capable
/// URL wins; anything else is joined onto the original URL; and the
/// original URL's query string is put onto the outcome.
pub open spec fn resolve_target_spec(org: Seq<char>, target: Seq<char>) -> Option<Seq<char>> {
    let joined = match parsed_base_of(target) {
        Option::Some(u) => Option::Some(u),
        Option::None => joined_of(org, target),
    };
    let q = query_of(org);
    match joined {
        Option::Some(u) => {
            if u.len() <= URL_LEN_CAP && query_fits(q) {
                with_query_of(u, q)
            } else {
                Option::None
            }
        },
        Option::None => Option::None,
    }
}

/// The absolute URL of one segment: the segment's URI joined onto the
/// playlist's effective URL, with that URL's query string carried forward.
pub open spec fn segment_url_spec(effective: Seq<char>, uri: Seq<char>) -> Option<Seq<char>> {
    let q = query_of(effective);
    match joined_of(effective, uri) {
        Option::Some(u) => {
            if u.len() <= URL_LEN_CAP && query_fits(q) {
                with_query_of(u, q)
            } else {
                Option::None
            }
        },
        Option::None => Option::None,
    }
}

/// Resolve a master-playlist variant reference (or any playlist-level
/// reference) against the URL it was found at. `None` when neither direct
/// parsing nor joining yields a URL.
pub fn resolve_target_url(org: &str, target: &str) -> (r: Option<String>)
    ensures
        str_opt_view(r) == resolve_target_spec(org@, target@),
{
    let direct = url_parse_base(target);
    let joined = match direct {
        Some(u) => Some(u),
        None => url_join(org, target),
    };
    match joined {
        Some(u) => apply_query(org, u),
        None => None,
    }
}

/// Resolve one segment's URI against the media playlist's effective URL.
pub fn segment_url(effective: &str, uri: &str) -> (r: Option<String>)
    ensures
        str_opt_view(r) == segment_url_spec(effective@, uri@),
{
    match url_join(effective, uri) {
        Some(u) => apply_query(effective, u),
        None => None,
    }
}

/// Carry `org`'s query string onto the resolved URL `u`, guarding the
/// trusted layer's length cap.
fn apply_query(org: &str, u: String) -> (r: Option<String>)
    ensures
        str_opt_view(r) == ({
            let q = query_of(org@);
            if u@.len() <= URL_LEN_CAP && query_fits(q) {
                with_query_of(u@, q)
            } else {
                Option::None
            }
        }),
{
    let q = url_query(org);
    let q_ok = match &q {
        Some(qs) => qs.as_str().unicode_len() <= URL_LEN_CAP,
        None => true,
    };
    if u.as_str().unicode_len() <= URL_LEN_CAP && q_ok {
        match &q {
            Some(qs) => url_with_query(u.as_str(), Some(qs.as_str())),
            None => url_with_query(u.as_str(), None),
        }
    } else {
        None
    }
}

} // verus!
