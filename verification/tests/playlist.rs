use hls_fetch::errors::HlsError;
use hls_fetch::playlist::Playlist;
use hls_fetch::playlist::ResolveStep;
use hls_fetch::playlist::resolve_playlist;
use hls_fetch::segment::SegmentInfo;
use hls_fetch::segment::VariantInfo;
use hls_fetch::variant::VariantPolicy;

fn media() -> Playlist {
    Playlist::Media {
        segments: vec![
            SegmentInfo { uri: "a.ts".to_string(), duration_ms: 2000 },
            SegmentInfo { uri: "b.ts".to_string(), duration_ms: 3000 },
        ],
    }
}

fn master() -> Playlist {
    Playlist::Master {
        variants: vec![
            VariantInfo { bandwidth: 2000, uri: "high.m3u8".to_string() },
            VariantInfo { bandwidth: 500, uri: "low.m3u8".to_string() },
            VariantInfo { bandwidth: 1000, uri: "mid.m3u8".to_string() },
        ],
    }
}

#[test]
fn media_playlist_is_final() {
    let r = resolve_playlist("http://h/x.m3u8", media(), &VariantPolicy::Highest).unwrap();
    match r {
        ResolveStep::Ready { effective_url, segments } => {
            assert_eq!(effective_url, "http://h/x.m3u8");
            assert_eq!(segments.len(), 2);
            assert_eq!(segments[0].uri, "a.ts");
            assert_eq!(segments[1].duration_ms, 3000);
        }
        _ => panic!("a media playlist must resolve to Ready"),
    }
}

#[test]
fn master_resolves_the_chosen_variant_url() {
    // index 1 of the bandwidth-sorted list [500, 1000, 2000] is the 1000
    // variant; its URI resolves against the root, query carried forward
    let r = resolve_playlist(
        "http://h/dir/master.m3u8?tok=9",
        master(),
        &VariantPolicy::Index(1),
    )
    .unwrap();
    match r {
        ResolveStep::FetchMedia { media_url } => {
            assert_eq!(media_url, "http://h/dir/mid.m3u8?tok=9");
        }
        _ => panic!("a master playlist must ask for the media playlist"),
    }
}

#[test]
fn master_with_highest_policy_picks_the_top_bandwidth() {
    let r = resolve_playlist("http://h/master.m3u8", master(), &VariantPolicy::Highest).unwrap();
    match r {
        ResolveStep::FetchMedia { media_url } => assert_eq!(media_url, "http://h/high.m3u8"),
        _ => panic!("expected a media-playlist fetch"),
    }
}

#[test]
fn empty_master_is_an_error() {
    let r = resolve_playlist(
        "http://h/master.m3u8",
        Playlist::Master { variants: Vec::new() },
        &VariantPolicy::Lowest,
    );
    assert_eq!(r.unwrap_err(), HlsError::EmptyVariantList);
}

#[test]
fn unresolvable_variant_uri_is_a_parse_error() {
    let r = resolve_playlist(
        "not a url",
        Playlist::Master {
            variants: vec![VariantInfo { bandwidth: 500, uri: "low.m3u8".to_string() }],
        },
        &VariantPolicy::Lowest,
    );
    assert_eq!(r.unwrap_err(), HlsError::Parse);
}

#[test]
fn bandwidth_listing_for_a_master_playlist() {
    assert_eq!(
        hls_fetch::playlist::playlist_bandwidths(master()),
        vec![500, 1000, 2000]
    );
}

#[test]
fn bandwidth_listing_for_a_media_playlist_is_empty() {
    assert_eq!(hls_fetch::playlist::playlist_bandwidths(media()), Vec::<u64>::new());
}

#[test]
fn errors_describe_themselves() {
    assert_eq!(HlsError::Parse.describe(), "playlist could not be parsed");
    assert_eq!(HlsError::EmptyVariantList.describe(), "master playlist has no variants");
    assert_eq!(HlsError::Network.describe(), "network failure");
    assert_eq!(HlsError::Sink.describe(), "sink failure");
}
