use hls_fetch::urls::resolve_target_url;
use hls_fetch::urls::segment_url;

#[test]
fn relative_target_joins_onto_the_root() {
    let r = resolve_target_url("http://host/path/master.m3u8", "low/media.m3u8");
    assert_eq!(r.as_deref(), Some("http://host/path/low/media.m3u8"));
}

#[test]
fn root_query_is_carried_onto_the_resolved_target() {
    let r = resolve_target_url("http://host/path/master.m3u8?tok=1", "low/media.m3u8");
    assert_eq!(r.as_deref(), Some("http://host/path/low/media.m3u8?tok=1"));
}

#[test]
fn absolute_target_wins_but_still_gets_the_query() {
    let r = resolve_target_url(
        "http://host/master.m3u8?tok=1",
        "http://cdn.example.com/media.m3u8",
    );
    assert_eq!(r.as_deref(), Some("http://cdn.example.com/media.m3u8?tok=1"));
}

#[test]
fn unusable_root_resolves_nothing() {
    assert_eq!(resolve_target_url("not a url", "media.m3u8"), None);
}

#[test]
fn segment_uri_joins_onto_the_effective_url() {
    let r = segment_url("http://host/p/media.m3u8", "seg1.ts");
    assert_eq!(r.as_deref(), Some("http://host/p/seg1.ts"));
}

#[test]
fn segment_url_carries_the_query_forward() {
    let r = segment_url("http://host/p/media.m3u8?a=b", "seg1.ts");
    assert_eq!(r.as_deref(), Some("http://host/p/seg1.ts?a=b"));
}

#[test]
fn rooted_segment_uri_replaces_the_path() {
    let r = segment_url("http://host/p/q/media.m3u8", "/top/seg.ts");
    assert_eq!(r.as_deref(), Some("http://host/top/seg.ts"));
}

#[test]
fn segment_join_failure_is_none() {
    assert_eq!(segment_url("not a url", "seg1.ts"), None);
}
