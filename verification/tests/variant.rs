use hls_fetch::errors::HlsError;
use hls_fetch::segment::VariantInfo;
use hls_fetch::variant::VariantPolicy;
use hls_fetch::variant::choose_variant;
use hls_fetch::variant::sort_variants;
use hls_fetch::variant::sorted_bandwidths;

fn variants(bandwidths: &[u64]) -> Vec<VariantInfo> {
    bandwidths
        .iter()
        .map(|&b| VariantInfo { bandwidth: b, uri: format!("v{}.m3u8", b) })
        .collect()
}

#[test]
fn sorting_orders_by_ascending_bandwidth() {
    let sorted = sort_variants(variants(&[2000, 500, 1000]));
    let bws: Vec<u64> = sorted.iter().map(|v| v.bandwidth).collect();
    assert_eq!(bws, vec![500, 1000, 2000]);
    assert_eq!(sorted[0].uri, "v500.m3u8");
}

#[test]
fn index_policy_picks_into_the_sorted_order() {
    // bandwidths 500, 1000, 2000: index 1 of the bandwidth-sorted list is
    // the 1000 variant, whatever order the playlist listed them in
    let v = choose_variant(variants(&[2000, 500, 1000]), &VariantPolicy::Index(1)).unwrap();
    assert_eq!(v.bandwidth, 1000);
    assert_eq!(v.uri, "v1000.m3u8");
}

#[test]
fn lowest_and_highest_policies() {
    let lo = choose_variant(variants(&[2000, 500, 1000]), &VariantPolicy::Lowest).unwrap();
    assert_eq!(lo.bandwidth, 500);
    let hi = choose_variant(variants(&[2000, 500, 1000]), &VariantPolicy::Highest).unwrap();
    assert_eq!(hi.bandwidth, 2000);
}

#[test]
fn empty_variant_list_is_an_error() {
    let r = choose_variant(Vec::new(), &VariantPolicy::Highest);
    assert_eq!(r.unwrap_err(), HlsError::EmptyVariantList);
}

#[test]
fn duplicate_bandwidths_still_sort_and_choose() {
    let v = choose_variant(variants(&[1000, 500, 1000]), &VariantPolicy::Index(2)).unwrap();
    assert_eq!(v.bandwidth, 1000);
}

#[test]
fn bandwidth_listing_is_sorted() {
    assert_eq!(sorted_bandwidths(variants(&[2000, 500, 1000])), vec![500, 1000, 2000]);
    assert_eq!(sorted_bandwidths(Vec::new()), Vec::<u64>::new());
}
