//! Bandwidth-variant selection for master playlists.
//!
//! A master playlist offers one media playlist per bandwidth. The variants
//! are ordered by ascending bandwidth and the session's policy picks one:
//! the lowest, the highest, or a caller-chosen index into the sorted order.
//! The policy is a required configuration choice — there is deliberately no
//! default.

use vstd::prelude::*;
use vstd::seq_lib::*;
use vstd::multiset::Multiset;
use crate::errors::HlsError;
use crate::segment::VariantInfo;
use crate::segment::variant_model;

verus! {

broadcast use vstd::seq_lib::group_to_multiset_ensures;

proof fn lemma_add_insert_remove<V>(mr: Multiset<V>, mb: Multiset<V>, x: V)
    requires
        mb.count(x) > 0,
    ensures
        mr.insert(x).add(mb.remove(x)) =~= mr.add(mb),
{
    assert forall|y: V| mr.insert(x).add(mb.remove(x)).count(y) == mr.add(mb).count(y) by {
        if y == x {
            assert(Multiset::<V>::singleton(x).count(x) == 1);
        } else {
            assert(Multiset::<V>::singleton(x).count(y) == 0);
        }
    }
}

proof fn lemma_eq_after_remove<V>(m1: Multiset<V>, m2: Multiset<V>, x: V)
    requires
        m1.count(x) > 0,
        m2.count(x) > 0,
        m1.remove(x) == m2.remove(x),
    ensures
        m1 =~= m2,
{
    assert forall|y: V| m1.count(y) == m2.count(y) by {
        let sx = Multiset::<V>::singleton(x);
        assert(m1.remove(x).count(y) == m2.remove(x).count(y));
        assert(m1.remove(x).count(y) == if m1.count(y) >= sx.count(y) {
            m1.count(y) - sx.count(y)
        } else {
            0
        });
        assert(m2.remove(x).count(y) == if m2.count(y) >= sx.count(y) {
            m2.count(y) - sx.count(y)
        } else {
            0
        });
        if y == x {
            assert(sx.count(x) == 1);
        } else {
            assert(sx.count(y) == 0);
        }
    }
}

/// Which variant of a master playlist to download: the first of the
/// bandwidth-sorted list, the last, or the one at a caller-chosen index
/// into that sorted list.
pub enum VariantPolicy {
    Lowest,
    Highest,
    Index(usize),
}

/// Variants as their models, in order.
pub open spec fn variant_models(s: Seq<VariantInfo>) -> Seq<(nat, Seq<char>)> {
    s.map_values(|v: VariantInfo| variant_model(v))
}

/// Ascending bandwidth (duplicates allowed).
pub open spec fn sorted_by_bandwidth(s: Seq<VariantInfo>) -> bool {
    forall|i: int, j: int| 0 <= i < j < s.len() ==> s[i].bandwidth <= s[j].bandwidth
}

/// How many variants have bandwidth strictly below `b`.
pub open spec fn count_below(s: Seq<VariantInfo>, b: u64) -> int
    decreases s.len(),
{
    if s.len() == 0 {
        0
    } else {
        (if s[0].bandwidth < b {
            1int
        } else {
            0int
        }) + count_below(s.drop_first(), b)
    }
}

/// How many variants have bandwidth at most `b`.
pub open spec fn count_at_most(s: Seq<VariantInfo>, b: u64) -> int
    decreases s.len(),
{
    if s.len() == 0 {
        0
    } else {
        (if s[0].bandwidth <= b {
            1int
        } else {
            0int
        }) + count_at_most(s.drop_first(), b)
    }
}

proof fn lemma_count_remove(s: Seq<VariantInfo>, j: int, b: u64)
    requires
        0 <= j < s.len(),
    ensures
        count_below(s, b) == count_below(s.remove(j), b) + (if s[j].bandwidth < b {
            1int
        } else {
            0int
        }),
        count_at_most(s, b) == count_at_most(s.remove(j), b) + (if s[j].bandwidth <= b {
            1int
        } else {
            0int
        }),
    decreases s.len(),
{
    if j == 0 {
        assert(s.remove(0) =~= s.drop_first());
    } else {
        lemma_count_remove(s.drop_first(), j - 1, b);
        assert(s.remove(j).drop_first() =~= s.drop_first().remove(j - 1));
        assert(s.remove(j)[0] == s[0]);
        assert(s.drop_first()[j - 1] == s[j]);
    }
}

/// The counts depend only on which variants there are, not their order.
proof fn lemma_count_permutes(s1: Seq<VariantInfo>, s2: Seq<VariantInfo>, b: u64)
    requires
        variant_models(s1).to_multiset() == variant_models(s2).to_multiset(),
    ensures
        count_below(s1, b) == count_below(s2, b),
        count_at_most(s1, b) == count_at_most(s2, b),
    decreases s1.len(),
{
    if s1.len() == 0 {
        assert(variant_models(s1).to_multiset().len() == 0);
        assert(s2.len() == 0);
    } else {
        let x = variant_model(s1[0]);
        assert(variant_models(s1)[0] == x);
        assert(variant_models(s1).contains(x));
        assert(variant_models(s2).to_multiset().count(x) > 0);
        assert(variant_models(s2).contains(x));
        let j = choose|j: int| 0 <= j < variant_models(s2).len() && variant_models(s2)[j] == x;
        assert(variant_model(s2[j]) == x);
        assert(s2[j].bandwidth == s1[0].bandwidth);
        lemma_count_remove(s2, j, b);
        assert(s1.drop_first() =~= s1.remove(0));
        assert(variant_models(s1.remove(0)) =~= variant_models(s1).remove(0));
        assert(variant_models(s2.remove(j)) =~= variant_models(s2).remove(j));
        assert(variant_models(s1.remove(0)).to_multiset() =~= variant_models(
            s1,
        ).to_multiset().remove(x));
        assert(variant_models(s2.remove(j)).to_multiset() =~= variant_models(
            s2,
        ).to_multiset().remove(x));
        lemma_count_permutes(s1.drop_first(), s2.remove(j), b);
    }
}

/// In an ascending sequence, the entry at position `p` is the `p`-th order
/// statistic of the bandwidths: strictly smaller ones do not fill position
/// `p`, and those at most as large do cover it.
proof fn lemma_count_nonneg(s: Seq<VariantInfo>, b: u64)
    ensures
        count_below(s, b) >= 0,
        count_at_most(s, b) >= 0,
    decreases s.len(),
{
    if s.len() > 0 {
        lemma_count_nonneg(s.drop_first(), b);
    }
}

proof fn lemma_sorted_order_statistic(s: Seq<VariantInfo>, p: int)
    requires
        sorted_by_bandwidth(s),
        0 <= p < s.len(),
    ensures
        count_below(s, s[p].bandwidth) <= p,
        count_at_most(s, s[p].bandwidth) > p,
    decreases s.len(),
{
    let b = s[p].bandwidth;
    if p == 0 {
        lemma_count_all_ge(s, b);
        lemma_count_nonneg(s.drop_first(), b);
        assert(s[0].bandwidth <= b);
    } else {
        let q = s.drop_first();
        assert(s[0].bandwidth <= b);
        assert forall|i: int, j: int| 0 <= i < j < q.len() implies q[i].bandwidth
            <= q[j].bandwidth by {
            assert(q[i] == s[i + 1]);
            assert(q[j] == s[j + 1]);
        }
        assert(q[p - 1] == s[p]);
        lemma_sorted_order_statistic(q, p - 1);
    }
}

/// If every entry's bandwidth is at least `b`, none is strictly below it.
proof fn lemma_count_all_ge(s: Seq<VariantInfo>, b: u64)
    requires
        forall|i: int| 0 <= i < s.len() ==> s[i].bandwidth >= b,
    ensures
        count_below(s, b) == 0,
    decreases s.len(),
{
    if s.len() > 0 {
        assert forall|i: int| 0 <= i < s.drop_first().len() implies s.drop_first()[i].bandwidth
            >= b by {
            assert(s.drop_first()[i] == s[i + 1]);
        }
        lemma_count_all_ge(s.drop_first(), b);
    }
}

/// Order the variants by ascending bandwidth. The result holds exactly the
/// given variants (as a multiset of models), ascending.
pub fn sort_variants(variants: Vec<VariantInfo>) -> (r: Vec<VariantInfo>)
    ensures
        sorted_by_bandwidth(r@),
        variant_models(r@).to_multiset() == variant_models(variants@).to_multiset(),
        r@.len() == variants@.len(),
{
    let ghost orig = variants@;
    let mut rest = variants;
    let mut r: Vec<VariantInfo> = Vec::new();
    proof {
        assert(variant_models(r@).to_multiset().add(variant_models(rest@).to_multiset())
            =~= variant_models(orig).to_multiset());
    }
    while rest.len() > 0
        invariant
            sorted_by_bandwidth(r@),
            forall|a: int, b: int|
                0 <= a < r@.len() && 0 <= b < rest@.len() ==> (#[trigger] r@[a]).bandwidth
                    <= (#[trigger] rest@[b]).bandwidth,
            variant_models(r@).to_multiset().add(variant_models(rest@).to_multiset())
                == variant_models(orig).to_multiset(),
            r@.len() + rest@.len() == orig.len(),
        decreases rest.len(),
    {
        // find the position of a minimal remaining bandwidth
        let mut min_at: usize = 0;
        let mut i: usize = 1;
        while i < rest.len()
            invariant
                0 <= min_at < i <= rest@.len(),
                forall|m: int|
                    0 <= m < i ==> (#[trigger] rest@[m]).bandwidth >= rest@[min_at as int].bandwidth,
            decreases rest.len() - i,
        {
            if rest[i].bandwidth < rest[min_at].bandwidth {
                min_at = i;
            }
            i = i + 1;
        }
        let ghost before = rest@;
        let picked = rest.remove(min_at);
        let ghost rold = r@;
        r.push(picked);
        proof {
            assert(r@ =~= rold.push(picked));
            assert(variant_models(r@) =~= variant_models(rold).push(variant_model(picked)));
            assert(variant_models(rold).push(variant_model(picked)).to_multiset()
                =~= variant_models(rold).to_multiset().insert(variant_model(picked)));
            assert(variant_models(r@).to_multiset() =~= variant_models(rold).to_multiset().insert(
                variant_model(picked),
            ));
            assert(variant_models(before.remove(min_at as int)) =~= variant_models(before).remove(
                min_at as int,
            ));
            assert(variant_models(before)[min_at as int] == variant_model(picked));
            assert(variant_models(before).remove(min_at as int).to_multiset() =~= variant_models(
                before,
            ).to_multiset().remove(variant_model(picked)));
            assert(variant_models(rest@).to_multiset() =~= variant_models(
                before,
            ).to_multiset().remove(variant_model(picked)));
            assert(variant_models(before).contains(variant_model(picked)));
            assert(variant_models(before).to_multiset().count(variant_model(picked)) > 0);
            lemma_add_insert_remove(
                variant_models(rold).to_multiset(),
                variant_models(before).to_multiset(),
                variant_model(picked),
            );
            assert(variant_models(r@).to_multiset().add(variant_models(rest@).to_multiset())
                =~= variant_models(orig).to_multiset());
            assert forall|a: int, b: int|
                0 <= a < r@.len() && 0 <= b < rest@.len() implies (#[trigger] r@[a]).bandwidth
                <= (#[trigger] rest@[b]).bandwidth by {
                assert(rest@[b] == if b < min_at as int {
                    before[b]
                } else {
                    before[b + 1]
                });
                if a < r@.len() - 1 {
                    assert(r@[a].bandwidth <= picked.bandwidth);
                }
            }
        }
    }
    r
}

/// What the chosen variant satisfies: it is one of the given variants, and
/// its bandwidth is what the policy asked for — minimal under `Lowest`,
/// maximal under `Highest`, the `i`-th smallest under `Index(i)` (fewer
/// than `i + 1` of the given bandwidths lie strictly below it, at least
/// `i + 1` lie at or below it).
pub open spec fn chosen_variant_ok(variants: Seq<VariantInfo>, policy: VariantPolicy, v: VariantInfo) -> bool {
    &&& variant_models(variants).to_multiset().contains(variant_model(v))
    &&& (policy is Lowest ==> forall|i: int|
        0 <= i < variants.len() ==> v.bandwidth <= (#[trigger] variants[i]).bandwidth)
    &&& (policy is Highest ==> forall|i: int|
        0 <= i < variants.len() ==> v.bandwidth >= (#[trigger] variants[i]).bandwidth)
    &&& (policy matches VariantPolicy::Index(i) ==> count_below(variants, v.bandwidth) <= i as int
        && (i as int) < count_at_most(variants, v.bandwidth))
}

/// Sort the variants by ascending bandwidth and take the one the policy
/// points at.
///
/// An empty variant list is an error. Otherwise the chosen variant is one
/// of the given ones; under `Lowest`/`Highest` its bandwidth is minimal or
/// maximal among them, and under `Index(i)` it is the `i`-th smallest
/// bandwidth: fewer than `i + 1` of the variants lie strictly below it and
/// at least `i + 1` lie at or below it, counted over the given list.
pub fn choose_variant(variants: Vec<VariantInfo>, policy: &VariantPolicy) -> (r: Result<
    VariantInfo,
    HlsError,
>)
    requires
        match policy {
            VariantPolicy::Index(i) => variants@.len() == 0 || (i as int) < variants@.len(),
            _ => true,
        },
    ensures
        variants@.len() == 0 <==> r == Err::<VariantInfo, HlsError>(HlsError::EmptyVariantList),
        match r {
            Ok(v) => chosen_variant_ok(variants@, *policy, v),
            Err(e) => e == HlsError::EmptyVariantList,
        },
{
    let ghost orig = variants@;
    if variants.len() == 0 {
        return Err(HlsError::EmptyVariantList);
    }
    let mut sorted = sort_variants(variants);
    let n = sorted.len();
    let at: usize = match policy {
        VariantPolicy::Lowest => 0,
        VariantPolicy::Highest => n - 1,
        VariantPolicy::Index(i) => *i,
    };
    let ghost p = at as int;
    let ghost ss = sorted@;
    let v = sorted.remove(at);
    proof {
        assert(v == ss[p]);
        assert(variant_models(ss)[p] == variant_model(v));
        assert(variant_models(ss).contains(variant_model(v)));
        assert(variant_models(ss).to_multiset().count(variant_model(v)) > 0);
        match policy {
            VariantPolicy::Lowest => {
                assert forall|i: int| 0 <= i < orig.len() implies v.bandwidth
                    <= (#[trigger] orig[i]).bandwidth by {
                    assert(variant_models(orig)[i] == variant_model(orig[i]));
                    assert(variant_models(orig).contains(variant_model(orig[i])));
                    assert(variant_models(ss).to_multiset().count(variant_model(orig[i])) > 0);
                    assert(variant_models(ss).contains(variant_model(orig[i])));
                    let q = choose|q: int|
                        0 <= q < variant_models(ss).len() && variant_models(ss)[q]
                            == variant_model(orig[i]);
                    assert(ss[q].bandwidth == orig[i].bandwidth);
                    assert(v.bandwidth <= ss[q].bandwidth);
                }
            },
            VariantPolicy::Highest => {
                assert forall|i: int| 0 <= i < orig.len() implies v.bandwidth
                    >= (#[trigger] orig[i]).bandwidth by {
                    assert(variant_models(orig)[i] == variant_model(orig[i]));
                    assert(variant_models(orig).contains(variant_model(orig[i])));
                    assert(variant_models(ss).to_multiset().count(variant_model(orig[i])) > 0);
                    assert(variant_models(ss).contains(variant_model(orig[i])));
                    let q = choose|q: int|
                        0 <= q < variant_models(ss).len() && variant_models(ss)[q]
                            == variant_model(orig[i]);
                    assert(ss[q].bandwidth == orig[i].bandwidth);
                    assert(v.bandwidth >= ss[q].bandwidth);
                }
            },
            VariantPolicy::Index(_) => {
                lemma_sorted_order_statistic(ss, p);
                lemma_count_permutes(ss, orig, v.bandwidth);
            },
        }
    }
    Ok(v)
}

/// The bandwidths of the variants, in their order.
pub open spec fn bandwidths_of(s: Seq<VariantInfo>) -> Seq<u64> {
    s.map_values(|v: VariantInfo| v.bandwidth)
}

/// Bandwidth multisets are preserved across any reordering of the variants.
proof fn lemma_bandwidths_permute(s1: Seq<VariantInfo>, s2: Seq<VariantInfo>)
    requires
        variant_models(s1).to_multiset() == variant_models(s2).to_multiset(),
    ensures
        bandwidths_of(s1).to_multiset() == bandwidths_of(s2).to_multiset(),
    decreases s1.len(),
{
    if s1.len() == 0 {
        assert(variant_models(s1).to_multiset().len() == 0);
        assert(s2.len() == 0);
        assert(bandwidths_of(s1).to_multiset() =~= bandwidths_of(s2).to_multiset());
    } else {
        let x = variant_model(s1[0]);
        assert(variant_models(s1)[0] == x);
        assert(variant_models(s1).contains(x));
        assert(variant_models(s2).to_multiset().count(x) > 0);
        assert(variant_models(s2).contains(x));
        let j = choose|j: int| 0 <= j < variant_models(s2).len() && variant_models(s2)[j] == x;
        assert(variant_model(s2[j]) == x);
        assert(s2[j].bandwidth == s1[0].bandwidth);
        assert(s1.drop_first() =~= s1.remove(0));
        assert(variant_models(s1.remove(0)) =~= variant_models(s1).remove(0));
        assert(variant_models(s2.remove(j)) =~= variant_models(s2).remove(j));
        assert(variant_models(s1.remove(0)).to_multiset() =~= variant_models(
            s1,
        ).to_multiset().remove(x));
        assert(variant_models(s2.remove(j)).to_multiset() =~= variant_models(
            s2,
        ).to_multiset().remove(x));
        lemma_bandwidths_permute(s1.drop_first(), s2.remove(j));
        assert(bandwidths_of(s1.remove(0)) =~= bandwidths_of(s1).remove(0));
        assert(bandwidths_of(s2.remove(j)) =~= bandwidths_of(s2).remove(j));
        assert(bandwidths_of(s1.remove(0)).to_multiset() =~= bandwidths_of(
            s1,
        ).to_multiset().remove(s1[0].bandwidth));
        assert(bandwidths_of(s2.remove(j)).to_multiset() =~= bandwidths_of(
            s2,
        ).to_multiset().remove(s2[j].bandwidth));
        assert(bandwidths_of(s1)[0] == s1[0].bandwidth);
        assert(bandwidths_of(s1).contains(s1[0].bandwidth));
        assert(bandwidths_of(s1).to_multiset().count(s1[0].bandwidth) > 0);
        assert(bandwidths_of(s2)[j] == s2[j].bandwidth);
        assert(bandwidths_of(s2).contains(s2[j].bandwidth));
        assert(bandwidths_of(s2).to_multiset().count(s2[j].bandwidth) > 0);
        lemma_eq_after_remove(
            bandwidths_of(s1).to_multiset(),
            bandwidths_of(s2).to_multiset(),
            s1[0].bandwidth,
        );
        assert(bandwidths_of(s1).to_multiset() =~= bandwidths_of(s2).to_multiset());
    }
}

/// The bandwidths a master playlist offers, ascending: what a user
/// interface shows to let someone pick a variant index.
pub fn sorted_bandwidths(variants: Vec<VariantInfo>) -> (r: Vec<u64>)
    ensures
        forall|i: int, j: int| 0 <= i < j < r@.len() ==> r@[i] <= r@[j],
        r@.len() == variants@.len(),
        r@.to_multiset() == bandwidths_of(variants@).to_multiset(),
{
    let ghost orig = variants@;
    let sorted = sort_variants(variants);
    let ghost ss = sorted@;
    let mut r: Vec<u64> = Vec::new();
    let mut i: usize = 0;
    while i < sorted.len()
        invariant
            0 <= i <= sorted@.len(),
            sorted@ == ss,
            r@.len() == i,
            forall|m: int| 0 <= m < i ==> r@[m] == (#[trigger] ss[m]).bandwidth,
        decreases sorted@.len() - i,
    {
        r.push(sorted[i].bandwidth);
        i = i + 1;
    }
    proof {
        assert(r@ =~= bandwidths_of(ss));
        lemma_bandwidths_permute(ss, orig);
        assert forall|a: int, b: int| 0 <= a < b < r@.len() implies r@[a] <= r@[b] by {
            assert(r@[a] == ss[a].bandwidth);
            assert(r@[b] == ss[b].bandwidth);
        }
    }
    r
}

} // verus!
