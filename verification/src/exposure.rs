//! Exposure learning: clusters emerge from sweeps, with no training.
//!
//! An exposure pass shows the inputs one by one to a growing set of
//! prototypes.  An input that resonates with a prototype joins that
//! prototype's cluster; an input that resonates with none becomes a new
//! prototype.  Superposition then replaces each input by the majority
//! bundle of the prototypes it activates, the input of the next layer.
use vstd::prelude::*;
use crate::bits::bit;
use crate::container::{Container, majority_bit, votes, lemma_votes_le, lemma_votes_permutation};
use crate::hdr::{HdrConfig, HDR_HOT_THRESHOLD, HDR_MID_THRESHOLD, HDR_COLD_THRESHOLD};
use crate::staged::{SweepParams, hits, scanned, stop_from, views, is_hit, match_at, sorted_matches};
use crate::sweep::{hdr_sweep, SweepConfig};
use crate::ResonanceMatch;

verus! {

broadcast use vstd::seq_lib::group_to_multiset_ensures;

/// Activations propagated per input by superposition.
pub const TOP_K: usize = 20;

/// A cluster found by an exposure pass: its prototype and the indices of
/// the inputs assigned to it.
#[derive(Debug, Clone)]
pub struct Cluster {
    pub prototype: Container,
    pub members: Vec<usize>,
}

/// Sweep configuration of an exposure pass: `threshold` with a 3/2 safety
/// margin, the default bands and a result limit.
pub open spec fn exposure_config(threshold: u32, limit: usize) -> SweepConfig {
    SweepConfig {
        threshold,
        safety_num: 3,
        safety_den: 2,
        hdr: HdrConfig { hot: HDR_HOT_THRESHOLD, mid: HDR_MID_THRESHOLD, cold: HDR_COLD_THRESHOLD },
        limit,
    }
}

/// First prototype at or after `j` that the sweep reports for `q`.
pub open spec fn first_hit_from(q: Seq<u64>, cs: Seq<Seq<u64>>, p: SweepParams, j: int) -> Option<int>
    decreases cs.len() - j,
{
    if j >= cs.len() || j < 0 {
        None
    } else if is_hit(q, cs[j], p) {
        Some(j)
    } else {
        first_hit_from(q, cs, p, j + 1)
    }
}

/// Clusters after the first `i` inputs of an exposure pass: the input joins
/// the first prototype it resonates with, or founds a new cluster.
pub open spec fn exposure_clusters(inputs: Seq<Container>, threshold: u32, i: int) -> Seq<(Container, Seq<usize>)>
    decreases i,
{
    if i <= 0 {
        Seq::empty()
    } else {
        let prev = exposure_clusters(inputs, threshold, i - 1);
        let protos = prev.map_values(|c: (Container, Seq<usize>)| c.0.words@);
        let x = inputs[i - 1];
        match first_hit_from(x.words@, protos, exposure_config(threshold, 1).params(), 0) {
            Some(j) => prev.update(j, (prev[j].0, prev[j].1.push((i - 1) as usize))),
            None => prev.push((x, seq![(i - 1) as usize])),
        }
    }
}

/// Clusters as (prototype, members) pairs.
pub open spec fn cluster_views(cs: Seq<Cluster>) -> Seq<(Container, Seq<usize>)> {
    cs.map_values(|c: Cluster| (c.prototype, c.members@))
}

pub(crate) proof fn lemma_first_hit_range(q: Seq<u64>, cs: Seq<Seq<u64>>, p: SweepParams, j: int)
    requires
        0 <= j,
    ensures
        first_hit_from(q, cs, p, j) matches Some(k) ==> j <= k < cs.len() && is_hit(q, cs[k], p),
    decreases cs.len() - j,
{
    if j < cs.len() && !is_hit(q, cs[j], p) {
        lemma_first_hit_range(q, cs, p, j + 1);
    }
}

/// The first hit is the lowest-indexed prototype the sweep reports:
/// `Some(j)` exactly when prototype `j` is a hit and no earlier one is,
/// `None` exactly when no prototype is a hit.
pub proof fn lemma_first_hit_is_first(q: Seq<u64>, cs: Seq<Seq<u64>>, p: SweepParams, j: int)
    requires
        0 <= j,
    ensures
        first_hit_from(q, cs, p, j) matches Some(k) ==> j <= k < cs.len() && is_hit(q, cs[k], p) && forall|t: int|
            j <= t < k ==> !#[trigger] is_hit(q, cs[t], p),
        first_hit_from(q, cs, p, j) is None ==> forall|t: int| j <= t < cs.len() ==> !#[trigger] is_hit(q, cs[t], p),
    decreases cs.len() - j,
{
    if j < cs.len() && !is_hit(q, cs[j], p) {
        lemma_first_hit_is_first(q, cs, p, j + 1);
    }
}

/// With a result limit of 1 the sweep stops at the first hit: its only
/// match is that hit.
pub(crate) proof fn lemma_limit_one(q: Seq<u64>, cs: Seq<Seq<u64>>, p: SweepParams, k: int)
    requires
        p.limit == 1,
        0 <= k <= cs.len(),
        cs.len() <= usize::MAX,
        hits(q, cs, p, k).len() == 0,
    ensures
        hits(q, cs, p, stop_from(q, cs, p, k)) == match first_hit_from(q, cs, p, k) {
            Some(j) => seq![match_at(q, cs, p, j)],
            None => Seq::<ResonanceMatch>::empty(),
        },
    decreases cs.len() - k,
{
    if k < cs.len() {
        if is_hit(q, cs[k], p) {
            assert(hits(q, cs, p, k + 1) =~= seq![match_at(q, cs, p, k)]);
        } else {
            lemma_limit_one(q, cs, p, k + 1);
        }
    }
}

/// How an exposure pass shapes its clusters: each cluster's prototype is
/// the input that founded it (its first member); every later member
/// resonates with that prototype; and no member of a cluster resonates
/// with the prototype of an earlier cluster, since an input joins the
/// first prototype it resonates with and founds a cluster only when it
/// resonates with none.
pub proof fn lemma_exposure_clusters_resonate(inputs: Seq<Container>, threshold: u32, i: int)
    requires
        0 <= i <= inputs.len(),
        i <= usize::MAX,
    ensures
        ({
            let cl = exposure_clusters(inputs, threshold, i);
            let p = exposure_config(threshold, 1).params();
            &&& forall|c: int| 0 <= c < cl.len() ==> (#[trigger] cl[c]).1.len() > 0 && cl[c].0 == inputs[cl[c].1[0] as int]
            &&& forall|c: int, t: int|
                0 <= c < cl.len() && 0 < t < cl[c].1.len() ==> is_hit(
                    inputs[#[trigger] cl[c].1[t] as int].words@,
                    cl[c].0.words@,
                    p,
                )
            &&& forall|c: int, t: int, d: int|
                0 <= d < c < cl.len() && 0 <= t < cl[c].1.len() ==> !is_hit(
                    inputs[#[trigger] cl[c].1[t] as int].words@,
                    #[trigger] cl[d].0.words@,
                    p,
                )
        }),
    decreases i,
{
    if i > 0 {
        lemma_exposure_clusters_resonate(inputs, threshold, i - 1);
        let prev = exposure_clusters(inputs, threshold, i - 1);
        let protos = prev.map_values(|c: (Container, Seq<usize>)| c.0.words@);
        let x = inputs[i - 1];
        let p = exposure_config(threshold, 1).params();
        let cl = exposure_clusters(inputs, threshold, i);
        lemma_first_hit_is_first(x.words@, protos, p, 0);
        match first_hit_from(x.words@, protos, p, 0) {
            Some(j) => {
                assert(protos[j] == prev[j].0.words@);
                assert(cl == prev.update(j, (prev[j].0, prev[j].1.push((i - 1) as usize))));
                assert(cl[j].1 == prev[j].1.push((i - 1) as usize));
                assert forall|c: int, t: int, d: int|
                    0 <= d < c < cl.len() && 0 <= t < cl[c].1.len() implies !is_hit(
                        inputs[#[trigger] cl[c].1[t] as int].words@,
                        #[trigger] cl[d].0.words@,
                        p,
                    ) by {
                    assert(cl[d].0 == prev[d].0);
                    assert(cl[c].0 == prev[c].0);
                    if c == j && t == cl[c].1.len() - 1 {
                        assert(cl[c].1[t] == (i - 1) as usize);
                        assert(protos[d] == prev[d].0.words@);
                    } else {
                        assert(cl[c].1[t] == prev[c].1[t]);
                    }
                }
                assert forall|c: int, t: int|
                    0 <= c < cl.len() && 0 < t < cl[c].1.len() implies is_hit(
                        inputs[#[trigger] cl[c].1[t] as int].words@,
                        cl[c].0.words@,
                        p,
                    ) by {
                    assert(cl[c].0 == prev[c].0);
                    if c == j && t == cl[c].1.len() - 1 {
                        assert(cl[c].1[t] == (i - 1) as usize);
                    } else {
                        assert(cl[c].1[t] == prev[c].1[t]);
                    }
                }
                assert forall|c: int| 0 <= c < cl.len() implies (#[trigger] cl[c]).1.len() > 0 && cl[c].0
                    == inputs[cl[c].1[0] as int] by {
                    assert(cl[c].1[0] == prev[c].1[0]);
                }
            },
            None => {
                assert(cl == prev.push((x, seq![(i - 1) as usize])));
                assert forall|c: int, t: int, d: int|
                    0 <= d < c < cl.len() && 0 <= t < cl[c].1.len() implies !is_hit(
                        inputs[#[trigger] cl[c].1[t] as int].words@,
                        #[trigger] cl[d].0.words@,
                        p,
                    ) by {
                    assert(cl[d] == prev[d]);
                    if c == cl.len() - 1 {
                        assert(cl[c].1[t] == (i - 1) as usize);
                        assert(protos[d] == prev[d].0.words@);
                    } else {
                        assert(cl[c] == prev[c]);
                    }
                }
                assert forall|c: int, t: int|
                    0 <= c < cl.len() && 0 < t < cl[c].1.len() implies is_hit(
                        inputs[#[trigger] cl[c].1[t] as int].words@,
                        cl[c].0.words@,
                        p,
                    ) by {
                    assert(cl[c] == prev[c]);
                }
                assert forall|c: int| 0 <= c < cl.len() implies (#[trigger] cl[c]).1.len() > 0 && cl[c].0
                    == inputs[cl[c].1[0] as int] by {
                    if c < cl.len() - 1 {
                        assert(cl[c] == prev[c]);
                    }
                }
            },
        }
    }
}

/// Some cluster has `x` among its members.
pub open spec fn in_some_cluster(cl: Seq<(Container, Seq<usize>)>, x: usize) -> bool {
    exists|c: int| 0 <= c < cl.len() && #[trigger] cl[c].1.contains(x)
}

/// Every input of an exposure pass lands in exactly one cluster: after the
/// first `i` inputs there are at most `i` clusters, none empty, every
/// member is below `i`, and each input below `i` is a member of one
/// cluster and of no other.
pub proof fn lemma_exposure_partition(inputs: Seq<Container>, threshold: u32, i: int)
    requires
        0 <= i <= inputs.len(),
        i <= usize::MAX,
    ensures
        ({
            let cl = exposure_clusters(inputs, threshold, i);
            &&& cl.len() <= i
            &&& forall|c: int| 0 <= c < cl.len() ==> (#[trigger] cl[c]).1.len() > 0
            &&& forall|c: int, x: usize| 0 <= c < cl.len() && #[trigger] cl[c].1.contains(x) ==> x < i
            &&& forall|x: usize| 0 <= x < i ==> #[trigger] in_some_cluster(cl, x)
            &&& forall|c1: int, c2: int, x: usize|
                0 <= c1 < cl.len() && 0 <= c2 < cl.len() && #[trigger] cl[c1].1.contains(x) && #[trigger] cl[c2].1.contains(x)
                    ==> c1 == c2
        }),
    decreases i,
{
    if i > 0 {
        lemma_exposure_partition(inputs, threshold, i - 1);
        let prev = exposure_clusters(inputs, threshold, i - 1);
        let cl = exposure_clusters(inputs, threshold, i);
        let protos = prev.map_values(|c: (Container, Seq<usize>)| c.0.words@);
        let x_in = inputs[i - 1];
        let p = exposure_config(threshold, 1).params();
        let n = (i - 1) as usize;
        lemma_first_hit_range(x_in.words@, protos, p, 0);
        match first_hit_from(x_in.words@, protos, p, 0) {
            Some(j) => {
                assert(cl == prev.update(j, (prev[j].0, prev[j].1.push(n))));
                assert forall|c: int, x: usize| 0 <= c < cl.len() && #[trigger] cl[c].1.contains(x) implies x < i by {
                    if c == j && x != n {
                        assert(prev[j].1.push(n).contains(x));
                        let t = choose|t: int| 0 <= t < prev[j].1.push(n).len() && prev[j].1.push(n)[t] == x;
                        assert(prev[j].1.contains(x));
                    }
                }
                assert forall|x: usize| 0 <= x < i implies #[trigger] in_some_cluster(cl, x) by {
                    if x == n {
                        assert(cl[j].1[cl[j].1.len() - 1] == n);
                        assert(cl[j].1.contains(x));
                    } else {
                        assert(in_some_cluster(prev, x));
                        let c = choose|c: int| 0 <= c < prev.len() && #[trigger] prev[c].1.contains(x);
                        let t = choose|t: int| 0 <= t < prev[c].1.len() && prev[c].1[t] == x;
                        if c == j {
                            assert(cl[c].1[t] == x);
                        }
                        assert(cl[c].1.contains(x));
                    }
                }
                assert forall|c1: int, c2: int, x: usize|
                    0 <= c1 < cl.len() && 0 <= c2 < cl.len() && #[trigger] cl[c1].1.contains(x) && #[trigger] cl[c2].1.contains(x)
                    implies c1 == c2 by {
                    lemma_contains_after_push(prev, j, n, c1, x);
                    lemma_contains_after_push(prev, j, n, c2, x);
                }
            },
            None => {
                assert(cl == prev.push((x_in, seq![n])));
                assert forall|c: int, x: usize| 0 <= c < cl.len() && #[trigger] cl[c].1.contains(x) implies x < i by {
                    if c == prev.len() {
                        assert(cl[c].1 == seq![n]);
                    }
                }
                assert forall|x: usize| 0 <= x < i implies #[trigger] in_some_cluster(cl, x) by {
                    if x == n {
                        assert(cl[prev.len() as int].1 == seq![n]);
                        assert(cl[prev.len() as int].1[0] == n);
                        assert(cl[prev.len() as int].1.contains(x));
                    } else {
                        assert(in_some_cluster(prev, x));
                        let c = choose|c: int| 0 <= c < prev.len() && #[trigger] prev[c].1.contains(x);
                        assert(cl[c] == prev[c]);
                    }
                }
                assert forall|c1: int, c2: int, x: usize|
                    0 <= c1 < cl.len() && 0 <= c2 < cl.len() && #[trigger] cl[c1].1.contains(x) && #[trigger] cl[c2].1.contains(x)
                    implies c1 == c2 by {
                    if c1 == prev.len() {
                        assert(cl[c1].1 == seq![n]);
                        assert(x == n);
                    }
                    if c2 == prev.len() {
                        assert(cl[c2].1 == seq![n]);
                        assert(x == n);
                    }
                    if c1 < prev.len() {
                        assert(cl[c1] == prev[c1]);
                    }
                    if c2 < prev.len() {
                        assert(cl[c2] == prev[c2]);
                    }
                }
            },
        }
    }
}

/// Membership after adding `n` to cluster `j`: old members stay where they
/// were, and `n` is only in cluster `j`.
proof fn lemma_contains_after_push(prev: Seq<(Container, Seq<usize>)>, j: int, n: usize, c: int, x: usize)
    requires
        0 <= j < prev.len(),
        0 <= c < prev.len(),
        forall|c2: int, y: usize| 0 <= c2 < prev.len() && #[trigger] prev[c2].1.contains(y) ==> y < n,
    ensures
        prev.update(j, (prev[j].0, prev[j].1.push(n)))[c].1.contains(x) <==> (prev[c].1.contains(x) || (c == j && x == n)),
{
    let cl = prev.update(j, (prev[j].0, prev[j].1.push(n)));
    if c == j {
        let s = prev[j].1;
        if s.push(n).contains(x) {
            let t = choose|t: int| 0 <= t < s.push(n).len() && s.push(n)[t] == x;
            if t < s.len() {
                assert(s[t] == x);
            }
        }
        if s.contains(x) {
            let t = choose|t: int| 0 <= t < s.len() && s[t] == x;
            assert(s.push(n)[t] == x);
        }
        if x == n {
            assert(s.push(n)[s.len() as int] == n);
        }
    }
}

/// Prototype of each cluster.
fn prototypes_of(clusters: &Vec<Cluster>) -> (r: Vec<Container>)
    ensures
        r@ == clusters@.map_values(|c: Cluster| c.prototype),
{
    let mut out: Vec<Container> = Vec::new();
    for k in 0..clusters.len()
        invariant
            out@ == clusters@.map_values(|c: Cluster| c.prototype).take(k as int),
    {
        out.push(clusters[k].prototype);
        assert(clusters@.map_values(|c: Cluster| c.prototype).take(k + 1) =~= clusters@.map_values(
            |c: Cluster| c.prototype,
        ).take(k as int).push(clusters@[k as int].prototype));
    }
    assert(clusters@.map_values(|c: Cluster| c.prototype).take(clusters@.len() as int) =~= clusters@.map_values(
        |c: Cluster| c.prototype,
    ));
    out
}

/// Exposure pass: sweep each input against the prototypes found so far
/// (threshold `threshold`, stopping at the first match).
/// A match adds the input to that cluster; no match makes the input a new
/// prototype.
pub fn exposure_pass(inputs: &[Container], threshold: u32) -> (r: Vec<Cluster>)
    requires
        128 * inputs@.len() <= u64::MAX,
    ensures
        cluster_views(r@) == exposure_clusters(inputs@, threshold, inputs@.len() as int),
{
    let mut config = SweepConfig::with_threshold(threshold);
    config.limit = 1;
    let mut clusters: Vec<Cluster> = Vec::new();
    let mut prototypes: Vec<Container> = Vec::new();
    let n = inputs.len();
    for idx in 0..n
        invariant
            n == inputs@.len(),
            128 * n <= u64::MAX,
            config == exposure_config(threshold, 1),
            cluster_views(clusters@) == exposure_clusters(inputs@, threshold, idx as int),
            prototypes@ == clusters@.map_values(|c: Cluster| c.prototype),
            clusters@.len() <= idx,
    {
        let input = inputs[idx];
        let ghost prev = exposure_clusters(inputs@, threshold, idx as int);
        let ghost protos = prev.map_values(|c: (Container, Seq<usize>)| c.0.words@);
        proof {
            assert(views(prototypes@) =~= protos);
            assert(exposure_config(threshold, 1) == config);
        }
        if prototypes.len() == 0 {
            let mut members: Vec<usize> = Vec::new();
            members.push(idx);
            assert(members@ =~= seq![idx]);
            let ghost old_clusters = clusters@;
            prototypes.push(input);
            clusters.push(Cluster { prototype: input, members });
            proof {
                assert(first_hit_from(input.words@, protos, config.params(), 0) is None);
                assert(clusters@ =~= old_clusters.push(Cluster { prototype: input, members }));
                assert(cluster_views(clusters@) =~= prev.push((input, seq![idx])));
            }
        } else {
            let result = hdr_sweep(&input, prototypes.as_slice(), &config);
            let ghost q = input.words@;
            let ghost p = config.params();
            proof {
                lemma_limit_one(q, protos, p, 0);
                lemma_first_hit_range(q, protos, p, 0);
            }
            if result.matches.len() > 0 {
                let best = result.matches[0];
                proof {
                    let j = first_hit_from(q, protos, p, 0);
                    let h = hits(q, protos, p, scanned(q, protos, p));
                    assert(result.matches@.contains(best));
                    assert(result.matches@.to_multiset().count(best) > 0);
                    assert(h.contains(best));
                    assert(j is Some);
                    assert(best == match_at(q, protos, p, j->0));
                }
                let ghost old_clusters = clusters@;
                let mut cl = clusters.remove(best.index);
                cl.members.push(idx);
                clusters.insert(best.index, cl);
                proof {
                    let j = best.index as int;
                    assert(clusters@ =~= old_clusters.update(j, cl));
                    assert(cluster_views(clusters@) =~= prev.update(j, (prev[j].0, prev[j].1.push(idx))));
                }
            } else {
                proof {
                    let h = hits(q, protos, p, scanned(q, protos, p));
                    assert(h.to_multiset().len() == 0);
                    if first_hit_from(q, protos, p, 0) is Some {
                        assert(h.len() == 1);
                    }
                }
                let mut members: Vec<usize> = Vec::new();
                members.push(idx);
                assert(members@ =~= seq![idx]);
                let ghost old_clusters = clusters@;
                prototypes.push(input);
                clusters.push(Cluster { prototype: input, members });
                proof {
                    assert(clusters@ =~= old_clusters.push(Cluster { prototype: input, members }));
                    assert(cluster_views(clusters@) =~= prev.push((input, seq![idx])));
                }
            }
        }
        proof {
            assert(prototypes@ =~= clusters@.map_values(|c: Cluster| c.prototype));
        }
    }
    clusters
}

/// What superposition makes of `input`: the input itself when no prototype
/// resonates, the prototype when one does, and otherwise the majority
/// bundle of the resonating prototypes taken in (distance, index) order.
pub open spec fn superposed(input: Container, prototypes: Seq<Container>, threshold: u32, out: Container) -> bool {
    let q = input.words@;
    let cs = views(prototypes);
    let p = exposure_config(threshold, TOP_K).params();
    let h = hits(q, cs, p, scanned(q, cs, p));
    if h.len() == 0 {
        out == input
    } else if h.len() == 1 {
        out == prototypes[h[0].index as int]
    } else {
        exists|s: Seq<ResonanceMatch>|
            {
                &&& sorted_matches(s)
                &&& s.to_multiset() == h.to_multiset()
                &&& forall|w: int, b: nat|
                    0 <= w < 128 && b < 64 ==> #[trigger] bit(out.words@[w], b) == majority_bit(
                        s.map_values(|m: ResonanceMatch| prototypes[m.index as int].words@),
                        w,
                        b,
                    )
            }
    }
}

/// Superposition is the bitwise majority vote of every prototype the
/// input resonates with: with at least one match, each bit of the output
/// is set exactly when more than half of the matched prototypes (in any
/// order, here corpus order) have it set, so the nearest prototype has no
/// say beyond its own vote; a single match gives that prototype's bits;
/// with no match the input is kept.
pub proof fn lemma_superposed_is_majority(input: Container, prototypes: Seq<Container>, threshold: u32, out: Container)
    requires
        superposed(input, prototypes, threshold, out),
    ensures
        ({
            let q = input.words@;
            let cs = views(prototypes);
            let p = exposure_config(threshold, TOP_K).params();
            let h = hits(q, cs, p, scanned(q, cs, p));
            &&& h.len() == 0 ==> out == input
            &&& h.len() > 0 ==> forall|w: int, b: nat|
                0 <= w < 128 && b < 64 ==> #[trigger] bit(out.words@[w], b) == if 2 * votes(
                    h.map_values(|m: ResonanceMatch| prototypes[m.index as int].words@),
                    w,
                    b,
                    h.len() as int,
                ) > h.len() {
                    1nat
                } else {
                    0nat
                }
            &&& h.len() == 1 ==> forall|w: int, b: nat|
                0 <= w < 128 && b < 64 ==> #[trigger] bit(out.words@[w], b) == bit(
                    prototypes[h[0].index as int].words@[w],
                    b,
                )
        }),
{
    let q = input.words@;
    let cs = views(prototypes);
    let p = exposure_config(threshold, TOP_K).params();
    let h = hits(q, cs, p, scanned(q, cs, p));
    let f = |m: ResonanceMatch| prototypes[m.index as int].words@;
    if h.len() == 1 {
        assert forall|w: int, b: nat| 0 <= w < 128 && b < 64 implies #[trigger] bit(out.words@[w], b) == if 2
            * votes(h.map_values(f), w, b, h.len() as int) > h.len() {
            1nat
        } else {
            0nat
        } by {
            let v = h.map_values(f);
            assert(votes(v, w, b, 0) == 0);
            assert(votes(v, w, b, 1) == bit(v[0][w], b));
            lemma_votes_le(v, w, b, 1);
        }
    } else if h.len() > 1 {
        let s = choose|s: Seq<ResonanceMatch>|
            {
                &&& sorted_matches(s)
                &&& s.to_multiset() == h.to_multiset()
                &&& forall|w: int, b: nat|
                    0 <= w < 128 && b < 64 ==> #[trigger] bit(out.words@[w], b) == majority_bit(
                        s.map_values(|m: ResonanceMatch| prototypes[m.index as int].words@),
                        w,
                        b,
                    )
            };
        assert forall|w: int, b: nat| 0 <= w < 128 && b < 64 implies #[trigger] bit(out.words@[w], b) == if 2
            * votes(h.map_values(f), w, b, h.len() as int) > h.len() {
            1nat
        } else {
            0nat
        } by {
            lemma_votes_permutation(s, h, f, w, b);
            assert(s.map_values(|m: ResonanceMatch| prototypes[m.index as int].words@) =~= s.map_values(f));
        }
    }
}

/// Replace each input by the superposition of the prototypes it activates
/// (sweep with `threshold`, at most `TOP_K` matches).
/// Without clusters the inputs are returned unchanged.
pub fn superpose_activations(inputs: &[Container], clusters: &[Cluster], threshold: u32) -> (r: Vec<
    Container,
>)
    requires
        128 * clusters@.len() <= u64::MAX,
    ensures
        r@.len() == inputs@.len(),
        clusters@.len() == 0 ==> r@ == inputs@,
        clusters@.len() > 0 ==> forall|i: int|
            0 <= i < inputs@.len() ==> superposed(
                inputs@[i],
                clusters@.map_values(|c: Cluster| c.prototype),
                threshold,
                #[trigger] r@[i],
            ),
{
    if clusters.len() == 0 {
        return vstd::slice::slice_to_vec(inputs);
    }
    let mut prototypes: Vec<Container> = Vec::new();
    for k in 0..clusters.len()
        invariant
            prototypes@ == clusters@.map_values(|c: Cluster| c.prototype).take(k as int),
    {
        prototypes.push(clusters[k].prototype);
        assert(clusters@.map_values(|c: Cluster| c.prototype).take(k + 1) =~= clusters@.map_values(
            |c: Cluster| c.prototype,
        ).take(k as int).push(clusters@[k as int].prototype));
    }
    assert(clusters@.map_values(|c: Cluster| c.prototype).take(clusters@.len() as int)
        =~= clusters@.map_values(|c: Cluster| c.prototype));
    let mut config = SweepConfig::with_threshold(threshold);
    config.limit = TOP_K;
    let mut out: Vec<Container> = Vec::new();
    for i in 0..inputs.len()
        invariant
            prototypes@ == clusters@.map_values(|c: Cluster| c.prototype),
            128 * prototypes@.len() <= u64::MAX,
            config == exposure_config(threshold, TOP_K),
            out@.len() == i,
            forall|k: int| 0 <= k < i ==> superposed(inputs@[k], prototypes@, threshold, #[trigger] out@[k]),
    {
        let input = inputs[i];
        let result = hdr_sweep(&input, prototypes.as_slice(), &config);
        let ghost q = input.words@;
        let ghost cs = views(prototypes@);
        let ghost p = config.params();
        let ghost h = hits(q, cs, p, scanned(q, cs, p));
        proof {
            crate::staged::lemma_stop_from_bounds_pub(q, cs, p);
            crate::staged::lemma_hits_indices(q, cs, p, scanned(q, cs, p));
            assert(result.matches@.to_multiset().len() == h.to_multiset().len());
            assert(result.matches@.len() == h.len());
            assert forall|j: int| 0 <= j < result.matches@.len() implies (#[trigger] result.matches@[j]).index
                < prototypes@.len() by {
                let x = result.matches@[j];
                assert(result.matches@.contains(x));
                assert(result.matches@.to_multiset().count(x) > 0);
                assert(h.contains(x));
            }
        }
        let m = result.matches.len();
        let next = if m == 0 {
            input
        } else if m == 1 {
            let only = result.matches[0];
            proof {
                assert(result.matches@.contains(only));
                assert(result.matches@.to_multiset().count(only) > 0);
                assert(h.contains(only));
                assert(h[0] == only);
            }
            prototypes[only.index]
        } else {
            let take = if m < TOP_K { m } else { TOP_K };
            let mut activated: Vec<&Container> = Vec::new();
            for j in 0..take
                invariant
                    take <= result.matches@.len(),
                    forall|t: int| 0 <= t < result.matches@.len() ==> (#[trigger] result.matches@[t]).index
                        < prototypes@.len(),
                    activated@.len() == j,
                    forall|t: int| 0 <= t < j ==> (#[trigger] activated@[t]).words@
                        == prototypes@[result.matches@[t].index as int].words@,
            {
                let idx = result.matches[j].index;
                activated.push(&prototypes[idx]);
            }
            let act = activated.as_slice();
            let b = Container::bundle(act);
            proof {
                crate::staged::lemma_hits_len_le_limit(q, cs, p);
                assert(take == result.matches@.len());
                let s = result.matches@;
                assert(act@.map_values(|c: &Container| c.words@) =~= s.map_values(
                    |mm: ResonanceMatch| prototypes@[mm.index as int].words@,
                ));
            }
            b
        };
        out.push(next);
    }
    out
}

} // verus!
