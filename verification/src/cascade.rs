//! Resonance cascade: a multi-layer recognition pipeline.
//!
//! Each layer sweeps its own corpus; the containers of its best matches are
//! majority-bundled into the query of the next layer:
//!
//! ```text
//! Layer 1 (features): query   -> sweep -> activated features
//! Layer 2 (parts):    bundle  -> sweep -> activated parts
//! Layer 3 (objects):  bundle  -> sweep -> recognized objects
//! ```
use vstd::prelude::*;
use crate::bits::bit;
use crate::container::{Container, majority_bit, votes, lemma_votes_le};
use crate::staged::{hits, scanned, views, sorted_matches, instruction_count};
use crate::sweep::{hdr_sweep, sweep_matches, SweepConfig, SweepResult};
use crate::ResonanceMatch;

verus! {

broadcast use vstd::seq_lib::group_to_multiset_ensures;

/// A layer of the resonance cascade.
pub struct ResonanceLayer {
    /// Name for reporting.
    pub name: String,
    /// The container corpus of this layer.
    pub containers: Vec<Container>,
    /// Sweep configuration (threshold, metering stages, HDR bands).
    pub config: SweepConfig,
    /// How many top activations propagate to the next layer.
    pub top_k: usize,
}

/// Result of one layer of a cascade.
#[derive(Debug)]
pub struct LayerResult {
    pub name: String,
    pub matches: Vec<ResonanceMatch>,
    pub instructions: u64,
}

/// Result of a full cascade.
#[derive(Debug)]
pub struct CascadeResult {
    pub layer_results: Vec<LayerResult>,
    pub recognized: Vec<ResonanceMatch>,
}

/// The sweep of `layer` for `query` produced `matches` and `instructions`:
/// the matches are those of `hdr_sweep` of the query over the layer's
/// containers with the layer's configuration, the sweep hits sorted by
/// (distance, index).
pub open spec fn layer_outcome(
    layer: ResonanceLayer,
    query: Container,
    matches: Seq<ResonanceMatch>,
    instructions: u64,
) -> bool {
    let q = query.words@;
    let cs = views(layer.containers@);
    let p = layer.config.params();
    let m = scanned(q, cs, p);
    &&& matches == sweep_matches(query, layer.containers@, layer.config)
    &&& sorted_matches(matches)
    &&& matches.to_multiset() == hits(q, cs, p, m).to_multiset()
    &&& instructions == instruction_count(q, cs, p, m)
}

/// Word sequences of the containers that the first `min(top_k, len)`
/// matches point to.
pub open spec fn activated_views(layer: ResonanceLayer, matches: Seq<ResonanceMatch>) -> Seq<Seq<u64>> {
    let k = if layer.top_k < matches.len() { layer.top_k as int } else { matches.len() as int };
    Seq::new(k as nat, |j: int| layer.containers@[matches[j].index as int].words@)
}

/// The query handed to the next layer: the majority bundle of the
/// activated containers, or the same query when nothing was activated.
pub open spec fn next_query(
    layer: ResonanceLayer,
    query: Container,
    matches: Seq<ResonanceMatch>,
    next: Container,
) -> bool {
    if matches.len() == 0 || layer.top_k == 0 {
        next == query
    } else {
        forall|w: int, b: nat|
            0 <= w < 128 && b < 64 ==> #[trigger] bit(next.words@[w], b) == majority_bit(
                activated_views(layer, matches),
                w,
                b,
            )
    }
}

/// The next layer's query is the bitwise majority vote of the containers
/// of the first `min(top_k, matches)` matches: each bit is set exactly when
/// more than half of those containers have it set, so a single activated
/// match hands its own container on; with no match, or `top_k == 0`, the
/// query is kept.
pub proof fn lemma_next_query_majority(
    layer: ResonanceLayer,
    query: Container,
    matches: Seq<ResonanceMatch>,
    next: Container,
)
    requires
        next_query(layer, query, matches, next),
    ensures
        ({
            let k = if layer.top_k < matches.len() { layer.top_k as int } else { matches.len() as int };
            let act = Seq::new(k as nat, |j: int| layer.containers@[matches[j].index as int].words@);
            &&& k == 0 ==> next == query
            &&& k > 0 ==> forall|w: int, b: nat|
                0 <= w < 128 && b < 64 ==> #[trigger] bit(next.words@[w], b) == if 2 * votes(act, w, b, k) > k {
                    1nat
                } else {
                    0nat
                }
            &&& k == 1 ==> forall|w: int, b: nat|
                0 <= w < 128 && b < 64 ==> #[trigger] bit(next.words@[w], b) == bit(
                    layer.containers@[matches[0].index as int].words@[w],
                    b,
                )
        }),
{
    let k = if layer.top_k < matches.len() { layer.top_k as int } else { matches.len() as int };
    let act = Seq::new(k as nat, |j: int| layer.containers@[matches[j].index as int].words@);
    if k > 0 {
        assert(activated_views(layer, matches) =~= act);
    }
    if k == 1 {
        assert forall|w: int, b: nat| 0 <= w < 128 && b < 64 implies #[trigger] bit(next.words@[w], b) == bit(
            layer.containers@[matches[0].index as int].words@[w],
            b,
        ) by {
            assert(votes(act, w, b, 0) == 0);
            assert(votes(act, w, b, 1) == bit(act[0][w], b));
            lemma_votes_le(act, w, b, 1);
        }
    }
}

impl ResonanceLayer {
    /// A layer named `name` over `containers`, sweeping with
    /// `SweepConfig::with_threshold(threshold)` and propagating 20 activations.
    pub fn new(name: &str, containers: Vec<Container>, threshold: u32) -> (r: Self)
        ensures
            r.name@ == name@,
            r.containers@ == containers@,
            r.config.threshold == threshold,
            r.config.safety_num == 3,
            r.config.safety_den == 2,
            r.config.hdr.hot == crate::hdr::HDR_HOT_THRESHOLD,
            r.config.hdr.mid == crate::hdr::HDR_MID_THRESHOLD,
            r.config.hdr.cold == crate::hdr::HDR_COLD_THRESHOLD,
            r.config.limit == 0,
            r.top_k == 20,
    {
        Self {
            name: name.to_owned(),
            containers,
            config: SweepConfig::with_threshold(threshold),
            top_k: 20,
        }
    }

    /// Sweep this layer's corpus with `query`.
    pub fn sweep(&self, query: &Container) -> (r: SweepResult)
        requires
            self.config.safety_den > 0,
            128 * self.containers@.len() <= u64::MAX,
        ensures
            r.containers_scanned == self.containers@.len(),
            layer_outcome(*self, *query, r.matches@, r.instructions),
    {
        hdr_sweep(query, self.containers.as_slice(), &self.config)
    }

    /// The containers of the first `top_k` matches.
    pub fn activated_containers<'a>(&'a self, matches: &[ResonanceMatch]) -> (r: Vec<&'a Container>)
        requires
            forall|j: int| 0 <= j < matches@.len() ==> (#[trigger] matches@[j]).index < self.containers@.len(),
        ensures
            r@.map_values(|c: &Container| c.words@) == activated_views(*self, matches@),
    {
        let k = if self.top_k < matches.len() { self.top_k } else { matches.len() };
        let mut out: Vec<&Container> = Vec::new();
        for j in 0..k
            invariant
                k <= matches@.len(),
                k == if self.top_k < matches@.len() { self.top_k as int } else { matches@.len() as int },
                forall|i: int| 0 <= i < matches@.len() ==> (#[trigger] matches@[i]).index < self.containers@.len(),
                out@.len() == j,
                forall|i: int| 0 <= i < j ==> (#[trigger] out@[i]).words@ == self.containers@[matches@[i].index as int].words@,
        {
            let idx = matches[j].index;
            out.push(&self.containers[idx]);
        }
        assert(out@.map_values(|c: &Container| c.words@) =~= activated_views(*self, matches@));
        out
    }
}

/// Run a resonance cascade through `layers`.
///
/// Layer `i` sweeps its corpus with query `q_i` (`q_0` is `query`); the
/// containers of its best `top_k` matches are majority-bundled into
/// `q_(i+1)`.  `recognized` is the match list of the last layer.
pub fn cascade(query: &Container, layers: &[ResonanceLayer]) -> (r: CascadeResult)
    requires
        forall|i: int|
            0 <= i < layers@.len() ==> 128 * (#[trigger] layers@[i]).containers@.len() <= u64::MAX
                && layers@[i].config.safety_den > 0,
    ensures
        r.layer_results@.len() == layers@.len(),
        exists|qs: Seq<Container>|
            {
                &&& qs.len() == layers@.len() + 1
                &&& qs[0] == *query
                &&& forall|i: int|
                    0 <= i < layers@.len() ==> {
                        &&& (#[trigger] r.layer_results@[i]).name@ == layers@[i].name@
                        &&& layer_outcome(
                            layers@[i],
                            qs[i],
                            r.layer_results@[i].matches@,
                            r.layer_results@[i].instructions,
                        )
                        &&& next_query(layers@[i], qs[i], r.layer_results@[i].matches@, qs[i + 1])
                    }
            },
        r.recognized@ == if layers@.len() == 0 {
            Seq::<ResonanceMatch>::empty()
        } else {
            r.layer_results@[layers@.len() - 1].matches@
        },
{
    let mut current_query = *query;
    let mut layer_results: Vec<LayerResult> = Vec::new();
    let ghost mut qs: Seq<Container> = seq![*query];
    for i in 0..layers.len()
        invariant
            forall|j: int|
                0 <= j < layers@.len() ==> 128 * (#[trigger] layers@[j]).containers@.len() <= u64::MAX
                    && layers@[j].config.safety_den > 0,
            layer_results@.len() == i,
            qs.len() == i + 1,
            qs[0] == *query,
            qs[i as int] == current_query,
            forall|j: int|
                0 <= j < i ==> {
                    &&& (#[trigger] layer_results@[j]).name@ == layers@[j].name@
                    &&& layer_outcome(layers@[j], qs[j], layer_results@[j].matches@, layer_results@[j].instructions)
                    &&& next_query(layers@[j], qs[j], layer_results@[j].matches@, qs[j + 1])
                },
    {
        let layer = &layers[i];
        let result = layer.sweep(&current_query);
        let ghost prev_query = current_query;
        if result.matches.len() > 0 {
            proof {
                let q = current_query.words@;
                let cs = views(layer.containers@);
                let p = layer.config.params();
                crate::staged::lemma_stop_from_bounds_pub(q, cs, p);
                crate::staged::lemma_hits_indices(q, cs, p, scanned(q, cs, p));
                assert forall|j: int| 0 <= j < result.matches@.len() implies (#[trigger] result.matches@[j]).index
                    < layer.containers@.len() by {
                    let x = result.matches@[j];
                    assert(result.matches@.contains(x));
                    assert(result.matches@.to_multiset().count(x) > 0);
                    assert(hits(q, cs, p, scanned(q, cs, p)).to_multiset().count(x) > 0);
                    assert(hits(q, cs, p, scanned(q, cs, p)).contains(x));
                }
            }
            let activated = layer.activated_containers(&result.matches);
            proof {
                assert(activated@.map_values(|c: &Container| c.words@).len() == activated@.len());
            }
            if activated.len() > 0 {
                let act = activated.as_slice();
                current_query = Container::bundle(act);
                proof {
                    assert(act@ == activated@);
                    assert(next_query(*layer, prev_query, result.matches@, current_query));
                }
            } else {
                assert(layer.top_k == 0);
            }
        }
        assert(next_query(*layer, prev_query, result.matches@, current_query));
        let lr = LayerResult {
            name: layer.name.clone(),
            matches: result.matches,
            instructions: result.instructions,
        };
        let ghost old_results = layer_results@;
        layer_results.push(lr);
        proof {
            let old_qs = qs;
            qs = qs.push(current_query);
            assert forall|j: int| 0 <= j < i + 1 implies {
                &&& (#[trigger] layer_results@[j]).name@ == layers@[j].name@
                &&& layer_outcome(layers@[j], qs[j], layer_results@[j].matches@, layer_results@[j].instructions)
                &&& next_query(layers@[j], qs[j], layer_results@[j].matches@, qs[j + 1])
            } by {
                if j == i {
                    assert(qs[j] == prev_query);
                    assert(qs[j + 1] == current_query);
                    assert(layer_results@[j].name@ == layers@[j].name@);
                    assert(layer_outcome(layers@[j], qs[j], layer_results@[j].matches@, layer_results@[j].instructions));
                    assert(next_query(layers@[j], qs[j], layer_results@[j].matches@, qs[j + 1]));
                } else {
                    assert(qs[j + 1] == old_qs[j + 1]);
                    assert(layer_results@[j] == old_results[j]);
                }
            }
        }
    }
    let n = layer_results.len();
    let recognized = if n > 0 {
        let last = &layer_results[n - 1];
        let mut v: Vec<ResonanceMatch> = Vec::new();
        for j in 0..last.matches.len()
            invariant
                v@ == last.matches@.take(j as int),
        {
            v.push(last.matches[j]);
            assert(last.matches@.take(j as int + 1) =~= last.matches@.take(j as int).push(last.matches@[j as int]));
        }
        assert(last.matches@.take(last.matches@.len() as int) =~= last.matches@);
        v
    } else {
        Vec::new()
    };
    CascadeResult { layer_results, recognized }
}

} // verus!
