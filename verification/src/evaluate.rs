//! Evaluation of discovered clusters against ground-truth classes.
//!
//! Each input is assigned to the first prototype its sweep reports; the
//! class table then counts, per cluster and class, the inputs assigned
//! there.  Purity is the share of assigned inputs that belong to the
//! dominant class of their cluster.
use vstd::prelude::*;
use crate::container::Container;
use crate::staged::{hits, scanned, views, is_hit, match_at};
use crate::sweep::{hdr_sweep, SweepConfig};
use crate::ResonanceMatch;
use crate::exposure::{exposure_config, first_hit_from, lemma_limit_one, lemma_first_hit_range};

verus! {

broadcast use vstd::seq_lib::group_to_multiset_ensures;

/// Cluster of each input: the first prototype the sweep with `threshold`
/// (stopping at the first match) reports, `None` when no
/// prototype resonates.
pub fn assign_to_clusters(containers: &[Container], prototypes: &[Container], threshold: u32) -> (r: Vec<
    Option<usize>,
>)
    requires
        128 * prototypes@.len() <= u64::MAX,
    ensures
        r@.len() == containers@.len(),
        forall|i: int|
            0 <= i < containers@.len() ==> #[trigger] r@[i] == match first_hit_from(
                containers@[i].words@,
                views(prototypes@),
                exposure_config(threshold, 1).params(),
                0,
            ) {
                Some(j) => Some(j as usize),
                None => None,
            },
{
    let mut config = SweepConfig::with_threshold(threshold);
    config.limit = 1;
    let mut out: Vec<Option<usize>> = Vec::new();
    for i in 0..containers.len()
        invariant
            128 * prototypes@.len() <= u64::MAX,
            config == exposure_config(threshold, 1),
            out@.len() == i,
            forall|k: int|
                0 <= k < i ==> #[trigger] out@[k] == match first_hit_from(
                    containers@[k].words@,
                    views(prototypes@),
                    exposure_config(threshold, 1).params(),
                    0,
                ) {
                    Some(j) => Some(j as usize),
                    None => None,
                },
    {
        let c = containers[i];
        let result = hdr_sweep(&c, prototypes, &config);
        let ghost q = c.words@;
        let ghost cs = views(prototypes@);
        let ghost p = config.params();
        let ghost h = hits(q, cs, p, scanned(q, cs, p));
        proof {
            lemma_limit_one(q, cs, p, 0);
            lemma_first_hit_range(q, cs, p, 0);
        }
        let next = if result.matches.len() > 0 {
            let best = result.matches[0];
            proof {
                assert(result.matches@.contains(best));
                assert(result.matches@.to_multiset().count(best) > 0);
                assert(h.contains(best));
            }
            Some(best.index)
        } else {
            proof {
                assert(h.to_multiset().len() == 0);
                if first_hit_from(q, cs, p, 0) is Some {
                    assert(h.len() == 1);
                }
            }
            None
        };
        out.push(next);
    }
    out
}

/// Inputs among the first `n` assigned to cluster `c` whose class is `k`.
pub open spec fn tally(assign: Seq<Option<usize>>, labels: Seq<usize>, c: int, k: int, n: int) -> nat
    decreases n,
{
    if n <= 0 {
        0
    } else {
        tally(assign, labels, c, k, n - 1) + if assign[n - 1] == Some(c as usize) && labels[n - 1] == k {
            1nat
        } else {
            0nat
        }
    }
}

/// Inputs among the first `n` assigned to cluster `c`.
pub open spec fn cluster_size(assign: Seq<Option<usize>>, c: int, n: int) -> nat
    decreases n,
{
    if n <= 0 {
        0
    } else {
        cluster_size(assign, c, n - 1) + if assign[n - 1] == Some(c as usize) { 1nat } else { 0nat }
    }
}

/// Inputs among the first `n` assigned to some cluster.
pub open spec fn assigned_count(assign: Seq<Option<usize>>, n: int) -> nat
    decreases n,
{
    if n <= 0 {
        0
    } else {
        assigned_count(assign, n - 1) + if assign[n - 1] is Some { 1nat } else { 0nat }
    }
}

/// Entry for cluster `c` and class `k` of a table with `classes` columns.
pub open spec fn cell(t: Seq<usize>, c: int, k: int, classes: int) -> usize {
    t[c * classes + k]
}

proof fn lemma_cell_index(c: int, k: int, c2: int, k2: int, clusters: int, classes: int)
    by (nonlinear_arith)
    requires
        0 <= c < clusters,
        0 <= k < classes,
        0 <= c2 < clusters,
        0 <= k2 < classes,
    ensures
        0 <= c * classes + k < clusters * classes,
        c * classes + k == c2 * classes + k2 ==> c == c2 && k == k2,
{
    if c < c2 {
        assert(c * classes + k < (c + 1) * classes);
        assert((c + 1) * classes <= c2 * classes);
    }
    if c2 < c {
        assert(c2 * classes + k2 < (c2 + 1) * classes);
        assert((c2 + 1) * classes <= c * classes);
    }
    assert(c * classes + k < (c + 1) * classes);
    assert((c + 1) * classes <= clusters * classes);
}

proof fn lemma_tally_le(assign: Seq<Option<usize>>, labels: Seq<usize>, c: int, k: int, n: int)
    requires
        0 <= n,
    ensures
        tally(assign, labels, c, k, n) <= cluster_size(assign, c, n),
        cluster_size(assign, c, n) <= n,
    decreases n,
{
    if n > 0 {
        lemma_tally_le(assign, labels, c, k, n - 1);
    }
}

/// Class table: entry `c * num_classes + k` counts the inputs assigned to
/// cluster `c` whose class is `k`.
pub fn class_table(assignments: &[Option<usize>], labels: &[usize], num_clusters: usize, num_classes: usize) -> (r:
    Vec<usize>)
    requires
        assignments@.len() == labels@.len(),
        num_clusters * num_classes <= usize::MAX,
        forall|i: int| 0 <= i < labels@.len() ==> #[trigger] labels@[i] < num_classes,
        forall|i: int|
            0 <= i < assignments@.len() ==> (#[trigger] assignments@[i] matches Some(c) ==> c < num_clusters),
    ensures
        r@.len() == num_clusters * num_classes,
        forall|c: int, k: int|
            0 <= c < num_clusters && 0 <= k < num_classes ==> #[trigger] cell(r@, c, k, num_classes as int)
                == tally(assignments@, labels@, c, k, assignments@.len() as int),
{
    let total = num_clusters * num_classes;
    let mut t: Vec<usize> = Vec::new();
    for j in 0..total
        invariant
            t@.len() == j,
            forall|x: int| 0 <= x < j ==> t@[x] == 0,
    {
        t.push(0);
    }
    proof {
        assert forall|c: int, k: int| 0 <= c < num_clusters && 0 <= k < num_classes implies #[trigger] cell(
            t@,
            c,
            k,
            num_classes as int,
        ) == tally(assignments@, labels@, c, k, 0) by {
            lemma_cell_index(c, k, c, k, num_clusters as int, num_classes as int);
        }
    }
    let n = assignments.len();
    for i in 0..n
        invariant
            n == assignments@.len(),
            n == labels@.len(),
            total == num_clusters * num_classes,
            t@.len() == total,
            forall|x: int| 0 <= x < labels@.len() ==> #[trigger] labels@[x] < num_classes,
            forall|x: int|
                0 <= x < assignments@.len() ==> (#[trigger] assignments@[x] matches Some(c) ==> c < num_clusters),
            forall|c: int, k: int|
                0 <= c < num_clusters && 0 <= k < num_classes ==> #[trigger] cell(t@, c, k, num_classes as int)
                    == tally(assignments@, labels@, c, k, i as int),
    {
        let ghost old_t = t@;
        let label = labels[i];
        match assignments[i] {
            Some(c) => {
                proof {
                    assert(assignments@[i as int] matches Some(cc) ==> cc < num_clusters);
                    lemma_cell_index(c as int, label as int, c as int, label as int, num_clusters as int, num_classes as int);
                    lemma_tally_le(assignments@, labels@, c as int, label as int, i as int);
                    assert(cell(t@, c as int, label as int, num_classes as int) == tally(assignments@, labels@, c as int, label as int, i as int));
                }
                let idx = c * num_classes + label;
                let v = t[idx];
                t.set(idx, v + 1);
                proof {
                    assert forall|c2: int, k2: int| 0 <= c2 < num_clusters && 0 <= k2 < num_classes implies #[trigger] cell(
                        t@,
                        c2,
                        k2,
                        num_classes as int,
                    ) == tally(assignments@, labels@, c2, k2, i + 1) by {
                        lemma_cell_index(c2, k2, c as int, label as int, num_clusters as int, num_classes as int);
                        assert(cell(old_t, c2, k2, num_classes as int) == tally(assignments@, labels@, c2, k2, i as int));
                    }
                }
            },
            None => {
                proof {
                    assert forall|c2: int, k2: int| 0 <= c2 < num_clusters && 0 <= k2 < num_classes implies #[trigger] cell(
                        t@,
                        c2,
                        k2,
                        num_classes as int,
                    ) == tally(assignments@, labels@, c2, k2, i + 1) by {
                        assert(cell(old_t, c2, k2, num_classes as int) == tally(assignments@, labels@, c2, k2, i as int));
                    }
                }
            },
        }
    }
    t
}

/// Largest `tally(c, k)` over the classes `k < m`.
pub open spec fn tally_max(assign: Seq<Option<usize>>, labels: Seq<usize>, c: int, m: int, n: int) -> nat
    decreases m,
{
    if m <= 0 {
        0
    } else {
        let prev = tally_max(assign, labels, c, m - 1, n);
        let v = tally(assign, labels, c, m - 1, n);
        if v > prev {
            v
        } else {
            prev
        }
    }
}

/// Classes `k < m` with at least one input in cluster `c`.
pub open spec fn tally_classes(assign: Seq<Option<usize>>, labels: Seq<usize>, c: int, m: int, n: int) -> nat
    decreases m,
{
    if m <= 0 {
        0
    } else {
        tally_classes(assign, labels, c, m - 1, n) + if tally(assign, labels, c, m - 1, n) > 0 {
            1nat
        } else {
            0nat
        }
    }
}

/// Sum over the clusters `c < m` of the size of their dominant class.
pub open spec fn dominant_total(assign: Seq<Option<usize>>, labels: Seq<usize>, m: int, classes: int, n: int) -> nat
    decreases m,
{
    if m <= 0 {
        0
    } else {
        dominant_total(assign, labels, m - 1, classes, n) + tally_max(assign, labels, m - 1, classes, n)
    }
}

/// Inputs of clusters `c < m` that belong to class `f(c)`: the inputs
/// counted as correct when cluster `c` is named after class `f(c)`.
pub open spec fn choice_total(assign: Seq<Option<usize>>, labels: Seq<usize>, f: spec_fn(int) -> int, m: int, n: int) -> nat
    decreases m,
{
    if m <= 0 {
        0
    } else {
        choice_total(assign, labels, f, m - 1, n) + tally(assign, labels, m - 1, f(m - 1), n)
    }
}

proof fn lemma_tally_max_ge(assign: Seq<Option<usize>>, labels: Seq<usize>, c: int, m: int, n: int, k: int)
    requires
        0 <= k < m,
    ensures
        tally_max(assign, labels, c, m, n) >= tally(assign, labels, c, k, n),
    decreases m,
{
    if k < m - 1 {
        lemma_tally_max_ge(assign, labels, c, m - 1, n, k);
    }
}

proof fn lemma_tally_max_attained(assign: Seq<Option<usize>>, labels: Seq<usize>, c: int, m: int, n: int)
    requires
        0 < m,
    ensures
        exists|k: int| 0 <= k < m && tally_max(assign, labels, c, m, n) == tally(assign, labels, c, k, n),
    decreases m,
{
    if m > 1 {
        lemma_tally_max_attained(assign, labels, c, m - 1, n);
        let k = choose|k: int| 0 <= k < m - 1 && tally_max(assign, labels, c, m - 1, n) == tally(assign, labels, c, k, n);
        if tally(assign, labels, c, m - 1, n) > tally_max(assign, labels, c, m - 1, n) {
            assert(tally_max(assign, labels, c, m, n) == tally(assign, labels, c, m - 1, n));
        } else {
            assert(tally_max(assign, labels, c, m, n) == tally(assign, labels, c, k, n));
        }
    } else {
        assert(tally_max(assign, labels, c, 0, n) == 0);
        assert(tally_max(assign, labels, c, 1, n) == tally(assign, labels, c, 0, n));
    }
}

proof fn lemma_choice_le_dominant(
    assign: Seq<Option<usize>>,
    labels: Seq<usize>,
    f: spec_fn(int) -> int,
    m: int,
    classes: int,
    n: int,
)
    requires
        forall|c: int| 0 <= c < m ==> 0 <= #[trigger] f(c) < classes,
    ensures
        choice_total(assign, labels, f, m, n) <= dominant_total(assign, labels, m, classes, n),
    decreases m,
{
    if m > 0 {
        lemma_choice_le_dominant(assign, labels, f, m - 1, classes, n);
        assert(0 <= f(m - 1) < classes);
        lemma_tally_max_ge(assign, labels, m - 1, classes, n, f(m - 1));
    }
}

proof fn lemma_best_choice_total(
    assign: Seq<Option<usize>>,
    labels: Seq<usize>,
    f: spec_fn(int) -> int,
    m: int,
    classes: int,
    n: int,
)
    requires
        forall|c: int| 0 <= c < m ==> #[trigger] tally(assign, labels, c, f(c), n) == tally_max(assign, labels, c, classes, n),
    ensures
        choice_total(assign, labels, f, m, n) == dominant_total(assign, labels, m, classes, n),
    decreases m,
{
    if m > 0 {
        lemma_best_choice_total(assign, labels, f, m - 1, classes, n);
        assert(tally(assign, labels, m - 1, f(m - 1), n) == tally_max(assign, labels, m - 1, classes, n));
    }
}

/// The correct count of a purity report is the best possible: naming each
/// cluster `c < m` after one class `f(c)` counts at most
/// `dominant_total` inputs as correct, and some naming (each cluster after
/// its largest class) counts exactly that many.
pub proof fn lemma_dominant_total_is_best_naming(
    assign: Seq<Option<usize>>,
    labels: Seq<usize>,
    m: int,
    classes: int,
    n: int,
)
    requires
        0 < classes,
    ensures
        forall|f: spec_fn(int) -> int|
            (forall|c: int| 0 <= c < m ==> 0 <= #[trigger] f(c) < classes) ==> choice_total(assign, labels, f, m, n)
                <= dominant_total(assign, labels, m, classes, n),
        exists|f: spec_fn(int) -> int|
            {
                &&& forall|c: int| 0 <= c < m ==> 0 <= #[trigger] f(c) < classes
                &&& choice_total(assign, labels, f, m, n) == dominant_total(assign, labels, m, classes, n)
            },
{
    assert forall|f: spec_fn(int) -> int|
        (forall|c: int| 0 <= c < m ==> 0 <= #[trigger] f(c) < classes) implies choice_total(assign, labels, f, m, n)
        <= dominant_total(assign, labels, m, classes, n) by {
        lemma_choice_le_dominant(assign, labels, f, m, classes, n);
    }
    let best = |c: int|
        choose|k: int| 0 <= k < classes && tally_max(assign, labels, c, classes, n) == tally(assign, labels, c, k, n);
    assert forall|c: int| 0 <= c < m implies 0 <= #[trigger] best(c) < classes && tally(assign, labels, c, best(c), n)
        == tally_max(assign, labels, c, classes, n) by {
        lemma_tally_max_attained(assign, labels, c, classes, n);
    }
    lemma_best_choice_total(assign, labels, best, m, classes, n);
}

/// Clusters `c < m` whose inputs all belong to one class.
pub open spec fn pure_clusters(assign: Seq<Option<usize>>, labels: Seq<usize>, m: int, classes: int, n: int) -> nat
    decreases m,
{
    if m <= 0 {
        0
    } else {
        pure_clusters(assign, labels, m - 1, classes, n) + if tally_classes(assign, labels, m - 1, classes, n)
            == 1 {
            1nat
        } else {
            0nat
        }
    }
}

/// Cluster `c` holds inputs of exactly one class `k < m`: some class has
/// inputs in it and every other class has none.
pub open spec fn single_class(assign: Seq<Option<usize>>, labels: Seq<usize>, c: int, m: int, n: int) -> bool {
    exists|k: int|
        0 <= k < m && tally(assign, labels, c, k, n) > 0 && forall|k2: int|
            0 <= k2 < m && k2 != k ==> #[trigger] tally(assign, labels, c, k2, n) == 0
}

proof fn lemma_tally_classes_count(assign: Seq<Option<usize>>, labels: Seq<usize>, c: int, m: int, n: int)
    requires
        0 <= m,
    ensures
        tally_classes(assign, labels, c, m, n) == 0 <==> forall|k: int|
            0 <= k < m ==> #[trigger] tally(assign, labels, c, k, n) == 0,
        tally_classes(assign, labels, c, m, n) == 1 <==> single_class(assign, labels, c, m, n),
    decreases m,
{
    if m > 0 {
        lemma_tally_classes_count(assign, labels, c, m - 1, n);
        let v = tally(assign, labels, c, m - 1, n);
        if v > 0 {
            if tally_classes(assign, labels, c, m - 1, n) == 0 {
                assert forall|k2: int| 0 <= k2 < m && k2 != m - 1 implies #[trigger] tally(assign, labels, c, k2, n)
                    == 0 by {}
                assert(single_class(assign, labels, c, m, n));
            } else {
                if single_class(assign, labels, c, m, n) {
                    let k = choose|k: int|
                        0 <= k < m && tally(assign, labels, c, k, n) > 0 && forall|k2: int|
                            0 <= k2 < m && k2 != k ==> #[trigger] tally(assign, labels, c, k2, n) == 0;
                    if k != m - 1 {
                        assert(tally(assign, labels, c, m - 1, n) == 0);
                    }
                    assert forall|k2: int| 0 <= k2 < m - 1 implies #[trigger] tally(assign, labels, c, k2, n) == 0 by {}
                }
            }
        } else {
            if single_class(assign, labels, c, m, n) {
                let k = choose|k: int|
                    0 <= k < m && tally(assign, labels, c, k, n) > 0 && forall|k2: int|
                        0 <= k2 < m && k2 != k ==> #[trigger] tally(assign, labels, c, k2, n) == 0;
                assert(k != m - 1);
                assert(single_class(assign, labels, c, m - 1, n));
            }
            if single_class(assign, labels, c, m - 1, n) {
                let k = choose|k: int|
                    0 <= k < m - 1 && tally(assign, labels, c, k, n) > 0 && forall|k2: int|
                        0 <= k2 < m - 1 && k2 != k ==> #[trigger] tally(assign, labels, c, k2, n) == 0;
                assert forall|k2: int| 0 <= k2 < m && k2 != k implies #[trigger] tally(assign, labels, c, k2, n) == 0 by {
                    if k2 == m - 1 {
                        assert(v == 0);
                    }
                }
                assert(single_class(assign, labels, c, m, n));
            }
        }
    }
}

/// The perfect-cluster count adds up the clusters that hold inputs of
/// exactly one class: empty clusters and mixed clusters are not counted,
/// so it never exceeds the number of clusters.
pub proof fn lemma_pure_clusters_single_class(
    assign: Seq<Option<usize>>,
    labels: Seq<usize>,
    m: int,
    classes: int,
    n: int,
)
    requires
        0 <= m,
        0 <= classes,
    ensures
        m > 0 ==> pure_clusters(assign, labels, m, classes, n) == pure_clusters(assign, labels, m - 1, classes, n) + if single_class(
            assign,
            labels,
            m - 1,
            classes,
            n,
        ) {
            1int
        } else {
            0int
        },
        pure_clusters(assign, labels, m, classes, n) <= m,
    decreases m,
{
    if m > 0 {
        lemma_tally_classes_count(assign, labels, m - 1, classes, n);
        lemma_pure_clusters_single_class(assign, labels, m - 1, classes, n);
    }
}

/// Sum of the sizes of the clusters `c < m`.
spec fn size_sum(assign: Seq<Option<usize>>, m: int, n: int) -> nat
    decreases m,
{
    if m <= 0 {
        0
    } else {
        size_sum(assign, m - 1, n) + cluster_size(assign, m - 1, n)
    }
}

proof fn lemma_size_sum_step(assign: Seq<Option<usize>>, m: int, n: int)
    requires
        m <= usize::MAX,
        0 <= m,
        0 < n,
    ensures
        size_sum(assign, m, n) == size_sum(assign, m, n - 1) + if assign[n - 1] matches Some(x) && x < m {
            1nat
        } else {
            0nat
        },
    decreases m,
{
    if m > 0 {
        lemma_size_sum_step(assign, m - 1, n);
    }
}

proof fn lemma_size_sum_le(assign: Seq<Option<usize>>, m: int, n: int)
    requires
        m <= usize::MAX,
        0 <= m,
        0 <= n,
    ensures
        size_sum(assign, m, n) <= n,
    decreases n,
{
    if n > 0 {
        lemma_size_sum_step(assign, m, n);
        lemma_size_sum_le(assign, m, n - 1);
    } else {
        lemma_size_sum_zero(assign, m);
    }
}

proof fn lemma_size_sum_zero(assign: Seq<Option<usize>>, m: int)
    ensures
        size_sum(assign, m, 0) == 0,
    decreases m,
{
    if m > 0 {
        lemma_size_sum_zero(assign, m - 1);
    }
}

proof fn lemma_size_sum_mono(assign: Seq<Option<usize>>, m: int, m2: int, n: int)
    requires
        0 <= m <= m2,
    ensures
        size_sum(assign, m, n) <= size_sum(assign, m2, n),
    decreases m2,
{
    if m < m2 {
        lemma_size_sum_mono(assign, m, m2 - 1, n);
    }
}

proof fn lemma_tally_max_le(assign: Seq<Option<usize>>, labels: Seq<usize>, c: int, m: int, n: int)
    requires
        0 <= n,
    ensures
        tally_max(assign, labels, c, m, n) <= cluster_size(assign, c, n),
    decreases m,
{
    if m > 0 {
        lemma_tally_max_le(assign, labels, c, m - 1, n);
        lemma_tally_le(assign, labels, c, m - 1, n);
    }
}

proof fn lemma_assigned_le(assign: Seq<Option<usize>>, n: int)
    requires
        0 <= n,
    ensures
        assigned_count(assign, n) <= n,
    decreases n,
{
    if n > 0 {
        lemma_assigned_le(assign, n - 1);
    }
}

/// Purity figures of a clustering: inputs assigned to a cluster, inputs
/// in the dominant class of their cluster, and clusters with a single class.
#[derive(Debug, Clone, Copy)]
pub struct PurityReport {
    pub assigned: usize,
    pub correct: usize,
    pub perfect: usize,
}

/// Purity of the assignment of inputs of the given classes to
/// `num_clusters` clusters: how many inputs are assigned, how many belong
/// to the largest class of their cluster, and how many clusters hold one
/// class only.
pub fn purity_report(assignments: &[Option<usize>], labels: &[usize], num_clusters: usize, num_classes: usize) -> (r:
    PurityReport)
    requires
        assignments@.len() == labels@.len(),
        num_clusters * num_classes <= usize::MAX,
        forall|i: int| 0 <= i < labels@.len() ==> #[trigger] labels@[i] < num_classes,
        forall|i: int|
            0 <= i < assignments@.len() ==> (#[trigger] assignments@[i] matches Some(c) ==> c < num_clusters),
    ensures
        r.assigned == assigned_count(assignments@, assignments@.len() as int),
        r.correct == dominant_total(
            assignments@,
            labels@,
            num_clusters as int,
            num_classes as int,
            assignments@.len() as int,
        ),
        r.perfect == pure_clusters(
            assignments@,
            labels@,
            num_clusters as int,
            num_classes as int,
            assignments@.len() as int,
        ),
        r.correct <= r.assigned,
{
    let t = class_table(assignments, labels, num_clusters, num_classes);
    let n = assignments.len();
    let ghost a = assignments@;
    let ghost l = labels@;
    let mut assigned: usize = 0;
    for i in 0..n
        invariant
            n == a.len(),
            a == assignments@,
            assigned == assigned_count(a, i as int),
            assigned <= i,
    {
        if assignments[i].is_some() {
            assigned = assigned + 1;
        }
    }
    proof {
        lemma_size_sum_le(a, num_clusters as int, n as int);
    }
    let mut correct: usize = 0;
    let mut perfect: usize = 0;
    for c in 0..num_clusters
        invariant
            n == a.len(),
            a == assignments@,
            l == labels@,
            t@.len() == num_clusters * num_classes,
            num_clusters * num_classes <= usize::MAX,
            forall|c2: int, k: int|
                0 <= c2 < num_clusters && 0 <= k < num_classes ==> #[trigger] cell(t@, c2, k, num_classes as int)
                    == tally(a, l, c2, k, n as int),
            size_sum(a, num_clusters as int, n as int) <= n,
            correct == dominant_total(a, l, c as int, num_classes as int, n as int),
            correct <= size_sum(a, c as int, n as int),
            perfect == pure_clusters(a, l, c as int, num_classes as int, n as int),
            perfect <= c,
    {
        let mut rmax: usize = 0;
        let mut nz: usize = 0;
        for k in 0..num_classes
            invariant
                c < num_clusters,
                t@.len() == num_clusters * num_classes,
                num_clusters * num_classes <= usize::MAX,
                forall|c2: int, k2: int|
                    0 <= c2 < num_clusters && 0 <= k2 < num_classes ==> #[trigger] cell(t@, c2, k2, num_classes as int)
                        == tally(a, l, c2, k2, n as int),
                rmax == tally_max(a, l, c as int, k as int, n as int),
                nz == tally_classes(a, l, c as int, k as int, n as int),
                nz <= k,
        {
            proof {
                lemma_cell_index(c as int, k as int, c as int, k as int, num_clusters as int, num_classes as int);
                assert(cell(t@, c as int, k as int, num_classes as int) == tally(a, l, c as int, k as int, n as int));
            }
            let v = t[c * num_classes + k];
            if v > rmax {
                rmax = v;
            }
            if v > 0 {
                nz = nz + 1;
            }
        }
        proof {
            lemma_tally_max_le(a, l, c as int, num_classes as int, n as int);
            lemma_size_sum_mono(a, c as int + 1, num_clusters as int, n as int);
        }
        correct = correct + rmax;
        if nz == 1 {
            perfect = perfect + 1;
        }
    }
    proof {
        lemma_size_sum_le(a, num_clusters as int, n as int);
        lemma_size_sum_count(a, num_clusters as int, n as int);
    }
    PurityReport { assigned, correct, perfect }
}

proof fn lemma_size_sum_count(assign: Seq<Option<usize>>, m: int, n: int)
    requires
        m <= usize::MAX,
        0 <= m,
        0 <= n,
    ensures
        size_sum(assign, m, n) <= assigned_count(assign, n),
    decreases n,
{
    if n > 0 {
        lemma_size_sum_step(assign, m, n);
        lemma_size_sum_count(assign, m, n - 1);
    } else {
        lemma_size_sum_zero(assign, m);
    }
}

/// Class `k` is the dominant class of row `c` of a table with `classes`
/// columns: it has the largest positive count, and every earlier class has
/// a smaller one (ties go to the smallest class).
pub open spec fn is_dominant(t: Seq<usize>, c: int, k: int, classes: int) -> bool {
    &&& 0 <= k < classes
    &&& cell(t, c, k, classes) > 0
    &&& forall|j: int| 0 <= j < classes ==> #[trigger] cell(t, c, j, classes) <= cell(t, c, k, classes)
    &&& forall|j: int| 0 <= j < k ==> #[trigger] cell(t, c, j, classes) < cell(t, c, k, classes)
}

proof fn lemma_row_index(c: int, k: int, classes: int)
    by (nonlinear_arith)
    requires
        0 <= c,
        0 <= k < classes,
    ensures
        0 <= c * classes + k < c * classes + classes,
{
}

/// Dominant class of cluster `c`: the class with the largest count in its
/// row of the class table (the smallest such class on a tie), `None` when
/// the row is empty.
pub fn dominant_class(table: &[usize], c: usize, num_classes: usize) -> (r: Option<usize>)
    requires
        c * num_classes + num_classes <= table@.len(),
    ensures
        r is None <==> forall|j: int| 0 <= j < num_classes ==> #[trigger] cell(table@, c as int, j, num_classes as int) == 0,
        r matches Some(k) ==> is_dominant(table@, c as int, k as int, num_classes as int),
        forall|k: int| #[trigger] is_dominant(table@, c as int, k, num_classes as int) ==> r == Some(k as usize),
{
    let mut best: usize = 0;
    let mut bi: usize = 0;
    let len = table.len();
    assert(c * num_classes + num_classes <= len);
    let row = c * num_classes;
    for k in 0..num_classes
        invariant
            len == table@.len(),
            row == c * num_classes,
            c * num_classes + num_classes <= table@.len(),
            bi <= k,
            best > 0 ==> bi < k && cell(table@, c as int, bi as int, num_classes as int) == best,
            best > 0 ==> forall|j: int| 0 <= j < bi ==> #[trigger] cell(table@, c as int, j, num_classes as int) < best,
            forall|j: int| 0 <= j < k ==> #[trigger] cell(table@, c as int, j, num_classes as int) <= best,
    {
        proof {
            lemma_row_index(c as int, k as int, num_classes as int);
            assert(row + k < len);
        }
        let v = table[row + k];
        if v > best {
            best = v;
            bi = k;
        }
    }
    if best == 0 {
        None
    } else {
        proof {
            assert forall|k: int| #[trigger] is_dominant(table@, c as int, k, num_classes as int) implies k == bi by {
                if k < bi {
                    assert(cell(table@, c as int, k, num_classes as int) < best);
                } else if k > bi {
                    assert(cell(table@, c as int, bi as int, num_classes as int) < cell(table@, c as int, k, num_classes as int));
                }
            }
        }
        Some(bi)
    }
}

/// Number of inputs sampled when every tenth input is taken.
pub open spec fn sample_count(n: int) -> int {
    n / 10 + if n % 10 != 0 { 1int } else { 0int }
}

/// Some match of the sweep of `q` has `label` as the dominant class of its
/// cluster.
pub open spec fn dominant_hit(q: Seq<u64>, cs: Seq<Seq<u64>>, threshold: u32, limit: usize, t: Seq<usize>, classes: int, label: usize) -> bool {
    let p = exposure_config(threshold, limit).params();
    let h = hits(q, cs, p, scanned(q, cs, p));
    exists|j: int| 0 <= j < h.len() && #[trigger] is_dominant(t, h[j].index as int, label as int, classes)
}

/// Over the first `s` sampled inputs (indices 0, 10, 20, ...): how many
/// have a sweep match whose cluster's dominant class is their own class,
/// and how many have any sweep match at all.
pub open spec fn top_hit_counts(
    containers: Seq<Container>,
    labels: Seq<usize>,
    prototypes: Seq<Container>,
    t: Seq<usize>,
    classes: int,
    threshold: u32,
    limit: usize,
    s: int,
) -> (nat, nat)
    decreases s,
{
    if s <= 0 {
        (0, 0)
    } else {
        let prev = top_hit_counts(containers, labels, prototypes, t, classes, threshold, limit, s - 1);
        let i = 10 * (s - 1);
        let q = containers[i].words@;
        let cs = views(prototypes);
        let p = exposure_config(threshold, limit).params();
        if hits(q, cs, p, scanned(q, cs, p)).len() == 0 {
            prev
        } else {
            (
                prev.0 + if dominant_hit(q, cs, threshold, limit, t, classes, labels[i]) {
                    1nat
                } else {
                    0nat
                },
                prev.1 + 1,
            )
        }
    }
}

proof fn lemma_sample_index(s: int, n: int)
    by (nonlinear_arith)
    requires
        0 <= s < n / 10 + if n % 10 != 0 { 1int } else { 0int },
        0 <= n,
    ensures
        10 * s < n,
{
}

proof fn lemma_row_in_table(c: int, rows: int, classes: int)
    by (nonlinear_arith)
    requires
        0 <= c < rows,
        0 <= classes,
    ensures
        c * classes + classes <= rows * classes,
{
    assert(c * classes + classes == (c + 1) * classes);
}

/// Top-k check on every tenth input: sweep it against the prototypes
/// (threshold `threshold`, at most `limit` matches) and
/// count the inputs with at least one match, and among them those for which
/// some matched cluster has the input's class as dominant class.  Returns
/// `(hits, sampled inputs with a match)`.
pub fn top_k_hits(
    containers: &[Container],
    labels: &[usize],
    prototypes: &[Container],
    table: &[usize],
    num_classes: usize,
    threshold: u32,
    limit: usize,
) -> (r: (usize, usize))
    requires
        labels@.len() == containers@.len(),
        128 * prototypes@.len() <= u64::MAX,
        table@.len() == prototypes@.len() * num_classes,
    ensures
        r.0 == top_hit_counts(
            containers@,
            labels@,
            prototypes@,
            table@,
            num_classes as int,
            threshold,
            limit,
            sample_count(containers@.len() as int),
        ).0,
        r.1 == top_hit_counts(
            containers@,
            labels@,
            prototypes@,
            table@,
            num_classes as int,
            threshold,
            limit,
            sample_count(containers@.len() as int),
        ).1,
        r.0 <= r.1,
{
    let n = containers.len();
    let samples = n / 10 + if n % 10 != 0 { 1 } else { 0 };
    let mut config = SweepConfig::with_threshold(threshold);
    config.limit = limit;
    let mut hit: usize = 0;
    let mut total: usize = 0;
    for s in 0..samples
        invariant
            n == containers@.len(),
            n == labels@.len(),
            samples == sample_count(n as int),
            128 * prototypes@.len() <= u64::MAX,
            table@.len() == prototypes@.len() * num_classes,
            config == exposure_config(threshold, limit),
            hit == top_hit_counts(containers@, labels@, prototypes@, table@, num_classes as int, threshold, limit, s as int).0,
            total == top_hit_counts(containers@, labels@, prototypes@, table@, num_classes as int, threshold, limit, s as int).1,
            hit <= total,
            total <= s,
    {
        proof {
            lemma_sample_index(s as int, n as int);
        }
        let i = 10 * s;
        let c = containers[i];
        let result = hdr_sweep(&c, prototypes, &config);
        let ghost q = c.words@;
        let ghost cs = views(prototypes@);
        let ghost p = config.params();
        let ghost h = hits(q, cs, p, scanned(q, cs, p));
        proof {
            crate::staged::lemma_stop_from_bounds_pub(q, cs, p);
            crate::staged::lemma_hits_indices(q, cs, p, scanned(q, cs, p));
            assert(result.matches@.to_multiset().len() == h.to_multiset().len());
        }
        let m = result.matches.len();
        if m > 0 {
            let label = labels[i];
            let mut found = false;
            for j in 0..m
                invariant
                    m == result.matches@.len(),
                    result.matches@.to_multiset() == h.to_multiset(),
                    forall|x: ResonanceMatch| h.contains(x) ==> x.index < prototypes@.len(),
                    table@.len() == prototypes@.len() * num_classes,
                    found <==> exists|t: int| 0 <= t < j && #[trigger] is_dominant(
                        table@,
                        result.matches@[t].index as int,
                        label as int,
                        num_classes as int,
                    ),
            {
                let idx = result.matches[j].index;
                proof {
                    let x = result.matches@[j as int];
                    assert(result.matches@.contains(x));
                    assert(result.matches@.to_multiset().count(x) > 0);
                    assert(h.contains(x));
                    lemma_row_in_table(idx as int, prototypes@.len() as int, num_classes as int);
                }
                let d = dominant_class(table, idx, num_classes);
                if d == Some(label) {
                    found = true;
                }
            }
            proof {
                if found {
                    let t = choose|t: int| 0 <= t < m && #[trigger] is_dominant(
                        table@,
                        result.matches@[t].index as int,
                        label as int,
                        num_classes as int,
                    );
                    let x = result.matches@[t];
                    assert(result.matches@.contains(x));
                    assert(result.matches@.to_multiset().count(x) > 0);
                    assert(h.contains(x));
                    let j = choose|j: int| 0 <= j < h.len() && h[j] == x;
                    assert(is_dominant(table@, h[j].index as int, label as int, num_classes as int));
                    assert(dominant_hit(q, cs, threshold, limit, table@, num_classes as int, label));
                } else {
                    assert forall|j: int| 0 <= j < h.len() implies !#[trigger] is_dominant(
                        table@,
                        h[j].index as int,
                        label as int,
                        num_classes as int,
                    ) by {
                        let x = h[j];
                        assert(h.contains(x));
                        assert(h.to_multiset().count(x) > 0);
                        assert(result.matches@.contains(x));
                        let t = choose|t: int| 0 <= t < m && result.matches@[t] == x;
                        assert(!is_dominant(table@, result.matches@[t].index as int, label as int, num_classes as int));
                    }
                }
            }
            if found {
                hit = hit + 1;
            }
            total = total + 1;
        } else {
            proof {
                assert(h.to_multiset().len() == 0);
                assert(h.len() == 0);
            }
        }
    }
    (hit, total)
}

} // verus!
