//! Sampling of intra-class and inter-class distances, the raw material of
//! the separation statistics that compare projections.
//!
//! Intra-class samples take consecutive members of each class; inter-class
//! samples draw two classes with a xorshift generator and compare their
//! first members.
use vstd::prelude::*;
use crate::container::Container;
use crate::rng::{Rng, output, state_after};

verus! {

/// One xorshift64 step with shifts 13, 7 and 17.
pub open spec fn xorshift(s: u64) -> u64 {
    let a = s ^ (s << 13u64);
    let b = a ^ (a >> 7u64);
    b ^ (b << 17u64)
}

/// One xorshift64 step with shifts 13, 7 and 17.
pub fn xorshift64(s: u64) -> (r: u64)
    ensures
        r == xorshift(s),
{
    let mut x = s;
    x = x ^ (x << 13u64);
    x = x ^ (x >> 7u64);
    x ^ (x << 17u64)
}

/// Number of consecutive pairs sampled from a class of `len` members.
pub open spec fn pair_count(len: int, pairs: int) -> int {
    if len < 2 {
        0
    } else if pairs < len - 1 {
        pairs
    } else {
        len - 1
    }
}

/// Distances between members `p` and `p + 1` of class `m`, for the first
/// `pair_count` pairs.
pub open spec fn class_pairs(cs: Seq<Container>, m: Seq<usize>, pairs: int) -> Seq<u32> {
    Seq::new(
        pair_count(m.len() as int, pairs) as nat,
        |p: int| cs[m[p] as int].distance(cs[m[p + 1] as int]) as u32,
    )
}

/// Intra-class samples of the first `k` classes, class after class.
pub open spec fn intra_samples(cs: Seq<Container>, classes: Seq<Vec<usize>>, pairs: int, k: int) -> Seq<u32>
    decreases k,
{
    if k <= 0 {
        Seq::empty()
    } else {
        intra_samples(cs, classes, pairs, k - 1) + class_pairs(cs, classes[k - 1]@, pairs)
    }
}

/// Members of every class index the corpus.
pub open spec fn members_in_range(cs: Seq<Container>, classes: Seq<Vec<usize>>) -> bool {
    forall|k: int, j: int|
        0 <= k < classes.len() && 0 <= j < classes[k]@.len() ==> #[trigger] classes[k]@[j] < cs.len()
}

/// Intra-class distances: for each class in order, the distances between
/// its members `p` and `p + 1` for `p < min(pairs, members - 1)`.
pub fn intra_class_distances(containers: &[Container], classes: &[Vec<usize>], pairs: usize) -> (r: Vec<u32>)
    requires
        members_in_range(containers@, classes@),
    ensures
        r@ == intra_samples(containers@, classes@, pairs as int, classes@.len() as int),
{
    let mut out: Vec<u32> = Vec::new();
    for k in 0..classes.len()
        invariant
            members_in_range(containers@, classes@),
            out@ == intra_samples(containers@, classes@, pairs as int, k as int),
    {
        let members = &classes[k];
        let len = members.len();
        let ghost base = out@;
        let ghost m = classes@[k as int]@;
        if len >= 2 {
            let count = if pairs < len - 1 { pairs } else { len - 1 };
            for p in 0..count
                invariant
                    members_in_range(containers@, classes@),
                    k < classes@.len(),
                    m == classes@[k as int]@,
                    members@ == m,
                    len == m.len(),
                    count == pair_count(len as int, pairs as int),
                    count < len,
                    out@ == base + class_pairs(containers@, m, pairs as int).take(p as int),
            {
                proof {
                    assert(classes@[k as int]@[p as int] < containers@.len());
                    assert(classes@[k as int]@[p + 1] < containers@.len());
                }
                let a = members[p];
                let b = members[p + 1];
                let d = containers[a].hamming(&containers[b]);
                out.push(d);
                proof {
                    assert(class_pairs(containers@, m, pairs as int).take(p + 1) =~= class_pairs(
                        containers@,
                        m,
                        pairs as int,
                    ).take(p as int).push(d));
                }
            }
            proof {
                assert(class_pairs(containers@, m, pairs as int).take(count as int) =~= class_pairs(
                    containers@,
                    m,
                    pairs as int,
                ));
            }
        } else {
            proof {
                assert(class_pairs(containers@, m, pairs as int) =~= Seq::<u32>::empty());
                assert(out@ =~= base + class_pairs(containers@, m, pairs as int));
            }
        }
    }
    out
}

/// Inter-class samples after `draws` draws from generator state `state`,
/// with the final state.  Each draw advances the state twice, picks the
/// classes `state % classes` at both steps, and when they differ and both
/// have members records the distance between their first members.
pub open spec fn inter_samples(cs: Seq<Container>, classes: Seq<Vec<usize>>, state: u64, draws: int) -> (
    Seq<u32>,
    u64,
)
    decreases draws,
{
    if draws <= 0 {
        (Seq::empty(), state)
    } else {
        let prev = inter_samples(cs, classes, state, draws - 1);
        let s1 = xorshift(prev.1);
        let s2 = xorshift(s1);
        let c1 = (s1 as usize) % (classes.len() as usize);
        let c2 = (s2 as usize) % (classes.len() as usize);
        if c1 == c2 || classes[c1 as int]@.len() == 0 || classes[c2 as int]@.len() == 0 {
            (prev.0, s2)
        } else {
            let i1 = classes[c1 as int]@[0];
            let i2 = classes[c2 as int]@[0];
            (prev.0.push(cs[i1 as int].distance(cs[i2 as int]) as u32), s2)
        }
    }
}

/// Inter-class distances from `draws` xorshift draws seeded with `seed`
/// (none without classes).
pub fn inter_class_distances(containers: &[Container], classes: &[Vec<usize>], draws: usize, seed: u64) -> (r: Vec<
    u32,
>)
    requires
        members_in_range(containers@, classes@),
        classes@.len() <= usize::MAX,
    ensures
        classes@.len() == 0 ==> r@.len() == 0,
        classes@.len() > 0 ==> r@ == inter_samples(containers@, classes@, seed, draws as int).0,
{
    let mut out: Vec<u32> = Vec::new();
    let n = classes.len();
    if n == 0 {
        return out;
    }
    let mut state = seed;
    for t in 0..draws
        invariant
            n == classes@.len(),
            n > 0,
            members_in_range(containers@, classes@),
            out@ == inter_samples(containers@, classes@, seed, t as int).0,
            state == inter_samples(containers@, classes@, seed, t as int).1,
    {
        let s1 = xorshift64(state);
        let s2 = xorshift64(s1);
        state = s2;
        let c1 = (s1 as usize) % n;
        let c2 = (s2 as usize) % n;
        if c1 != c2 && classes[c1].len() > 0 && classes[c2].len() > 0 {
            let i1 = classes[c1][0];
            let i2 = classes[c2][0];
            proof {
                assert(classes@[c1 as int]@[0] < containers@.len());
                assert(classes@[c2 as int]@[0] < containers@.len());
            }
            let d = containers[i1].hamming(&containers[i2]);
            out.push(d);
        }
    }
    out
}

/// Distances from member `i` of `m` to every later member.
pub open spec fn row_pairs(cs: Seq<Container>, m: Seq<usize>, i: int) -> Seq<u32> {
    Seq::new(
        if i < m.len() { (m.len() - i - 1) as nat } else { 0nat },
        |t: int| cs[m[i] as int].distance(cs[m[i + 1 + t] as int]) as u32,
    )
}

/// Distances of all pairs `(i, j)`, `i < j`, with `i < r`, of members of
/// `m`, ordered by `i` and then `j`.
pub open spec fn member_pairs(cs: Seq<Container>, m: Seq<usize>, r: int) -> Seq<u32>
    decreases r,
{
    if r <= 0 {
        Seq::empty()
    } else {
        member_pairs(cs, m, r - 1) + row_pairs(cs, m, r - 1)
    }
}

/// All member pairs of the first `k` classes, class after class.
pub open spec fn all_pairs(cs: Seq<Container>, classes: Seq<Vec<usize>>, k: int) -> Seq<u32>
    decreases k,
{
    if k <= 0 {
        Seq::empty()
    } else {
        all_pairs(cs, classes, k - 1) + member_pairs(cs, classes[k - 1]@, classes[k - 1]@.len() as int)
    }
}

/// Intra-class distances of every pair of members of each class: for each
/// class in order, pairs `(i, j)` with `i < j` ordered by `i`, then `j`.
pub fn all_intra_distances(containers: &[Container], classes: &[Vec<usize>]) -> (r: Vec<u32>)
    requires
        members_in_range(containers@, classes@),
    ensures
        r@ == all_pairs(containers@, classes@, classes@.len() as int),
{
    let mut out: Vec<u32> = Vec::new();
    for k in 0..classes.len()
        invariant
            members_in_range(containers@, classes@),
            out@ == all_pairs(containers@, classes@, k as int),
    {
        let members = &classes[k];
        let len = members.len();
        let ghost m = classes@[k as int]@;
        let ghost base = out@;
        for i in 0..len
            invariant
                members_in_range(containers@, classes@),
                k < classes@.len(),
                m == classes@[k as int]@,
                members@ == m,
                len == m.len(),
                out@ == base + member_pairs(containers@, m, i as int),
        {
            let ghost before = out@;
            for j in i + 1..len
                invariant
                    members_in_range(containers@, classes@),
                    k < classes@.len(),
                    m == classes@[k as int]@,
                    members@ == m,
                    len == m.len(),
                    i < len,
                    out@ == before + row_pairs(containers@, m, i as int).take(j - i - 1),
            {
                proof {
                    assert(classes@[k as int]@[i as int] < containers@.len());
                    assert(classes@[k as int]@[j as int] < containers@.len());
                }
                let d = containers[members[i]].hamming(&containers[members[j]]);
                out.push(d);
                proof {
                    assert(row_pairs(containers@, m, i as int).take(j - i) =~= row_pairs(containers@, m, i as int).take(
                        j - i - 1,
                    ).push(d));
                }
            }
            proof {
                assert(row_pairs(containers@, m, i as int).take(len - i - 1) =~= row_pairs(containers@, m, i as int));
                assert(out@ =~= base + member_pairs(containers@, m, i + 1));
            }
        }
    }
    out
}

/// Generator output `t` (counting from 1) reduced to an index below `n`.
pub open spec fn draw(seed: u64, t: nat, n: int) -> int {
    ((output(seed, t) as usize) % (n as usize)) as int
}

/// Redraw the partner `j` while it has the class `li`, at most `tries`
/// times; `t` generator outputs were used before.  Returns the partner and
/// the number of outputs used after.
pub open spec fn redraw(labels: Seq<usize>, li: usize, j: int, seed: u64, t: nat, tries: nat) -> (int, nat)
    decreases tries,
{
    if tries == 0 || labels[j] != li {
        (j, t)
    } else {
        redraw(labels, li, draw(seed, t + 1, labels.len() as int), seed, t + 1, (tries - 1) as nat)
    }
}

/// Random inter-class samples after `draws` draws from the generator
/// seeded with `seed`, with the number of generator outputs used: each
/// draw takes an input `i` and a partner `j`, redraws `j` up to 20 times
/// while it shares the class of `i`, and records their distance when the
/// classes differ.
pub open spec fn random_inter(cs: Seq<Container>, labels: Seq<usize>, seed: u64, draws: int) -> (Seq<u32>, nat)
    decreases draws,
{
    if draws <= 0 {
        (Seq::empty(), 0)
    } else {
        let prev = random_inter(cs, labels, seed, draws - 1);
        let n = labels.len() as int;
        let i = draw(seed, prev.1 + 1, n);
        let j0 = draw(seed, prev.1 + 2, n);
        let r = redraw(labels, labels[i], j0, seed, prev.1 + 2, 20);
        if labels[r.0] != labels[i] {
            (prev.0.push(cs[i].distance(cs[r.0]) as u32), r.1)
        } else {
            (prev.0, r.1)
        }
    }
}

/// Next generator output reduced to an index below `n`.
fn draw_index(rng: &mut Rng, n: usize, Ghost(seed): Ghost<u64>, Ghost(t): Ghost<nat>) -> (r: usize)
    requires
        old(rng).0 == state_after(seed, t),
        n > 0,
    ensures
        r == draw(seed, t + 1, n as int),
        r < n,
        final(rng).0 == state_after(seed, t + 1),
{
    (rng.next_u64() as usize) % n
}

/// Redraw the partner `j` while it has class `li`, at most 20 times.
fn redraw_partner(rng: &mut Rng, labels: &[usize], li: usize, j: usize, Ghost(seed): Ghost<u64>, Ghost(t): Ghost<nat>) -> (r: (
    usize,
    Ghost<nat>,
))
    requires
        old(rng).0 == state_after(seed, t),
        j < labels@.len(),
    ensures
        (r.0 as int, r.1@) == redraw(labels@, li, j as int, seed, t, 20),
        r.0 < labels@.len(),
        final(rng).0 == state_after(seed, r.1@),
{
    let n = labels.len();
    let ghost j0 = j;
    let mut j = j;
    let ghost mut tt: nat = t;
    let mut tries: usize = 0;
    while tries < 20
        invariant
            n == labels@.len(),
            j < n,
            tries <= 20,
            rng.0 == state_after(seed, tt),
            redraw(labels@, li, j as int, seed, tt, (20 - tries) as nat) == redraw(labels@, li, j0 as int, seed, t, 20),
        ensures
            tries == 20 || labels@[j as int] != li,
            j < n,
            rng.0 == state_after(seed, tt),
            redraw(labels@, li, j as int, seed, tt, (20 - tries) as nat) == redraw(labels@, li, j0 as int, seed, t, 20),
        decreases 20 - tries,
    {
        if labels[j] != li {
            break;
        }
        j = draw_index(rng, n, Ghost(seed), Ghost(tt));
        proof {
            tt = tt + 1;
        }
        tries = tries + 1;
    }
    (j, Ghost(tt))
}

/// Inter-class distances from `draws` random pairs drawn with the SplitMix
/// generator seeded with `seed` (see `random_inter`); none for an empty
/// corpus.
pub fn random_inter_distances(containers: &[Container], labels: &[usize], draws: usize, seed: u64) -> (r: Vec<u32>)
    requires
        labels@.len() == containers@.len(),
    ensures
        containers@.len() == 0 ==> r@.len() == 0,
        containers@.len() > 0 ==> r@ == random_inter(containers@, labels@, seed, draws as int).0,
{
    let mut out: Vec<u32> = Vec::new();
    let n = containers.len();
    if n == 0 {
        return out;
    }
    let mut rng = Rng::new(seed);
    let ghost mut t: nat = 0;
    for k in 0..draws
        invariant
            n == containers@.len(),
            n == labels@.len(),
            n > 0,
            out@ == random_inter(containers@, labels@, seed, k as int).0,
            t == random_inter(containers@, labels@, seed, k as int).1,
            rng.0 == state_after(seed, t),
    {
        let i = draw_index(&mut rng, n, Ghost(seed), Ghost(t));
        let j0 = draw_index(&mut rng, n, Ghost(seed), Ghost(t + 1));
        let li = labels[i];
        let (j, Ghost(t2)) = redraw_partner(&mut rng, labels, li, j0, Ghost(seed), Ghost(t + 2));
        proof {
            t = t2;
        }
        if labels[j] != li {
            let d = containers[i].hamming(&containers[j]);
            out.push(d);
        }
    }
    out
}

/// Indices `i < n` with class `k`, in increasing order.
pub open spec fn members_of(ids: Seq<usize>, k: int, n: int) -> Seq<usize>
    decreases n,
{
    if n <= 0 {
        Seq::empty()
    } else if ids[n - 1] == k {
        members_of(ids, k, n - 1).push((n - 1) as usize)
    } else {
        members_of(ids, k, n - 1)
    }
}

/// Group inputs by class: entry `k` lists, in increasing order, the
/// indices of the inputs whose class id is `k`.
pub fn class_members(ids: &[usize], num_classes: usize) -> (r: Vec<Vec<usize>>)
    ensures
        r@.len() == num_classes,
        forall|k: int| 0 <= k < num_classes ==> (#[trigger] r@[k])@ == members_of(ids@, k, ids@.len() as int),
{
    let mut out: Vec<Vec<usize>> = Vec::new();
    let n = ids.len();
    for k in 0..num_classes
        invariant
            n == ids@.len(),
            out@.len() == k,
            forall|j: int| 0 <= j < k ==> (#[trigger] out@[j])@ == members_of(ids@, j, n as int),
    {
        let mut row: Vec<usize> = Vec::new();
        for i in 0..n
            invariant
                n == ids@.len(),
                row@ == members_of(ids@, k as int, i as int),
        {
            if ids[i] == k {
                row.push(i);
            }
        }
        out.push(row);
    }
    out
}


/// The character sequences of `labels`.
pub open spec fn label_views(labels: Seq<String>) -> Seq<Seq<char>> {
    labels.map_values(|s: String| s@)
}

/// The distinct labels of `ls` in order of first appearance.
pub open spec fn first_appearances(ls: Seq<Seq<char>>) -> Seq<Seq<char>>
    decreases ls.len(),
{
    if ls.len() == 0 {
        Seq::empty()
    } else {
        let prev = first_appearances(ls.drop_last());
        if prev.contains(ls.last()) {
            prev
        } else {
            prev.push(ls.last())
        }
    }
}

/// Number the classes of `labels` by first appearance: the class names in
/// that order, and the class id of each label, the position of its name.
pub fn class_ids(labels: &[String]) -> (r: (Vec<usize>, Vec<String>))
    ensures
        label_views(r.1@) == first_appearances(label_views(labels@)),
        label_views(r.1@).no_duplicates(),
        r.0@.len() == labels@.len(),
        forall|i: int|
            0 <= i < labels@.len() ==> (#[trigger] r.0@[i]) < r.1@.len() && r.1@[r.0@[i] as int]@
                == labels@[i]@,
{
    let mut names: Vec<String> = Vec::new();
    let mut ids: Vec<usize> = Vec::new();
    let n = labels.len();
    for i in 0..n
        invariant
            n == labels@.len(),
            ids@.len() == i,
            names@.len() <= i,
            label_views(names@) == first_appearances(label_views(labels@).take(i as int)),
            label_views(names@).no_duplicates(),
            forall|j: int|
                0 <= j < i ==> (#[trigger] ids@[j]) < names@.len() && names@[ids@[j] as int]@
                    == labels@[j]@,
    {
        let ghost ls = label_views(labels@);
        let ghost prev = label_views(names@);
        proof {
            assert(ls.take(i as int + 1).drop_last() =~= ls.take(i as int));
            assert(ls.take(i as int + 1).last() == labels@[i as int]@);
        }
        let mut k: usize = 0;
        let mut found = false;
        while k < names.len() && !found
            invariant
                i < n,
                n == labels@.len(),
                k <= names@.len(),
                found ==> k < names@.len() && names@[k as int]@ == labels@[i as int]@,
                forall|t: int| 0 <= t < k ==> names@[t]@ != labels@[i as int]@,
            decreases names@.len() - k + if found { 0int } else { 1int },
        {
            if names[k] == labels[i] {
                found = true;
            } else {
                k = k + 1;
            }
        }
        if found {
            proof {
                assert(prev[k as int] == labels@[i as int]@);
                assert(prev.contains(labels@[i as int]@));
            }
            ids.push(k);
        } else {
            proof {
                assert(!prev.contains(labels@[i as int]@)) by {
                    if prev.contains(labels@[i as int]@) {
                        let t = choose|t: int| 0 <= t < prev.len() && prev[t] == labels@[i as int]@;
                        assert(names@[t]@ == labels@[i as int]@);
                    }
                }
            }
            let name = labels[i].clone();
            ids.push(names.len());
            names.push(name);
            proof {
                assert(label_views(names@) =~= prev.push(labels@[i as int]@));
            }
        }
    }
    proof {
        assert(label_views(labels@).take(n as int) =~= label_views(labels@));
    }
    (ids, names)
}

/// Group labelled inputs by class: the class id of each input (classes
/// numbered by first appearance), the class names, and the members of
/// each class in input order.
pub fn class_groups(labels: &[String]) -> (r: (Vec<usize>, Vec<String>, Vec<Vec<usize>>))
    ensures
        label_views(r.1@) == first_appearances(label_views(labels@)),
        label_views(r.1@).no_duplicates(),
        r.0@.len() == labels@.len(),
        forall|i: int|
            0 <= i < labels@.len() ==> (#[trigger] r.0@[i]) < r.1@.len() && r.1@[r.0@[i] as int]@
                == labels@[i]@,
        r.2@.len() == r.1@.len(),
        forall|k: int| 0 <= k < r.2@.len() ==> (#[trigger] r.2@[k])@ == members_of(r.0@, k, labels@.len() as int),
{
    let (ids, names) = class_ids(labels);
    let members = class_members(ids.as_slice(), names.len());
    (ids, names, members)
}

} // verus!
