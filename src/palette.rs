//! The public clustering entry point: validation, seeding, Lloyd's
//! iterations and the packaging of the result.

use vstd::prelude::*;
use vstd::relations::injective_on;
use vstd::set_lib::{lemma_int_range, lemma_map_size, lemma_subset_equality, set_int_range};
use crate::color::Colors;
use crate::engine::{
    as_ints,
    assign,
    assignment,
    lemma_each_sample_own_cluster,
    lloyd,
    pop,
    populations,
    run_lloyd,
    update_centroids,
};
use crate::seeding::{
    distinct_colors,
    distinct_samples,
    drawn_indices,
    lemma_distinct_colors,
    lemma_distinct_of_unique,
    sample_indices,
};

verus! {

/// Settings of one clustering run.
#[derive(Clone, Copy, Debug, PartialEq, Eq, Structural)]
pub struct ClusterConfig {
    /// Upper bound on the number of rounds of Lloyd's algorithm.
    pub max_iterations: u32,
    /// The run stops once no centroid moves by this many channel units.
    pub tolerance: u32,
    /// Seed of the random source that picks the initial centroids.
    pub seed: u64,
}

/// Default bound on the number of rounds.
pub const DEFAULT_MAX_ITERATIONS: u32 = 100;

/// Default convergence tolerance, in channel units.
pub const DEFAULT_TOLERANCE: u32 = 1;

impl ClusterConfig {
    /// The default settings with the given seed.
    pub fn new(seed: u64) -> (r: ClusterConfig)
        ensures
            r == (ClusterConfig {
                max_iterations: DEFAULT_MAX_ITERATIONS,
                tolerance: DEFAULT_TOLERANCE,
                seed,
            }),
    {
        ClusterConfig { max_iterations: DEFAULT_MAX_ITERATIONS, tolerance: DEFAULT_TOLERANCE, seed }
    }
}

/// Why a palette could not be produced.
#[derive(Clone, Copy, Debug, PartialEq, Eq, Structural)]
pub enum ClusterError {
    /// The image could not be read or decoded.
    DecodeError,
    /// The cluster count is zero or exceeds the number of samples.
    InvalidK,
    /// There are no samples at all.
    EmptyInput,
}

/// Result of a clustering run, dominant colour first.
#[derive(Debug)]
pub struct Palette {
    /// The centroids, in order of descending population.
    pub centroids: Vec<Colors>,
    /// Number of samples assigned to each centroid.
    pub populations: Vec<usize>,
    /// For each sample, the position of its centroid in `centroids`.
    pub assignments: Vec<usize>,
}

/// The initial centroids: `k` distinct colours of the samples drawn at
/// random, or, when there are fewer than `k` distinct colours, the colours
/// of `k` distinct sample positions.
pub open spec fn initial_centroids(s: Seq<Colors>, k: nat, seed: u64) -> Seq<Colors> {
    let d = distinct_colors(s);
    if k <= d.len() {
        Seq::new(k, |i: int| d[drawn_indices(seed, d.len(), k)[i] as int])
    } else {
        Seq::new(k, |i: int| s[drawn_indices(seed, s.len(), k)[i] as int])
    }
}

/// Cluster `x` comes before cluster `y` in the output: it has more samples,
/// or as many and a lower index.
pub open spec fn before(pops: Seq<int>, x: int, y: int) -> bool {
    pops[x] > pops[y] || (pops[x] == pops[y] && x < y)
}

/// Number of the clusters below `m` that come before cluster `x`.
pub open spec fn rank_in(pops: Seq<int>, x: int, m: int) -> int
    decreases m,
{
    if m <= 0 {
        0
    } else {
        rank_in(pops, x, m - 1) + if before(pops, m - 1, x) {
            1int
        } else {
            0
        }
    }
}

/// Output position of cluster `x`.
pub open spec fn rank(pops: Seq<int>, x: int) -> int {
    rank_in(pops, x, pops.len() as int)
}

/// Centroids after Lloyd's algorithm, in cluster order.
pub open spec fn final_centroids(s: Seq<Colors>, k: nat, cfg: ClusterConfig) -> Seq<Colors> {
    lloyd(s, initial_centroids(s, k, cfg.seed), cfg.max_iterations as nat, cfg.tolerance as int)
}

/// Populations of the clusters after the run, in cluster order.
pub open spec fn final_populations(s: Seq<Colors>, k: nat, cfg: ClusterConfig) -> Seq<int> {
    populations(assignment(s, final_centroids(s, k, cfg)), k as int)
}

/// `p` is the packaged result of clustering `s` into `k` clusters: each
/// cluster's centroid stands at its rank, each sample points at the rank of
/// its nearest final centroid, and the populations count those pointers.
pub open spec fn is_palette_of(p: Palette, s: Seq<Colors>, k: nat, cfg: ClusterConfig) -> bool {
    let fin = final_centroids(s, k, cfg);
    let a = assignment(s, fin);
    let pops = final_populations(s, k, cfg);
    &&& p.centroids.len() == k
    &&& forall|x: int| 0 <= x < k ==> p.centroids@[#[trigger] rank(pops, x)] == fin[x]
    &&& as_ints(p.assignments@) == Seq::new(s.len(), |i: int| rank(pops, a[i]))
    &&& as_ints(p.populations@) == populations(as_ints(p.assignments@), k as int)
}

proof fn lemma_rank_bound(pops: Seq<int>, x: int, m: int)
    requires
        0 <= m <= pops.len(),
        0 <= x < pops.len(),
    ensures
        0 <= rank_in(pops, x, m) <= m - (if x < m { 1int } else { 0 }),
    decreases m,
{
    if m > 0 {
        lemma_rank_bound(pops, x, m - 1);
    }
}

proof fn lemma_rank_grows(pops: Seq<int>, x: int, y: int, m: int)
    requires
        0 <= m <= pops.len(),
        0 <= x < pops.len(),
        0 <= y < pops.len(),
        before(pops, x, y),
    ensures
        rank_in(pops, y, m) >= rank_in(pops, x, m) + (if x < m { 1int } else { 0 }),
    decreases m,
{
    if m > 0 {
        lemma_rank_grows(pops, x, y, m - 1);
    }
}

/// Distinct clusters get distinct positions, all below the cluster count.
pub proof fn lemma_rank_injective(pops: Seq<int>, x: int, y: int)
    requires
        0 <= x < pops.len(),
        0 <= y < pops.len(),
    ensures
        0 <= rank(pops, x) < pops.len(),
        x != y ==> rank(pops, x) != rank(pops, y),
{
    lemma_rank_bound(pops, x, pops.len() as int);
    if x != y {
        if before(pops, x, y) {
            lemma_rank_grows(pops, x, y, pops.len() as int);
        } else {
            lemma_rank_grows(pops, y, x, pops.len() as int);
        }
    }
}

proof fn lemma_rank_when_equal(pops: Seq<int>, x: int, m: int)
    requires
        0 <= m <= pops.len(),
        0 <= x < pops.len(),
        forall|t: int| 0 <= t < pops.len() ==> pops[t] == 1,
    ensures
        rank_in(pops, x, m) == (if x < m { x } else { m }),
    decreases m,
{
    if m > 0 {
        lemma_rank_when_equal(pops, x, m - 1);
    }
}

/// The initial centroids for `k` clusters.
pub fn choose_initial(samples: &Vec<Colors>, k: usize, seed: u64) -> (r: Vec<Colors>)
    requires
        1 <= k <= samples.len(),
    ensures
        r@ == initial_centroids(samples@, k as nat, seed),
        forall|i: int| 0 <= i < k ==> samples@.contains(#[trigger] r@[i]),
        k <= distinct_colors(samples@).len() ==> r@.no_duplicates(),
{
    proof {
        lemma_distinct_colors(samples@, samples@.len() as int);
        assert(samples@.take(samples@.len() as int) =~= samples@);
    }
    let d = distinct_samples(samples);
    let from: &Vec<Colors> = if k <= d.len() {
        &d
    } else {
        samples
    };
    let idx = sample_indices(seed, from.len(), k);
    let mut r: Vec<Colors> = Vec::new();
    let mut i: usize = 0;
    while i < k
        invariant
            i <= k,
            idx.len() == k,
            forall|t: int| 0 <= t < k ==> idx@[t] < from.len(),
            r.len() == i,
            forall|t: int| 0 <= t < i ==> r@[t] == from@[idx@[t] as int],
        decreases k - i,
    {
        r.push(from[idx[i]]);
        i += 1;
    }
    assert(r@ =~= initial_centroids(samples@, k as nat, seed));
    assert forall|i: int| 0 <= i < k implies samples@.contains(#[trigger] r@[i]) by {
        if k <= d.len() {
            assert(d@.contains(d@[idx@[i] as int]));
        } else {
            assert(samples@[idx@[i] as int] == r@[i]);
        }
    }
    if k <= d.len() {
        assert forall|x: int, y: int| 0 <= x < r.len() && 0 <= y < r.len() && x != y implies r@[x]
            != r@[y] by {
            assert(idx@[x] != idx@[y]);
        }
    }
    r
}

/// Output position of every cluster, given the populations.
pub fn ranks(pops: &Vec<usize>) -> (r: Vec<usize>)
    ensures
        r.len() == pops.len(),
        forall|x: int| 0 <= x < pops.len() ==> r@[x] as int == #[trigger] rank(as_ints(pops@), x),
{
    let ghost p = as_ints(pops@);
    let k = pops.len();
    let mut r: Vec<usize> = Vec::new();
    let mut x: usize = 0;
    while x < k
        invariant
            p == as_ints(pops@),
            k == pops.len(),
            x <= k,
            r.len() == x,
            forall|t: int| 0 <= t < x ==> r@[t] as int == #[trigger] rank(p, t),
        decreases k - x,
    {
        let mut c: usize = 0;
        let mut y: usize = 0;
        while y < k
            invariant
                p == as_ints(pops@),
                k == pops.len(),
                x < k,
                y <= k,
                c as int == rank_in(p, x as int, y as int),
            decreases k - y,
        {
            proof {
                lemma_rank_bound(p, x as int, y as int);
            }
            if pops[y] > pops[x] || (pops[y] == pops[x] && y < x) {
                c += 1;
            }
            y += 1;
        }
        r.push(c);
        x += 1;
    }
    r
}

/// Sum of a sequence of integers.
pub open spec fn total(v: Seq<int>) -> int
    decreases v.len(),
{
    if v.len() == 0 {
        0
    } else {
        total(v.drop_last()) + v.last()
    }
}

/// Number of the first `m` entries of `a` that lie in `0..k`.
pub open spec fn in_range(a: Seq<int>, k: int, m: int) -> int
    decreases m,
{
    if m <= 0 {
        0
    } else {
        in_range(a, k, m - 1) + if 0 <= a[m - 1] < k {
            1int
        } else {
            0
        }
    }
}

proof fn lemma_in_range_split(a: Seq<int>, k: int, m: int)
    requires
        k >= 1,
        0 <= m <= a.len(),
    ensures
        in_range(a, k, m) == in_range(a, k - 1, m) + pop(a, k - 1, m),
    decreases m,
{
    if m > 0 {
        lemma_in_range_split(a, k, m - 1);
    }
}

proof fn lemma_in_range_empty(a: Seq<int>, m: int)
    requires
        0 <= m <= a.len(),
    ensures
        in_range(a, 0, m) == 0,
    decreases m,
{
    if m > 0 {
        lemma_in_range_empty(a, m - 1);
    }
}

proof fn lemma_in_range_full(a: Seq<int>, k: int, m: int)
    requires
        0 <= m <= a.len(),
        forall|i: int| 0 <= i < a.len() ==> 0 <= #[trigger] a[i] < k,
    ensures
        in_range(a, k, m) == m,
    decreases m,
{
    if m > 0 {
        lemma_in_range_full(a, k, m - 1);
    }
}

proof fn lemma_total_populations(a: Seq<int>, k: int)
    requires
        k >= 0,
    ensures
        total(populations(a, k)) == in_range(a, k, a.len() as int),
    decreases k,
{
    if k == 0 {
        lemma_in_range_empty(a, a.len() as int);
    } else {
        lemma_total_populations(a, k - 1);
        assert(populations(a, k).drop_last() =~= populations(a, k - 1));
        lemma_in_range_split(a, k, a.len() as int);
    }
}

/// When every sample is assigned to one of `k` clusters, the populations of
/// the clusters add up to the number of samples.
pub proof fn lemma_populations_sum(a: Seq<int>, k: int)
    requires
        k >= 0,
        forall|i: int| 0 <= i < a.len() ==> 0 <= #[trigger] a[i] < k,
    ensures
        total(populations(a, k)) == a.len(),
{
    lemma_total_populations(a, k);
    lemma_in_range_full(a, k, a.len() as int);
}

/// Clusters `samples` into `k` dominant colours.
///
/// Fails with `EmptyInput` when there are no samples, and with `InvalidK`
/// when `k` is zero or exceeds the number of samples; otherwise returns the
/// palette that seeding with `config.seed` and Lloyd's algorithm give.
pub fn cluster(samples: &Vec<Colors>, k: usize, config: &ClusterConfig) -> (r: Result<Palette, ClusterError>)
    ensures
        samples.len() == 0 ==> r is Err && r->Err_0 == ClusterError::EmptyInput,
        samples.len() > 0 && (k == 0 || k > samples.len()) ==> r is Err && r->Err_0
            == ClusterError::InvalidK,
        1 <= k <= samples.len() ==> r is Ok,
        r is Ok ==> is_palette_of(r->Ok_0, samples@, k as nat, *config),
        r is Ok ==> r->Ok_0.centroids.len() == k && total(as_ints(r->Ok_0.populations@))
            == samples.len(),
        r is Ok && k == samples.len() && samples@.no_duplicates() ==> as_ints(
            r->Ok_0.populations@,
        ) == Seq::new(k as nat, |t: int| 1int) && forall|i: int|
            0 <= i < samples.len() ==> r->Ok_0.centroids@[#[trigger] r->Ok_0.assignments@[i] as int]
                == samples@[i],
{
    if samples.len() == 0 {
        return Err(ClusterError::EmptyInput);
    }
    if k == 0 || k > samples.len() {
        return Err(ClusterError::InvalidK);
    }
    let ghost s = samples@;
    let init = choose_initial(samples, k, config.seed);
    let ghost start = init@;
    let fin = run_lloyd(samples, init, config.max_iterations, config.tolerance);
    let a = assign(samples, &fin);
    let (_, pops) = update_centroids(samples, &a, &fin);
    let ghost p = as_ints(pops@);
    assert(p == final_populations(s, k as nat, *config));
    let rk = ranks(&pops);
    let mut cents: Vec<Colors> = Vec::new();
    let mut j: usize = 0;
    while j < k
        invariant
            j <= k,
            cents.len() == j,
            fin.len() == k,
        decreases k - j,
    {
        cents.push(fin[0]);
        j += 1;
    }
    let mut x: usize = 0;
    while x < k
        invariant
            x <= k,
            cents.len() == k,
            fin.len() == k,
            pops.len() == k,
            p == as_ints(pops@),
            rk.len() == k,
            forall|t: int| 0 <= t < k ==> rk@[t] as int == #[trigger] rank(p, t),
            forall|t: int| 0 <= t < x ==> cents@[#[trigger] rank(p, t)] == fin@[t],
        decreases k - x,
    {
        proof {
            lemma_rank_injective(p, x as int, x as int);
            assert forall|t: int| 0 <= t < x implies rank(p, t) != rank(p, x as int) by {
                lemma_rank_injective(p, t, x as int);
            }
        }
        let ghost before_set = cents@;
        cents.set(rk[x], fin[x]);
        proof {
            assert forall|t: int| 0 <= t < x + 1 implies cents@[#[trigger] rank(p, t)] == fin@[t] by {
                lemma_rank_injective(p, t, x as int);
                if t < x {
                    assert(before_set[rank(p, t)] == fin@[t]);
                }
            }
        }
        x += 1;
    }
    let mut out: Vec<usize> = Vec::new();
    let mut i: usize = 0;
    while i < samples.len()
        invariant
            s == samples@,
            i <= s.len(),
            out.len() == i,
            a.len() == s.len(),
            pops.len() == k,
            p == as_ints(pops@),
            forall|t: int| 0 <= t < a.len() ==> a@[t] < k,
            rk.len() == k,
            forall|t: int| 0 <= t < k ==> rk@[t] as int == #[trigger] rank(p, t),
            forall|t: int| 0 <= t < i ==> out@[t] as int == rank(p, a@[t] as int),
            forall|t: int| 0 <= t < i ==> out@[t] < k,
        decreases s.len() - i,
    {
        proof {
            lemma_rank_injective(p, a@[i as int] as int, a@[i as int] as int);
        }
        out.push(rk[a[i]]);
        i += 1;
    }
    let ghost fa = assignment(s, fin@);
    assert(as_ints(out@) =~= Seq::new(s.len(), |t: int| rank(p, fa[t]))) by {
        assert forall|t: int| 0 <= t < s.len() implies as_ints(out@)[t] == rank(p, fa[t]) by {
            assert(as_ints(a@)[t] == fa[t]);
        }
    }
    let (_, out_pops) = update_centroids(samples, &out, &cents);
    proof {
        lemma_populations_sum(as_ints(out@), k as int);
        if k == s.len() && s.no_duplicates() {
            lemma_distinct_of_unique(s, s.len() as int);
            assert(s.take(s.len() as int) =~= s);
            lemma_each_sample_own_cluster(s, start, config.max_iterations as nat, config.tolerance as int);
            assert(fin@ == start);
            assert(p =~= Seq::new(k as nat, |t: int| 1int));
            assert forall|i: int| 0 <= i < s.len() implies out@[i] == a@[i] by {
                lemma_rank_when_equal(p, a@[i] as int, k as int);
                assert(as_ints(a@)[i] == fa[i]);
            }
            assert(as_ints(out@) =~= as_ints(a@));
            assert forall|i: int| 0 <= i < s.len() implies cents@[#[trigger] out@[i] as int] == s[i] by {
                lemma_rank_when_equal(p, a@[i] as int, k as int);
                assert(as_ints(a@)[i] == fa[i]);
                assert(cents@[rank(p, a@[i] as int)] == fin@[a@[i] as int]);
            }
        }
    }
    Ok(Palette { centroids: cents, populations: out_pops, assignments: out })
}

/// Every output position belongs to exactly one cluster.
pub proof fn lemma_rank_onto(pops: Seq<int>, t: int)
    requires
        0 <= t < pops.len(),
    ensures
        exists|x: int| 0 <= x < pops.len() && #[trigger] rank(pops, x) == t,
{
    let k = pops.len() as int;
    let dom = set_int_range(0, k);
    let f = |x: int| rank(pops, x);
    lemma_int_range(0, k);
    assert(injective_on(f, dom)) by {
        assert forall|x: int, y: int|
            dom.contains(x) && dom.contains(y) && #[trigger] f(x) == #[trigger] f(y) implies x
            == y by {
            lemma_rank_injective(pops, x, y);
        }
    }
    let img = dom.map(f);
    lemma_map_size(dom, img, f);
    assert(img.subset_of(dom)) by {
        assert forall|y: int| img.contains(y) implies dom.contains(y) by {
            let x = choose|x: int| dom.contains(x) && y == f(x);
            lemma_rank_injective(pops, x, x);
        }
    }
    lemma_subset_equality(img, dom);
    assert(img.contains(t));
    let x = choose|x: int| dom.contains(x) && t == f(x);
    assert(0 <= x < pops.len() && rank(pops, x) == t);
}

/// Clustering is a function of its inputs: two palettes produced for the
/// same samples, cluster count and configuration (seed included) have the
/// same centroids, populations and assignments.
pub proof fn lemma_cluster_deterministic(
    p: Palette,
    q: Palette,
    s: Seq<Colors>,
    k: nat,
    cfg: ClusterConfig,
)
    requires
        is_palette_of(p, s, k, cfg),
        is_palette_of(q, s, k, cfg),
    ensures
        p.centroids@ == q.centroids@,
        p.assignments@ == q.assignments@,
        p.populations@ == q.populations@,
{
    let pops = final_populations(s, k, cfg);
    assert(p.assignments@ =~= q.assignments@) by {
        assert(as_ints(p.assignments@) == as_ints(q.assignments@));
        assert forall|i: int| 0 <= i < p.assignments.len() implies p.assignments@[i]
            == q.assignments@[i] by {
            assert(as_ints(p.assignments@)[i] == as_ints(q.assignments@)[i]);
        }
    }
    assert(p.assignments@ == q.assignments@);
    assert(as_ints(p.assignments@) == as_ints(q.assignments@));
    assert(p.populations@ =~= q.populations@) by {
        assert(as_ints(p.populations@) == populations(as_ints(p.assignments@), k as int));
        assert(as_ints(q.populations@) == populations(as_ints(q.assignments@), k as int));
        assert(as_ints(p.populations@) == as_ints(q.populations@));
        assert(as_ints(p.populations@).len() == p.populations.len());
        assert(as_ints(q.populations@).len() == q.populations.len());
        assert forall|i: int| 0 <= i < p.populations.len() implies p.populations@[i]
            == q.populations@[i] by {
            assert(as_ints(p.populations@)[i] == as_ints(q.populations@)[i]);
        }
    }
    assert(p.centroids@ =~= q.centroids@) by {
        assert forall|t: int| 0 <= t < p.centroids.len() implies p.centroids@[t]
            == q.centroids@[t] by {
            lemma_rank_onto(pops, t);
            let x = choose|x: int| 0 <= x < pops.len() && #[trigger] rank(pops, x) == t;
            assert(p.centroids@[rank(pops, x)] == q.centroids@[rank(pops, x)]);
        }
    }
}

} // verus!
