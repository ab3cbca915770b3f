//! Lloyd's algorithm over colour samples: assignment, update and the
//! iteration loop, each stated as a spec function over sequences.

use vstd::prelude::*;
use crate::color::{
    Colors,
    MAX_SQ_DIST,
    chan,
    sq_dist,
    sq_distance,
    lemma_sq_dist_bounds,
    lemma_sq_dist_zero,
};
use vstd::set_lib::lemma_subset_equality;

verus! {

/// Index of the nearest of the first `m` centroids to `c`; on equal
/// distances the lowest index wins.
pub open spec fn nearest_in(cs: Seq<Colors>, c: Colors, m: int) -> int
    decreases m,
{
    if m <= 1 {
        0
    } else {
        let b = nearest_in(cs, c, m - 1);
        if sq_dist(c, cs[m - 1]) < sq_dist(c, cs[b]) {
            m - 1
        } else {
            b
        }
    }
}

/// Index of the centroid nearest to `c`, lowest index on ties.
pub open spec fn nearest(cs: Seq<Colors>, c: Colors) -> int {
    nearest_in(cs, c, cs.len() as int)
}

/// The assignment of each sample to its nearest centroid.
pub open spec fn assignment(s: Seq<Colors>, cs: Seq<Colors>) -> Seq<int> {
    Seq::new(s.len(), |i: int| nearest(cs, s[i]))
}

/// An executable assignment read as integers.
pub open spec fn as_ints(v: Seq<usize>) -> Seq<int> {
    v.map_values(|x: usize| x as int)
}

/// Sum of channel `ch` over the first `m` samples assigned to cluster `j`.
pub open spec fn chan_sum(s: Seq<Colors>, a: Seq<int>, j: int, ch: int, m: int) -> int
    decreases m,
{
    if m <= 0 {
        0
    } else {
        chan_sum(s, a, j, ch, m - 1) + if a[m - 1] == j {
            chan(s[m - 1], ch)
        } else {
            0
        }
    }
}

/// Number of the first `m` samples assigned to cluster `j`.
pub open spec fn pop(a: Seq<int>, j: int, m: int) -> int
    decreases m,
{
    if m <= 0 {
        0
    } else {
        pop(a, j, m - 1) + if a[m - 1] == j {
            1int
        } else {
            0
        }
    }
}

/// `x / d` rounded to the nearest integer, halves upward.
pub open spec fn round_div(x: int, d: int) -> int {
    (2 * x + d) / (2 * d)
}

/// Rounded mean of channel `ch` over the samples of cluster `j`.
pub open spec fn mean_chan(s: Seq<Colors>, a: Seq<int>, j: int, ch: int) -> int {
    round_div(chan_sum(s, a, j, ch, s.len() as int), pop(a, j, s.len() as int))
}

/// New position of centroid `j`: the rounded mean of its samples, or its
/// old position when no sample is assigned to it (re-seeding then moves it).
pub open spec fn updated_centroid(s: Seq<Colors>, a: Seq<int>, cs: Seq<Colors>, j: int) -> Colors {
    if pop(a, j, s.len() as int) == 0 {
        cs[j]
    } else {
        Colors {
            red: mean_chan(s, a, j, 0) as u8,
            green: mean_chan(s, a, j, 1) as u8,
            blue: mean_chan(s, a, j, 2) as u8,
        }
    }
}

/// The update step for the assignment `a`.
pub open spec fn update(s: Seq<Colors>, a: Seq<int>, cs: Seq<Colors>) -> Seq<Colors> {
    Seq::new(cs.len(), |j: int| updated_centroid(s, a, cs, j))
}

/// Population of each of `k` clusters under the assignment `a`.
pub open spec fn populations(a: Seq<int>, k: int) -> Seq<int> {
    Seq::new(k as nat, |j: int| pop(a, j, a.len() as int))
}

proof fn lemma_nearest_in_range(cs: Seq<Colors>, c: Colors, m: int)
    requires
        m >= 1,
    ensures
        0 <= nearest_in(cs, c, m) < m,
    decreases m,
{
    if m > 1 {
        lemma_nearest_in_range(cs, c, m - 1);
    }
}

/// The nearest centroid lies in range whenever there is a centroid.
pub proof fn lemma_nearest_range(cs: Seq<Colors>, c: Colors)
    requires
        cs.len() >= 1,
    ensures
        0 <= nearest(cs, c) < cs.len(),
{
    lemma_nearest_in_range(cs, c, cs.len() as int);
}

/// The nearest centroid is no farther than any other, and strictly nearer
/// than every centroid of lower index.
pub proof fn lemma_nearest_is_closest(cs: Seq<Colors>, c: Colors, m: int)
    requires
        1 <= m <= cs.len(),
    ensures
        forall|j: int| 0 <= j < m ==> sq_dist(c, cs[nearest_in(cs, c, m)]) <= #[trigger] sq_dist(c, cs[j]),
        forall|j: int| 0 <= j < nearest_in(cs, c, m) ==> sq_dist(c, cs[nearest_in(cs, c, m)]) < #[trigger] sq_dist(c, cs[j]),
    decreases m,
{
    if m > 1 {
        lemma_nearest_is_closest(cs, c, m - 1);
        lemma_nearest_in_range(cs, c, m - 1);
    }
}

/// Channel sums are bounded by 255 times the population, which is bounded
/// by the number of samples looked at.
pub proof fn lemma_sum_bounds(s: Seq<Colors>, a: Seq<int>, j: int, ch: int, m: int)
    requires
        0 <= m <= s.len(),
        m <= a.len(),
    ensures
        0 <= chan_sum(s, a, j, ch, m) <= 255 * pop(a, j, m),
        0 <= pop(a, j, m) <= m,
    decreases m,
{
    if m > 0 {
        lemma_sum_bounds(s, a, j, ch, m - 1);
    }
}

proof fn lemma_round_div_bound(x: int, p: int)
    requires
        0 <= x <= 255 * p,
        p > 0,
    ensures
        0 <= round_div(x, p) <= 255,
{
    assert(2 * x + p < 256 * (2 * p)) by (nonlinear_arith)
        requires
            0 <= x <= 255 * p,
            p > 0,
    ;
    assert((2 * x + p) / (2 * p) < 256) by (nonlinear_arith)
        requires
            0 <= 2 * x + p < 256 * (2 * p),
            p > 0,
    ;
    assert((2 * x + p) / (2 * p) >= 0) by (nonlinear_arith)
        requires
            0 <= 2 * x + p,
            p > 0,
    ;
}

/// Index of the centroid nearest to `c`, the lowest index on ties.
pub fn nearest_centroid(centroids: &Vec<Colors>, c: Colors) -> (r: usize)
    requires
        centroids.len() > 0,
    ensures
        r as int == nearest(centroids@, c),
        r < centroids.len(),
{
    let mut best: usize = 0;
    let mut best_d: u32 = sq_distance(c, centroids[0]);
    let mut i: usize = 1;
    while i < centroids.len()
        invariant
            1 <= i <= centroids.len(),
            best as int == nearest_in(centroids@, c, i as int),
            best < i,
            best_d == sq_dist(c, centroids@[best as int]),
        decreases centroids.len() - i,
    {
        let d = sq_distance(c, centroids[i]);
        if d < best_d {
            best = i;
            best_d = d;
        }
        i += 1;
    }
    best
}

/// Assigns every sample to its nearest centroid.
pub fn assign(samples: &Vec<Colors>, centroids: &Vec<Colors>) -> (r: Vec<usize>)
    requires
        centroids.len() > 0,
    ensures
        as_ints(r@) == assignment(samples@, centroids@),
        r.len() == samples.len(),
        forall|i: int| 0 <= i < r.len() ==> r@[i] < centroids.len(),
{
    let mut r: Vec<usize> = Vec::new();
    let mut i: usize = 0;
    while i < samples.len()
        invariant
            centroids.len() > 0,
            i <= samples.len(),
            r.len() == i,
            forall|t: int| 0 <= t < i ==> r@[t] as int == nearest(centroids@, samples@[t]),
            forall|t: int| 0 <= t < i ==> r@[t] < centroids.len(),
        decreases samples.len() - i,
    {
        let j = nearest_centroid(centroids, samples[i]);
        r.push(j);
        i += 1;
    }
    assert(as_ints(r@) =~= assignment(samples@, centroids@));
    r
}

/// Every centroid moved by less than `tol` channel units.
pub open spec fn settled(prev: Seq<Colors>, next: Seq<Colors>, tol: int) -> bool {
    forall|j: int| 0 <= j < prev.len() ==> #[trigger] sq_dist(prev[j], next[j]) < tol * tol
}

/// One round of Lloyd's algorithm: assign, update, then re-seed the
/// clusters that were left empty.
pub open spec fn step(s: Seq<Colors>, cs: Seq<Colors>) -> Seq<Colors> {
    reseed(
        s,
        populations(assignment(s, cs), cs.len() as int),
        update(s, assignment(s, cs), cs),
    )
}

/// Centroids after running Lloyd's algorithm from `cs` for at most `iters`
/// rounds, stopping after the first round in which every centroid moved by
/// less than `tol`.
pub open spec fn lloyd(s: Seq<Colors>, cs: Seq<Colors>, iters: nat, tol: int) -> Seq<Colors>
    decreases iters,
{
    if iters == 0 {
        cs
    } else {
        let next = step(s, cs);
        if settled(cs, next, tol) {
            next
        } else {
            lloyd(s, next, (iters - 1) as nat, tol)
        }
    }
}

/// The update step: each centroid becomes the rounded per-channel mean of
/// the samples assigned to it; a centroid with no sample keeps its place
/// here and is left to `reseed_empty`. Also returns the population of each
/// cluster.
pub fn update_centroids(samples: &Vec<Colors>, assigned: &Vec<usize>, centroids: &Vec<Colors>) -> (r: (Vec<Colors>, Vec<usize>))
    requires
        assigned.len() == samples.len(),
        forall|i: int| 0 <= i < assigned.len() ==> assigned@[i] < centroids.len(),
    ensures
        r.0@ == update(samples@, as_ints(assigned@), centroids@),
        as_ints(r.1@) == populations(as_ints(assigned@), centroids.len() as int),
        r.1.len() == centroids.len(),
        forall|x: int|
            0 <= x < centroids.len() ==> r.1@[x] as int == #[trigger] pop(
                as_ints(assigned@),
                x,
                as_ints(assigned@).len() as int,
            ),
{
    let ghost s = samples@;
    let ghost a = as_ints(assigned@);
    let k = centroids.len();
    let mut sr: Vec<u128> = Vec::new();
    let mut sg: Vec<u128> = Vec::new();
    let mut sb: Vec<u128> = Vec::new();
    let mut cnt: Vec<usize> = Vec::new();
    let mut j: usize = 0;
    while j < k
        invariant
            j <= k,
            k == centroids.len(),
            sr.len() == j && sg.len() == j && sb.len() == j && cnt.len() == j,
            forall|t: int| 0 <= t < j ==> sr@[t] == 0 && sg@[t] == 0 && sb@[t] == 0 && cnt@[t] == 0,
        decreases k - j,
    {
        sr.push(0);
        sg.push(0);
        sb.push(0);
        cnt.push(0);
        j += 1;
    }
    let mut i: usize = 0;
    while i < samples.len()
        invariant
            s == samples@,
            a == as_ints(assigned@),
            assigned.len() == samples.len(),
            forall|t: int| 0 <= t < assigned.len() ==> assigned@[t] < k,
            k == centroids.len(),
            i <= samples.len(),
            sr.len() == k && sg.len() == k && sb.len() == k && cnt.len() == k,
            forall|t: int|
                0 <= t < k ==> sr@[t] == chan_sum(s, a, t, 0, i as int) && sg@[t] == chan_sum(
                    s,
                    a,
                    t,
                    1,
                    i as int,
                ) && sb@[t] == chan_sum(s, a, t, 2, i as int) && cnt@[t] == pop(a, t, i as int),
        decreases samples.len() - i,
    {
        let c = samples[i];
        let t = assigned[i];
        proof {
            lemma_sum_bounds(s, a, t as int, 0, i as int);
            lemma_sum_bounds(s, a, t as int, 1, i as int);
            lemma_sum_bounds(s, a, t as int, 2, i as int);
        }
        let nr = sr[t] + c.red as u128;
        let ng = sg[t] + c.green as u128;
        let nb = sb[t] + c.blue as u128;
        let nc = cnt[t] + 1;
        sr.set(t, nr);
        sg.set(t, ng);
        sb.set(t, nb);
        cnt.set(t, nc);
        i += 1;
    }
    let mut out: Vec<Colors> = Vec::new();
    let mut j: usize = 0;
    while j < k
        invariant
            s == samples@,
            a == as_ints(assigned@),
            assigned.len() == samples.len(),
            k == centroids.len(),
            j <= k,
            out.len() == j,
            sr.len() == k && sg.len() == k && sb.len() == k && cnt.len() == k,
            forall|t: int|
                0 <= t < k ==> sr@[t] == chan_sum(s, a, t, 0, s.len() as int) && sg@[t] == chan_sum(
                    s,
                    a,
                    t,
                    1,
                    s.len() as int,
                ) && sb@[t] == chan_sum(s, a, t, 2, s.len() as int) && cnt@[t] == pop(a, t, s.len() as int),
            forall|t: int| 0 <= t < j ==> out@[t] == updated_centroid(s, a, centroids@, t),
        decreases k - j,
    {
        if cnt[j] == 0 {
            out.push(centroids[j]);
        } else {
            proof {
                lemma_sum_bounds(s, a, j as int, 0, s.len() as int);
                lemma_sum_bounds(s, a, j as int, 1, s.len() as int);
                lemma_sum_bounds(s, a, j as int, 2, s.len() as int);
                lemma_round_div_bound(sr@[j as int] as int, cnt@[j as int] as int);
                lemma_round_div_bound(sg@[j as int] as int, cnt@[j as int] as int);
                lemma_round_div_bound(sb@[j as int] as int, cnt@[j as int] as int);
            }
            let p = cnt[j] as u128;
            let red = ((2 * sr[j] + p) / (2 * p)) as u8;
            let green = ((2 * sg[j] + p) / (2 * p)) as u8;
            let blue = ((2 * sb[j] + p) / (2 * p)) as u8;
            out.push(Colors { red, green, blue });
        }
        j += 1;
    }
    assert(out@ =~= update(s, a, centroids@));
    assert(as_ints(cnt@) =~= populations(a, k as int));
    (out, cnt)
}

/// Whether every centroid moved by less than `tolerance` channel units.
pub fn has_settled(prev: &Vec<Colors>, next: &Vec<Colors>, tolerance: u32) -> (r: bool)
    requires
        prev.len() == next.len(),
    ensures
        r == settled(prev@, next@, tolerance as int),
{
    let t = tolerance as u64;
    assert(t * t <= u64::MAX) by (nonlinear_arith)
        requires
            t <= u32::MAX,
    ;
    let limit = t * t;
    let mut j: usize = 0;
    while j < prev.len()
        invariant
            prev.len() == next.len(),
            j <= prev.len(),
            limit == tolerance as int * tolerance as int,
            forall|q: int| 0 <= q < j ==> #[trigger] sq_dist(prev@[q], next@[q]) < limit,
        decreases prev.len() - j,
    {
        if sq_distance(prev[j], next[j]) as u64 >= limit {
            return false;
        }
        j += 1;
    }
    true
}

/// Runs Lloyd's algorithm from `init` for at most `max_iterations` rounds,
/// stopping once no centroid moves by `tolerance` or more.
pub fn run_lloyd(samples: &Vec<Colors>, init: Vec<Colors>, max_iterations: u32, tolerance: u32) -> (r: Vec<Colors>)
    requires
        init.len() > 0,
    ensures
        r@ == lloyd(samples@, init@, max_iterations as nat, tolerance as int),
        r.len() == init.len(),
{
    let ghost start = init@;
    let mut cs = init;
    let mut left: u32 = max_iterations;
    loop
        invariant
            cs.len() == start.len(),
            start == init@,
            start.len() > 0,
            lloyd(samples@, cs@, left as nat, tolerance as int) == lloyd(
                samples@,
                start,
                max_iterations as nat,
                tolerance as int,
            ),
        decreases left,
    {
        if left == 0 {
            return cs;
        }
        let a = assign(samples, &cs);
        let (moved, counts) = update_centroids(samples, &a, &cs);
        let next = reseed_empty(samples, &counts, moved);
        let done = has_settled(&cs, &next, tolerance);
        assert(next@ == step(samples@, cs@));
        left -= 1;
        cs = next;
        if done {
            return cs;
        }
    }
}

/// Total of channel `ch` over the first `m` samples.
pub open spec fn chan_total(s: Seq<Colors>, ch: int, m: int) -> int
    decreases m,
{
    if m <= 0 {
        0
    } else {
        chan_total(s, ch, m - 1) + chan(s[m - 1], ch)
    }
}

/// The per-channel mean of all samples, rounded to the nearest integer.
pub open spec fn mean_color(s: Seq<Colors>) -> Colors {
    Colors {
        red: round_div(chan_total(s, 0, s.len() as int), s.len() as int) as u8,
        green: round_div(chan_total(s, 1, s.len() as int), s.len() as int) as u8,
        blue: round_div(chan_total(s, 2, s.len() as int), s.len() as int) as u8,
    }
}

proof fn lemma_single_cluster_sums(s: Seq<Colors>, a: Seq<int>, ch: int, m: int)
    requires
        0 <= m <= s.len(),
        a.len() == s.len(),
        forall|i: int| 0 <= i < a.len() ==> a[i] == 0,
    ensures
        chan_sum(s, a, 0, ch, m) == chan_total(s, ch, m),
        pop(a, 0, m) == m,
    decreases m,
{
    if m > 0 {
        lemma_single_cluster_sums(s, a, ch, m - 1);
    }
}

/// With a single cluster, one round of Lloyd's algorithm puts the centroid
/// at the rounded per-channel mean of all samples, wherever it started.
pub proof fn lemma_single_cluster_mean(s: Seq<Colors>, cs: Seq<Colors>)
    requires
        s.len() > 0,
        cs.len() == 1,
    ensures
        step(s, cs) == seq![mean_color(s)],
{
    let a = assignment(s, cs);
    assert forall|i: int| 0 <= i < a.len() implies a[i] == 0 by {
        assert(a[i] == nearest_in(cs, s[i], 1));
    }
    lemma_single_cluster_sums(s, a, 0, s.len() as int);
    lemma_single_cluster_sums(s, a, 1, s.len() as int);
    lemma_single_cluster_sums(s, a, 2, s.len() as int);
    let upd = update(s, a, cs);
    assert(upd =~= seq![mean_color(s)]);
    let pops = populations(a, 1);
    lemma_reseed_keeps(s, pops, upd, upd.len() as int);
    assert(reseed(s, pops, upd)[0] == upd[0]);
    assert(step(s, cs) =~= seq![mean_color(s)]);
}

/// A colour that is one of a set of distinct centroids is assigned to it.
pub proof fn lemma_nearest_exact(cs: Seq<Colors>, c: Colors, x: int)
    requires
        cs.no_duplicates(),
        0 <= x < cs.len(),
        cs[x] == c,
    ensures
        nearest(cs, c) == x,
{
    lemma_nearest_range(cs, c);
    lemma_nearest_is_closest(cs, c, cs.len() as int);
    let n = nearest(cs, c);
    lemma_sq_dist_zero(c, cs[x]);
    lemma_sq_dist_bounds(c, cs[n]);
    lemma_sq_dist_zero(c, cs[n]);
}

proof fn lemma_lone_member(s: Seq<Colors>, a: Seq<int>, x: int, w: int, ch: int, m: int)
    requires
        0 <= m <= s.len(),
        a.len() == s.len(),
        0 <= w < s.len(),
        forall|i: int| 0 <= i < a.len() ==> (a[i] == x <==> i == w),
    ensures
        pop(a, x, m) == (if w < m { 1int } else { 0 }),
        chan_sum(s, a, x, ch, m) == (if w < m { chan(s[w], ch) } else { 0 }),
    decreases m,
{
    if m > 0 {
        lemma_lone_member(s, a, x, w, ch, m - 1);
    }
}

proof fn lemma_fixed_point(s: Seq<Colors>, cs: Seq<Colors>, iters: nat, tol: int)
    requires
        step(s, cs) == cs,
    ensures
        lloyd(s, cs, iters, tol) == cs,
    decreases iters,
{
    if iters > 0 {
        lemma_fixed_point(s, cs, (iters - 1) as nat, tol);
    }
}

/// When the centroids are the samples themselves in some order, all
/// distinct, every sample is assigned to the centroid equal to it, each
/// cluster holds exactly one sample, and Lloyd's algorithm leaves the
/// centroids where they are.
pub proof fn lemma_each_sample_own_cluster(s: Seq<Colors>, cs: Seq<Colors>, iters: nat, tol: int)
    requires
        s.no_duplicates(),
        cs.no_duplicates(),
        cs.len() == s.len(),
        forall|x: int| 0 <= x < cs.len() ==> s.contains(#[trigger] cs[x]),
    ensures
        lloyd(s, cs, iters, tol) == cs,
        populations(assignment(s, cs), cs.len() as int) == Seq::new(cs.len(), |x: int| 1int),
        forall|i: int| 0 <= i < s.len() ==> cs[#[trigger] assignment(s, cs)[i]] == s[i],
{
    broadcast use vstd::seq_lib::group_seq_properties;
    let a = assignment(s, cs);
    assert(cs.to_set().subset_of(s.to_set())) by {
        assert forall|c: Colors| cs.to_set().contains(c) implies s.to_set().contains(c) by {
            let x = choose|x: int| 0 <= x < cs.len() && cs[x] == c;
            assert(s.contains(cs[x]));
        }
    }
    cs.unique_seq_to_set();
    s.unique_seq_to_set();
    lemma_subset_equality(cs.to_set(), s.to_set());
    assert forall|i: int| 0 <= i < s.len() implies 0 <= #[trigger] a[i] < cs.len() && cs[a[i]] == s[i] by {
        assert(s.to_set().contains(s[i]));
        let x = choose|x: int| 0 <= x < cs.len() && cs[x] == s[i];
        lemma_nearest_exact(cs, s[i], x);
    }
    assert forall|x: int| 0 <= x < cs.len() implies #[trigger] updated_centroid(s, a, cs, x) == cs[x]
        && pop(a, x, s.len() as int) == 1 by {
        assert(s.contains(cs[x]));
        let w = choose|w: int| 0 <= w < s.len() && s[w] == cs[x];
        lemma_nearest_exact(cs, s[w], x);
        assert forall|i: int| 0 <= i < a.len() implies (a[i] == x <==> i == w) by {
            if a[i] == x {
                assert(cs[a[i]] == s[i]);
            }
        }
        lemma_lone_member(s, a, x, w, 0, s.len() as int);
        lemma_lone_member(s, a, x, w, 1, s.len() as int);
        lemma_lone_member(s, a, x, w, 2, s.len() as int);
        let c = cs[x];
        assert((2 * (c.red as int) + 1) / 2 == c.red as int);
        assert((2 * (c.green as int) + 1) / 2 == c.green as int);
        assert((2 * (c.blue as int) + 1) / 2 == c.blue as int);
        assert(mean_chan(s, a, x, 0) == c.red as int);
        assert(mean_chan(s, a, x, 1) == c.green as int);
        assert(mean_chan(s, a, x, 2) == c.blue as int);
    }
    let upd = update(s, a, cs);
    assert(upd =~= cs);
    let pops = populations(a, cs.len() as int);
    lemma_reseed_keeps(s, pops, upd, upd.len() as int);
    assert forall|x: int| 0 <= x < cs.len() implies #[trigger] reseed(s, pops, upd)[x] == cs[x] by {
        assert(updated_centroid(s, a, cs, x) == cs[x]);
    }
    assert(step(s, cs) =~= cs);
    lemma_fixed_point(s, cs, iters, tol);
    assert(populations(a, cs.len() as int) =~= Seq::new(cs.len(), |x: int| 1int)) by {
        assert forall|x: int| 0 <= x < cs.len() implies populations(a, cs.len() as int)[x] == 1 by {
            assert(updated_centroid(s, a, cs, x) == cs[x]);
        }
    }
}

/// While the empty clusters below `j` are being re-seeded, cluster `x`
/// counts as occupied if it has samples or has already been re-seeded.
pub open spec fn occupied(pops: Seq<int>, j: int, x: int) -> bool {
    pops[x] > 0 || x < j
}

/// Smallest distance from `c` to an occupied centroid among the first `m`,
/// or `MAX_SQ_DIST + 1` when there is none.
pub open spec fn gap_in(cs: Seq<Colors>, pops: Seq<int>, j: int, c: Colors, m: int) -> int
    decreases m,
{
    if m <= 0 {
        MAX_SQ_DIST + 1
    } else {
        let g = gap_in(cs, pops, j, c, m - 1);
        if occupied(pops, j, m - 1) && sq_dist(c, cs[m - 1]) < g {
            sq_dist(c, cs[m - 1])
        } else {
            g
        }
    }
}

/// Smallest distance from `c` to an occupied centroid.
pub open spec fn gap(cs: Seq<Colors>, pops: Seq<int>, j: int, c: Colors) -> int {
    gap_in(cs, pops, j, c, cs.len() as int)
}

/// Index of the sample among the first `m` that lies farthest from every
/// occupied centroid; the lowest index wins ties.
pub open spec fn farthest_in(s: Seq<Colors>, cs: Seq<Colors>, pops: Seq<int>, j: int, m: int) -> int
    decreases m,
{
    if m <= 1 {
        0
    } else {
        let b = farthest_in(s, cs, pops, j, m - 1);
        if gap(cs, pops, j, s[m - 1]) > gap(cs, pops, j, s[b]) {
            m - 1
        } else {
            b
        }
    }
}

/// Centroids after re-seeding each empty cluster below `j`, in index order,
/// at the sample farthest from the occupied centroids.
pub open spec fn reseed_upto(s: Seq<Colors>, pops: Seq<int>, cs: Seq<Colors>, j: int) -> Seq<Colors>
    decreases j,
{
    if j <= 0 {
        cs
    } else {
        let prev = reseed_upto(s, pops, cs, j - 1);
        if pops[j - 1] == 0 && s.len() > 0 {
            prev.update(j - 1, s[farthest_in(s, prev, pops, j - 1, s.len() as int)])
        } else {
            prev
        }
    }
}

/// The centroids with every empty cluster re-seeded.
pub open spec fn reseed(s: Seq<Colors>, pops: Seq<int>, cs: Seq<Colors>) -> Seq<Colors> {
    reseed_upto(s, pops, cs, cs.len() as int)
}

proof fn lemma_gap_in_bounds(cs: Seq<Colors>, pops: Seq<int>, j: int, c: Colors, m: int)
    requires
        0 <= m <= cs.len(),
    ensures
        0 <= gap_in(cs, pops, j, c, m) <= MAX_SQ_DIST + 1,
    decreases m,
{
    if m > 0 {
        lemma_gap_in_bounds(cs, pops, j, c, m - 1);
        lemma_sq_dist_bounds(c, cs[m - 1]);
    }
}

/// Re-seeding keeps the length and every cluster that has samples.
pub proof fn lemma_reseed_keeps(s: Seq<Colors>, pops: Seq<int>, cs: Seq<Colors>, j: int)
    requires
        0 <= j <= cs.len(),
    ensures
        reseed_upto(s, pops, cs, j).len() == cs.len(),
        forall|x: int|
            0 <= x < cs.len() && (pops[x] > 0 || x >= j) ==> #[trigger] reseed_upto(s, pops, cs, j)[x]
                == cs[x],
    decreases j,
{
    if j > 0 {
        lemma_reseed_keeps(s, pops, cs, j - 1);
    }
}

/// Smallest distance from `c` to an occupied centroid while re-seeding
/// cluster `j`; `counts` gives the population of each cluster.
pub fn gap_to_occupied(centroids: &Vec<Colors>, counts: &Vec<usize>, j: usize, c: Colors) -> (r: u32)
    requires
        counts.len() == centroids.len(),
            ensures
        r as int == gap(centroids@, as_ints(counts@), j as int, c),
{
    let mut g: u32 = MAX_SQ_DIST + 1;
    let mut x: usize = 0;
    while x < centroids.len()
        invariant
            counts.len() == centroids.len(),
                        x <= centroids.len(),
            g as int == gap_in(centroids@, as_ints(counts@), j as int, c, x as int),
        decreases centroids.len() - x,
    {
        proof {
            lemma_gap_in_bounds(centroids@, as_ints(counts@), j as int, c, x as int);
        }
        if counts[x] > 0 || x < j {
            let d = sq_distance(c, centroids[x]);
            if d < g {
                g = d;
            }
        }
        x += 1;
    }
    g
}

/// Index of the sample farthest from the occupied centroids while
/// re-seeding cluster `j`, the lowest index on ties.
pub fn farthest_sample(samples: &Vec<Colors>, centroids: &Vec<Colors>, counts: &Vec<usize>, j: usize) -> (r: usize)
    requires
        samples.len() > 0,
        counts.len() == centroids.len(),
            ensures
        r as int == farthest_in(samples@, centroids@, as_ints(counts@), j as int, samples.len() as int),
        r < samples.len(),
{
    let mut best: usize = 0;
    let mut best_g: u32 = gap_to_occupied(centroids, counts, j, samples[0]);
    let mut i: usize = 1;
    while i < samples.len()
        invariant
            counts.len() == centroids.len(),
                        1 <= i <= samples.len(),
            best as int == farthest_in(samples@, centroids@, as_ints(counts@), j as int, i as int),
            best < i,
            best_g as int == gap(centroids@, as_ints(counts@), j as int, samples@[best as int]),
        decreases samples.len() - i,
    {
        let g = gap_to_occupied(centroids, counts, j, samples[i]);
        if g > best_g {
            best = i;
            best_g = g;
        }
        i += 1;
    }
    best
}

/// Moves every cluster that has no sample to the sample farthest from the
/// occupied centroids, in index order; `counts` gives the populations.
pub fn reseed_empty(samples: &Vec<Colors>, counts: &Vec<usize>, centroids: Vec<Colors>) -> (r: Vec<Colors>)
    requires
        counts.len() == centroids.len(),
            ensures
        r@ == reseed(samples@, as_ints(counts@), centroids@),
        r.len() == centroids.len(),
{
    let ghost start = centroids@;
    let mut cs = centroids;
    let mut j: usize = 0;
    while j < cs.len()
        invariant
            start.len() == counts.len(),
            cs.len() == start.len(),
                        j <= cs.len(),
            cs@ == reseed_upto(samples@, as_ints(counts@), start, j as int),
        decreases start.len() - j,
    {
        if counts[j] == 0 && samples.len() > 0 {
            let f = farthest_sample(samples, &cs, counts, j);
            cs.set(j, samples[f]);
        }
        j += 1;
    }
    cs
}

} // verus!
