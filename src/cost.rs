//! The within-cluster cost of a clustering, and why Lloyd's rounds never
//! raise it.

use vstd::prelude::*;
use crate::color::{Colors, chan, sq_dist};
use crate::engine::{
    assignment,
    chan_sum,
    lemma_nearest_is_closest,
    lemma_nearest_range,
    lemma_sum_bounds,
    mean_chan,
    nearest,
    pop,
    populations,
    round_div,
    lemma_reseed_keeps,
    reseed,
    step,
    update,
    updated_centroid,
};

verus! {

/// Sum, over the first `m` samples, of the squared distance from each
/// sample to the centroid `a` assigns it to.
pub open spec fn cost(s: Seq<Colors>, a: Seq<int>, cs: Seq<Colors>, m: int) -> int
    decreases m,
{
    if m <= 0 {
        0
    } else {
        cost(s, a, cs, m - 1) + sq_dist(s[m - 1], cs[a[m - 1]])
    }
}

/// Total within-cluster squared distance when every sample goes to its
/// nearest centroid.
pub open spec fn sse(s: Seq<Colors>, cs: Seq<Colors>) -> int {
    cost(s, assignment(s, cs), cs, s.len() as int)
}

/// The part of `cost` that channel `ch` contributes.
pub open spec fn dev(s: Seq<Colors>, a: Seq<int>, cs: Seq<Colors>, ch: int, m: int) -> int
    decreases m,
{
    if m <= 0 {
        0
    } else {
        dev(s, a, cs, ch, m - 1) + (chan(s[m - 1], ch) - chan(cs[a[m - 1]], ch)) * (chan(
            s[m - 1],
            ch,
        ) - chan(cs[a[m - 1]], ch))
    }
}

/// Squared deviation in channel `ch` of the samples of cluster `j` from `v`.
pub open spec fn cdev(s: Seq<Colors>, a: Seq<int>, j: int, v: int, ch: int, m: int) -> int
    decreases m,
{
    if m <= 0 {
        0
    } else {
        cdev(s, a, j, v, ch, m - 1) + if a[m - 1] == j {
            (chan(s[m - 1], ch) - v) * (chan(s[m - 1], ch) - v)
        } else {
            0
        }
    }
}

/// Sum of squares of channel `ch` over the samples of cluster `j`.
pub open spec fn sq_sum(s: Seq<Colors>, a: Seq<int>, j: int, ch: int, m: int) -> int
    decreases m,
{
    if m <= 0 {
        0
    } else {
        sq_sum(s, a, j, ch, m - 1) + if a[m - 1] == j {
            chan(s[m - 1], ch) * chan(s[m - 1], ch)
        } else {
            0
        }
    }
}

/// `cdev` of each of the first `kk` clusters about its centroid, summed.
pub open spec fn grouped(s: Seq<Colors>, a: Seq<int>, cs: Seq<Colors>, ch: int, kk: int, m: int) -> int
    decreases kk,
{
    if kk <= 0 {
        0
    } else {
        grouped(s, a, cs, ch, kk - 1, m) + cdev(s, a, kk - 1, chan(cs[kk - 1], ch), ch, m)
    }
}

proof fn lemma_assignment_minimises(s: Seq<Colors>, cs: Seq<Colors>, b: Seq<int>, m: int)
    requires
        cs.len() >= 1,
        b.len() == s.len(),
        forall|i: int| 0 <= i < b.len() ==> 0 <= #[trigger] b[i] < cs.len(),
        0 <= m <= s.len(),
    ensures
        cost(s, assignment(s, cs), cs, m) <= cost(s, b, cs, m),
    decreases m,
{
    if m > 0 {
        lemma_assignment_minimises(s, cs, b, m - 1);
        lemma_nearest_is_closest(cs, s[m - 1], cs.len() as int);
        assert(0 <= b[m - 1] < cs.len());
    }
}

proof fn lemma_cost_by_channel(s: Seq<Colors>, a: Seq<int>, cs: Seq<Colors>, m: int)
    requires
        0 <= m <= s.len(),
        a.len() == s.len(),
    ensures
        cost(s, a, cs, m) == dev(s, a, cs, 0, m) + dev(s, a, cs, 1, m) + dev(s, a, cs, 2, m),
    decreases m,
{
    if m > 0 {
        lemma_cost_by_channel(s, a, cs, m - 1);
    }
}

proof fn lemma_grouped_step(s: Seq<Colors>, a: Seq<int>, cs: Seq<Colors>, ch: int, kk: int, m: int)
    requires
        1 <= m <= s.len(),
        a.len() == s.len(),
        0 <= kk <= cs.len(),
    ensures
        grouped(s, a, cs, ch, kk, m) == grouped(s, a, cs, ch, kk, m - 1) + if 0 <= a[m - 1] < kk {
            (chan(s[m - 1], ch) - chan(cs[a[m - 1]], ch)) * (chan(s[m - 1], ch) - chan(
                cs[a[m - 1]],
                ch,
            ))
        } else {
            0
        },
    decreases kk,
{
    if kk > 0 {
        lemma_grouped_step(s, a, cs, ch, kk - 1, m);
    }
}

proof fn lemma_dev_grouped(s: Seq<Colors>, a: Seq<int>, cs: Seq<Colors>, ch: int, m: int)
    requires
        0 <= m <= s.len(),
        a.len() == s.len(),
        forall|i: int| 0 <= i < a.len() ==> 0 <= #[trigger] a[i] < cs.len(),
    ensures
        dev(s, a, cs, ch, m) == grouped(s, a, cs, ch, cs.len() as int, m),
    decreases m,
{
    if m == 0 {
        lemma_grouped_zero(s, a, cs, ch, cs.len() as int);
    } else {
        lemma_dev_grouped(s, a, cs, ch, m - 1);
        lemma_grouped_step(s, a, cs, ch, cs.len() as int, m);
        assert(0 <= a[m - 1] < cs.len());
    }
}

proof fn lemma_grouped_zero(s: Seq<Colors>, a: Seq<int>, cs: Seq<Colors>, ch: int, kk: int)
    requires
        0 <= kk <= cs.len(),
    ensures
        grouped(s, a, cs, ch, kk, 0) == 0,
    decreases kk,
{
    if kk > 0 {
        lemma_grouped_zero(s, a, cs, ch, kk - 1);
    }
}

proof fn lemma_cdev_expand(s: Seq<Colors>, a: Seq<int>, j: int, v: int, ch: int, m: int)
    requires
        0 <= m <= s.len(),
        a.len() == s.len(),
    ensures
        cdev(s, a, j, v, ch, m) == sq_sum(s, a, j, ch, m) - 2 * v * chan_sum(s, a, j, ch, m) + v
            * v * pop(a, j, m),
    decreases m,
{
    if m > 0 {
        lemma_cdev_expand(s, a, j, v, ch, m - 1);
        let x = chan(s[m - 1], ch);
        let q = sq_sum(s, a, j, ch, m - 1);
        let t = chan_sum(s, a, j, ch, m - 1);
        let p = pop(a, j, m - 1);
        assert((x - v) * (x - v) == x * x - 2 * v * x + v * v) by (nonlinear_arith);
        assert(q + x * x - 2 * v * (t + x) + v * v * (p + 1) == q - 2 * v * t + v * v * p + (x
            * x - 2 * v * x + v * v)) by (nonlinear_arith);
    }
}

/// Among integers, the rounded mean minimises the squared deviation of a
/// cluster: `n c^2 - 2 S c` is smallest at `c = round_div(S, n)`.
proof fn lemma_rounded_mean_best(q: int, t: int, n: int, c: int)
    requires
        n > 0,
    ensures
        q - 2 * round_div(t, n) * t + round_div(t, n) * round_div(t, n) * n <= q - 2 * c * t + c
            * c * n,
{
    let m = round_div(t, n);
    let y = 2 * t + n;
    let d = 2 * n;
    assert(d * m <= y < d * m + d) by {
        vstd::arithmetic::div_mod::lemma_fundamental_div_mod(y, d);
    }
    assert(d * m == 2 * n * m) by (nonlinear_arith)
        requires
            d == 2 * n,
    ;
    let e = n * (c + m) - 2 * t;
    if c > m {
        assert(n * (c + m) >= n * (2 * m + 1)) by (nonlinear_arith)
            requires
                n > 0,
                c + m >= 2 * m + 1,
        ;
        assert(n * (2 * m + 1) == 2 * n * m + n) by (nonlinear_arith);
        assert(e > 0);
        assert((c - m) * e >= 0) by (nonlinear_arith)
            requires
                c - m > 0,
                e > 0,
        ;
    } else if c < m {
        assert(n * (c + m) <= n * (2 * m - 1)) by (nonlinear_arith)
            requires
                n > 0,
                c + m <= 2 * m - 1,
        ;
        assert(n * (2 * m - 1) == 2 * n * m - n) by (nonlinear_arith);
        assert(e <= 0);
        assert((c - m) * e >= 0) by (nonlinear_arith)
            requires
                c - m < 0,
                e <= 0,
        ;
    }
    let g = c - m;
    let h = c + m;
    assert(g * e == g * (n * h) - g * (2 * t)) by (nonlinear_arith)
        requires
            e == n * h - 2 * t,
    ;
    assert(g * (n * h) == n * (g * h)) by (nonlinear_arith);
    assert(g * h == c * c - m * m) by (nonlinear_arith)
        requires
            g == c - m,
            h == c + m,
    ;
    assert(n * (c * c - m * m) == c * c * n - m * m * n) by (nonlinear_arith);
    assert(g * (2 * t) == 2 * c * t - 2 * m * t) by (nonlinear_arith)
        requires
            g == c - m,
    ;
}

proof fn lemma_update_cluster(s: Seq<Colors>, a: Seq<int>, cs: Seq<Colors>, j: int, ch: int)
    requires
        a.len() == s.len(),
        0 <= j < cs.len(),
        0 <= ch < 3,
    ensures
        cdev(s, a, j, chan(updated_centroid(s, a, cs, j), ch), ch, s.len() as int) <= cdev(
            s,
            a,
            j,
            chan(cs[j], ch),
            ch,
            s.len() as int,
        ),
{
    let n = s.len() as int;
    let p = pop(a, j, n);
    if p != 0 {
        lemma_sum_bounds(s, a, j, ch, n);
        let t = chan_sum(s, a, j, ch, n);
        let mc = mean_chan(s, a, j, ch);
        assert(0 <= round_div(t, p) <= 255) by {
            let y = 2 * t + p;
            assert(y < 256 * (2 * p)) by (nonlinear_arith)
                requires
                    0 <= t <= 255 * p,
                    p > 0,
                    y == 2 * t + p,
            ;
            assert(y / (2 * p) < 256) by (nonlinear_arith)
                requires
                    0 <= y < 256 * (2 * p),
                    p > 0,
            ;
            assert(y / (2 * p) >= 0) by (nonlinear_arith)
                requires
                    0 <= y,
                    p > 0,
            ;
        }
        assert(chan(updated_centroid(s, a, cs, j), ch) == mc);
        lemma_cdev_expand(s, a, j, mc, ch, n);
        lemma_cdev_expand(s, a, j, chan(cs[j], ch), ch, n);
        lemma_rounded_mean_best(sq_sum(s, a, j, ch, n), t, p, chan(cs[j], ch));
    }
}

proof fn lemma_grouped_update(s: Seq<Colors>, a: Seq<int>, cs: Seq<Colors>, ch: int, kk: int)
    requires
        a.len() == s.len(),
        0 <= kk <= cs.len(),
        0 <= ch < 3,
    ensures
        grouped(s, a, update(s, a, cs), ch, kk, s.len() as int) <= grouped(
            s,
            a,
            cs,
            ch,
            kk,
            s.len() as int,
        ),
    decreases kk,
{
    if kk > 0 {
        lemma_grouped_update(s, a, cs, ch, kk - 1);
        lemma_update_cluster(s, a, cs, kk - 1, ch);
    }
}

proof fn lemma_member_occupies(a: Seq<int>, i: int, m: int)
    requires
        0 <= i < m <= a.len(),
    ensures
        pop(a, a[i], m) >= 1,
    decreases m,
{
    if m - 1 > i {
        lemma_member_occupies(a, i, m - 1);
    } else {
        lemma_pop_nonneg(a, a[i], m - 1);
    }
}

proof fn lemma_pop_nonneg(a: Seq<int>, j: int, m: int)
    ensures
        pop(a, j, m) >= 0,
    decreases m,
{
    if m > 0 {
        lemma_pop_nonneg(a, j, m - 1);
    }
}

proof fn lemma_cost_same_on_used(s: Seq<Colors>, a: Seq<int>, cs: Seq<Colors>, ds: Seq<Colors>, m: int)
    requires
        0 <= m <= s.len(),
        a.len() == s.len(),
        forall|i: int| 0 <= i < m ==> cs[#[trigger] a[i]] == ds[a[i]],
    ensures
        cost(s, a, cs, m) == cost(s, a, ds, m),
    decreases m,
{
    if m > 0 {
        lemma_cost_same_on_used(s, a, cs, ds, m - 1);
    }
}

/// A round of Lloyd's algorithm never raises the total within-cluster
/// squared distance: reassigning each sample to its nearest centroid and
/// moving each centroid to the rounded mean of its samples can only lower it.
pub proof fn lemma_cost_never_increases(s: Seq<Colors>, cs: Seq<Colors>)
    requires
        cs.len() >= 1,
    ensures
        sse(s, step(s, cs)) <= sse(s, cs),
{
    let a = assignment(s, cs);
    let upd = update(s, a, cs);
    let next = step(s, cs);
    let n = s.len() as int;
    assert forall|i: int| 0 <= i < a.len() implies 0 <= #[trigger] a[i] < cs.len() by {
        lemma_nearest_range(cs, s[i]);
    }
    let pops = populations(a, cs.len() as int);
    lemma_reseed_keeps(s, pops, upd, upd.len() as int);
    assert(next.len() == cs.len());
    lemma_assignment_minimises(s, next, a, n);
    assert forall|i: int| 0 <= i < n implies upd[#[trigger] a[i]] == next[a[i]] by {
        lemma_member_occupies(a, i, n);
        assert(0 <= a[i] < cs.len());
    }
    lemma_cost_same_on_used(s, a, upd, next, n);
    lemma_cost_by_channel(s, a, upd, n);
    lemma_cost_by_channel(s, a, cs, n);
    lemma_dev_grouped(s, a, upd, 0, n);
    lemma_dev_grouped(s, a, upd, 1, n);
    lemma_dev_grouped(s, a, upd, 2, n);
    lemma_dev_grouped(s, a, cs, 0, n);
    lemma_dev_grouped(s, a, cs, 1, n);
    lemma_dev_grouped(s, a, cs, 2, n);
    lemma_grouped_update(s, a, cs, 0, cs.len() as int);
    lemma_grouped_update(s, a, cs, 1, cs.len() as int);
    lemma_grouped_update(s, a, cs, 2, cs.len() as int);
}

} // verus!
