//! Choice of the initial centroids: distinct sample colours drawn with a
//! seeded random source.

use vstd::prelude::*;
use rand::SeedableRng;
use crate::color::Colors;

verus! {

/// The indices that a generator seeded with `seed` draws: `amount` distinct
/// positions below `length`.
pub uninterp spec fn drawn_indices(seed: u64, length: nat, amount: nat) -> Seq<usize>;

/// Relies on `rand::seq::index::sample`, driven by a `rand::rngs::StdRng`
/// from `SeedableRng::seed_from_u64`: exactly `amount` distinct indices
/// from `0..length`; with the generator seeded, the draw is fixed by the
/// seed, `length` and `amount`. It panics only when `amount > length`.
#[verifier::external_body]
pub(crate) fn sample_indices(seed: u64, length: usize, amount: usize) -> (r: Vec<usize>)
    requires
        amount <= length,
    ensures
        r@ == drawn_indices(seed, length as nat, amount as nat),
        r.len() == amount,
        r@.no_duplicates(),
        forall|i: int| 0 <= i < r.len() ==> r@[i] < length,
{
    let mut rng = rand::rngs::StdRng::seed_from_u64(seed);
    rand::seq::index::sample(&mut rng, length, amount).into_vec()
}

/// Number of distinct colours: one table slot for each.
pub const COLOR_SPACE: usize = 16777216;

/// Table slot of a colour.
pub open spec fn slot(c: Colors) -> int {
    c.red as int * 65536 + c.green as int * 256 + c.blue as int
}

proof fn lemma_slot_injective(a: Colors, b: Colors)
    ensures
        slot(a) == slot(b) ==> a == b,
        0 <= slot(a) < COLOR_SPACE,
{
}

/// The colours of the first `m` samples, each kept at its first occurrence.
pub open spec fn distinct_prefix(s: Seq<Colors>, m: int) -> Seq<Colors>
    decreases m,
{
    if m <= 0 {
        Seq::empty()
    } else {
        let p = distinct_prefix(s, m - 1);
        if s.take(m - 1).contains(s[m - 1]) {
            p
        } else {
            p.push(s[m - 1])
        }
    }
}

/// The distinct colours of `s`, in order of first occurrence.
pub open spec fn distinct_colors(s: Seq<Colors>) -> Seq<Colors> {
    distinct_prefix(s, s.len() as int)
}

/// Lists the distinct colours of the samples in order of first occurrence.
pub fn distinct_samples(samples: &Vec<Colors>) -> (r: Vec<Colors>)
    ensures
        r@ == distinct_colors(samples@),
{
    let ghost s = samples@;
    let mut seen: Vec<bool> = Vec::new();
    let mut q: usize = 0;
    while q < COLOR_SPACE
        invariant
            q <= COLOR_SPACE,
            seen.len() == q,
            forall|x: int| 0 <= x < q ==> !seen@[x],
        decreases COLOR_SPACE - q,
    {
        seen.push(false);
        q += 1;
    }
    let mut out: Vec<Colors> = Vec::new();
    let mut i: usize = 0;
    while i < samples.len()
        invariant
            s == samples@,
            i <= s.len(),
            seen.len() == COLOR_SPACE,
            out@ == distinct_prefix(s, i as int),
            forall|t: int| 0 <= t < i ==> seen@[#[trigger] slot(s[t])],
            forall|x: int|
                0 <= x < COLOR_SPACE && #[trigger] seen@[x] ==> exists|t: int|
                    0 <= t < i && slot(s[t]) == x,
        decreases s.len() - i,
    {
        let c = samples[i];
        proof {
            lemma_slot_injective(c, c);
        }
        let key: usize = c.red as usize * 65536 + c.green as usize * 256 + c.blue as usize;
        if seen[key] {
            proof {
                let t = choose|t: int| 0 <= t < i && slot(s[t]) == key;
                lemma_slot_injective(s[t], c);
                assert(s.take(i as int)[t] == c);
            }
        } else {
            proof {
                if s.take(i as int).contains(c) {
                    let t = choose|t: int| 0 <= t < i && s.take(i as int)[t] == c;
                    assert(seen@[slot(s[t])]);
                }
            }
            out.push(c);
            seen.set(key, true);
            proof {
                assert forall|x: int|
                    0 <= x < COLOR_SPACE && #[trigger] seen@[x] implies exists|t: int|
                        0 <= t < i + 1 && slot(s[t]) == x by {
                    if x == key {
                        assert(slot(s[i as int]) == x);
                    } else {
                        let t = choose|t: int| 0 <= t < i && slot(s[t]) == x;
                        assert(0 <= t < i + 1 && slot(s[t]) == x);
                    }
                }
            }
        }
        i += 1;
    }
    out
}

/// The distinct colours hold no colour twice, and hold exactly the colours
/// of the samples looked at.
pub proof fn lemma_distinct_colors(s: Seq<Colors>, m: int)
    requires
        0 <= m <= s.len(),
    ensures
        distinct_prefix(s, m).no_duplicates(),
        forall|c: Colors| distinct_prefix(s, m).contains(c) <==> s.take(m).contains(c),
    decreases m,
{
    broadcast use vstd::seq_lib::group_seq_properties;
    if m > 0 {
        lemma_distinct_colors(s, m - 1);
        assert(s.take(m) =~= s.take(m - 1).push(s[m - 1]));
        let p = distinct_prefix(s, m - 1);
        if !s.take(m - 1).contains(s[m - 1]) {
            let q = p.push(s[m - 1]);
            assert forall|i: int, j: int| 0 <= i < q.len() && 0 <= j < q.len() && i != j implies q[i]
                != q[j] by {
                if i < p.len() && j < p.len() {
                } else if i < p.len() {
                    assert(p.contains(p[i]));
                } else {
                    assert(p.contains(p[j]));
                }
            }
        }
    }
}

/// When no colour occurs twice among the samples, the distinct colours are
/// the samples themselves.
pub proof fn lemma_distinct_of_unique(s: Seq<Colors>, m: int)
    requires
        0 <= m <= s.len(),
        s.no_duplicates(),
    ensures
        distinct_prefix(s, m) == s.take(m),
    decreases m,
{
    if m > 0 {
        lemma_distinct_of_unique(s, m - 1);
        assert(!s.take(m - 1).contains(s[m - 1]));
        assert(s.take(m) =~= s.take(m - 1).push(s[m - 1]));
    }
}

} // verus!
