//! Colour samples and the squared Euclidean distance between them.

use vstd::prelude::*;

verus! {

/// One colour sample: red, green and blue intensities.
#[derive(Clone, Copy, Debug, PartialEq, Eq, Structural)]
pub struct Colors {
    pub red: u8,
    pub green: u8,
    pub blue: u8,
}

/// Channel `ch` (0 red, 1 green, 2 blue) of a colour, as an integer.
pub open spec fn chan(c: Colors, ch: int) -> int {
    if ch == 0 {
        c.red as int
    } else if ch == 1 {
        c.green as int
    } else {
        c.blue as int
    }
}

/// Squared Euclidean distance in (red, green, blue) space.
pub open spec fn sq_dist(a: Colors, b: Colors) -> int {
    (a.red - b.red) * (a.red - b.red) + (a.green - b.green) * (a.green - b.green) + (a.blue
        - b.blue) * (a.blue - b.blue)
}

/// Largest value `sq_dist` can take: three channels at distance 255.
pub const MAX_SQ_DIST: u32 = 195075;

proof fn lemma_square_bound(d: int)
    requires
        -255 <= d <= 255,
    ensures
        0 <= d * d <= 65025,
{
    assert(0 <= d * d <= 65025) by (nonlinear_arith)
        requires
            -255 <= d <= 255,
    ;
}

/// A distance lies between 0 and `MAX_SQ_DIST`.
pub proof fn lemma_sq_dist_bounds(a: Colors, b: Colors)
    ensures
        0 <= sq_dist(a, b) <= MAX_SQ_DIST,
{
    lemma_square_bound(a.red - b.red);
    lemma_square_bound(a.green - b.green);
    lemma_square_bound(a.blue - b.blue);
}

/// Only equal colours are at distance zero.
pub proof fn lemma_sq_dist_zero(a: Colors, b: Colors)
    ensures
        sq_dist(a, b) == 0 <==> a == b,
{
    let dr = a.red - b.red;
    let dg = a.green - b.green;
    let db = a.blue - b.blue;
    lemma_square_bound(dr);
    lemma_square_bound(dg);
    lemma_square_bound(db);
    if sq_dist(a, b) == 0 {
        assert(dr == 0) by (nonlinear_arith)
            requires
                dr * dr == 0,
        ;
        assert(dg == 0) by (nonlinear_arith)
            requires
                dg * dg == 0,
        ;
        assert(db == 0) by (nonlinear_arith)
            requires
                db * db == 0,
        ;
    }
}

impl Colors {
    /// Builds a colour from its three channels.
    pub fn new(red: u8, green: u8, blue: u8) -> (r: Colors)
        ensures
            r == (Colors { red, green, blue }),
    {
        Colors { red, green, blue }
    }
}

/// Squared Euclidean distance between two colours; alpha plays no part.
pub fn sq_distance(a: Colors, b: Colors) -> (r: u32)
    ensures
        r == sq_dist(a, b),
{
    proof {
        lemma_sq_dist_bounds(a, b);
        lemma_square_bound(a.red - b.red);
        lemma_square_bound(a.green - b.green);
        lemma_square_bound(a.blue - b.blue);
    }
    let dr: i32 = a.red as i32 - b.red as i32;
    let dg: i32 = a.green as i32 - b.green as i32;
    let db: i32 = a.blue as i32 - b.blue as i32;
    (dr * dr + dg * dg + db * db) as u32
}

/// Conversion from four RGBA channels; the alpha channel is dropped.
impl From<[u8; 4]> for Colors {
    fn from(px: [u8; 4]) -> (r: Colors) {
        Colors { red: px[0], green: px[1], blue: px[2] }
    }
}

impl vstd::std_specs::convert::FromSpecImpl<[u8; 4]> for Colors {
    open spec fn obeys_from_spec() -> bool {
        true
    }

    open spec fn from_spec(px: [u8; 4]) -> Colors {
        Colors { red: px@[0], green: px@[1], blue: px@[2] }
    }
}

} // verus!
