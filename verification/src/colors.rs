//! The perceptual color model.
//!
//! A color is a point in a perceptually uniform three-axis space (lightness
//! and two chroma axes). Each channel is carried as a fixed-point integer:
//! one perceptual unit is `CHANNEL_SCALE` steps, and the whole channel range
//! is shifted by `CHANNEL_OFFSET` perceptual units so that the stored value
//! is never negative. Averaging commutes with that shift, and differences
//! cancel it, so the clustering arithmetic is unaffected by the encoding.
//!
//! The only similarity metric of the library is the squared Euclidean
//! distance between two colors, `dist_sq`; comparing squared distances
//! orders pairs of colors exactly as comparing distances would.

use vstd::prelude::*;

verus! {

/// Fixed-point steps per perceptual unit.
pub const CHANNEL_SCALE: u64 = 65536;

/// Shift, in perceptual units, applied to every channel when a color is
/// encoded, so that stored channels are non-negative.
pub const CHANNEL_OFFSET: u64 = 128;

/// Upper bound on a stored channel: `(128 + 128) * 65536`, comfortably above
/// the encoded range of the lightness axis (0 to 100 perceptual units) and of
/// the two chroma axes (-128 to 128 perceptual units).
pub const CHANNEL_MAX: u64 = 16777216;

/// A color in the perceptual space, channels in fixed point (see the module
/// documentation for the encoding).
#[derive(Clone, Copy, Debug, PartialEq, Eq, Structural)]
pub struct Lab {
    pub l: u64,
    pub a: u64,
    pub b: u64,
}

impl Lab {
    /// Every channel within the encoded range.
    pub open spec fn wf(self) -> bool {
        self.l <= CHANNEL_MAX && self.a <= CHANNEL_MAX && self.b <= CHANNEL_MAX
    }

    pub fn new(l: u64, a: u64, b: u64) -> (c: Lab)
        requires
            l <= CHANNEL_MAX,
            a <= CHANNEL_MAX,
            b <= CHANNEL_MAX,
        ensures
            c == (Lab { l, a, b }),
            c.wf(),
    {
        Lab { l, a, b }
    }
}

/// Absolute difference of two channel values.
pub open spec fn chan_diff(x: u64, y: u64) -> int {
    if x >= y {
        x - y
    } else {
        y - x
    }
}

/// Squared Euclidean distance between two colors, channel by channel.
pub open spec fn spec_dist_sq(x: Lab, y: Lab) -> int {
    chan_diff(x.l, y.l) * chan_diff(x.l, y.l) + chan_diff(x.a, y.a) * chan_diff(x.a, y.a)
        + chan_diff(x.b, y.b) * chan_diff(x.b, y.b)
}

/// The squared distance of two well-formed colors fits easily in `u64`
/// (each squared channel difference is at most `CHANNEL_MAX^2 < 2^48`).
pub proof fn lemma_dist_sq_bound(x: Lab, y: Lab)
    requires
        x.wf(),
        y.wf(),
    ensures
        0 <= spec_dist_sq(x, y) <= 3 * (CHANNEL_MAX as int) * (CHANNEL_MAX as int),
{
    lemma_chan_sq_bound(x.l, y.l);
    lemma_chan_sq_bound(x.a, y.a);
    lemma_chan_sq_bound(x.b, y.b);
}

proof fn lemma_chan_sq_bound(x: u64, y: u64)
    requires
        x <= CHANNEL_MAX,
        y <= CHANNEL_MAX,
    ensures
        0 <= chan_diff(x, y) * chan_diff(x, y) <= (CHANNEL_MAX as int) * (CHANNEL_MAX as int),
{
    let d = chan_diff(x, y);
    assert(0 <= d <= CHANNEL_MAX);
    assert(d * d <= (CHANNEL_MAX as int) * (CHANNEL_MAX as int)) by (nonlinear_arith)
        requires
            0 <= d <= CHANNEL_MAX as int,
    ;
}

/// Two colors are at squared distance zero exactly when they are equal.
pub proof fn lemma_dist_sq_zero(x: Lab, y: Lab)
    ensures
        spec_dist_sq(x, y) == 0 <==> x == y,
{
    let dl = chan_diff(x.l, y.l);
    let da = chan_diff(x.a, y.a);
    let db = chan_diff(x.b, y.b);
    assert(dl * dl >= 0 && da * da >= 0 && db * db >= 0) by (nonlinear_arith);
    if x == y {
        assert(dl == 0 && da == 0 && db == 0);
        assert(dl * dl == 0 && da * da == 0 && db * db == 0) by (nonlinear_arith)
            requires
                dl == 0 && da == 0 && db == 0,
        ;
    }
    if spec_dist_sq(x, y) == 0 {
        assert(dl * dl == 0 && da * da == 0 && db * db == 0);
        assert(dl == 0 && da == 0 && db == 0) by (nonlinear_arith)
            requires
                dl * dl == 0 && da * da == 0 && db * db == 0,
        ;
        assert(x == y);
    }
}

fn chan_diff_exec(x: u64, y: u64) -> (d: u64)
    ensures
        d == chan_diff(x, y),
{
    if x >= y {
        x - y
    } else {
        y - x
    }
}

impl Lab {
    /// Squared Euclidean distance to another color.
    pub fn dist_sq(&self, other: &Lab) -> (d: u64)
        requires
            self.wf(),
            other.wf(),
        ensures
            d == spec_dist_sq(*self, *other),
    {
        proof {
            lemma_chan_sq_bound(self.l, other.l);
            lemma_chan_sq_bound(self.a, other.a);
            lemma_chan_sq_bound(self.b, other.b);
        }
        let dl = chan_diff_exec(self.l, other.l);
        let da = chan_diff_exec(self.a, other.a);
        let db = chan_diff_exec(self.b, other.b);
        dl * dl + da * da + db * db
    }
}

/// Index of the centroid nearest to `c`, ties resolved to the lowest index:
/// scanning from the front, a later centroid replaces the best one seen so
/// far only when it is strictly closer.
pub open spec fn spec_nearest_idx(c: Lab, ms: Seq<Lab>) -> int
    decreases ms.len(),
{
    if ms.len() <= 1 {
        0
    } else {
        let best = spec_nearest_idx(c, ms.drop_last());
        if spec_dist_sq(c, ms.last()) < spec_dist_sq(c, ms[best]) {
            ms.len() - 1
        } else {
            best
        }
    }
}

/// The nearest index is in range.
pub proof fn lemma_nearest_idx_in_range(c: Lab, ms: Seq<Lab>)
    requires
        ms.len() >= 1,
    ensures
        0 <= spec_nearest_idx(c, ms) < ms.len(),
    decreases ms.len(),
{
    if ms.len() > 1 {
        lemma_nearest_idx_in_range(c, ms.drop_last());
    }
}

/// The nearest index attains the minimum squared distance, and no earlier
/// index does: the scan keeps the first of several equally close centroids.
pub proof fn lemma_nearest_idx_min(c: Lab, ms: Seq<Lab>)
    requires
        ms.len() >= 1,
    ensures
        forall|j: int|
            0 <= j < ms.len() ==> spec_dist_sq(c, ms[spec_nearest_idx(c, ms)])
                <= #[trigger] spec_dist_sq(c, ms[j]),
        forall|j: int|
            0 <= j < spec_nearest_idx(c, ms) ==> spec_dist_sq(c, ms[spec_nearest_idx(c, ms)])
                < #[trigger] spec_dist_sq(c, ms[j]),
    decreases ms.len(),
{
    lemma_nearest_idx_in_range(c, ms);
    if ms.len() > 1 {
        lemma_nearest_idx_min(c, ms.drop_last());
        lemma_nearest_idx_in_range(c, ms.drop_last());
        assert(forall|j: int| 0 <= j < ms.len() - 1 ==> ms.drop_last()[j] == ms[j]);
    }
}

impl Lab {
    /// Linear scan for the centroid nearest to `self`: returns its index and
    /// the squared distance to it. Ties go to the lowest index.
    pub fn nearest(&self, means: &Vec<Lab>) -> (r: (usize, u64))
        requires
            means.len() >= 1,
            self.wf(),
            forall|j: int| 0 <= j < means.len() ==> means[j].wf(),
        ensures
            r.0 < means.len(),
            r.0 == spec_nearest_idx(*self, means@),
            r.1 == spec_dist_sq(*self, means@[r.0 as int]),
    {
        let mut best: usize = 0;
        let mut best_d: u64 = self.dist_sq(&means[0]);
        let mut i: usize = 1;
        proof {
            assert(means@.subrange(0, 1).len() == 1);
            assert(means@.subrange(0, 1)[0] == means@[0]);
        }
        while i < means.len()
            invariant
                1 <= i <= means.len(),
                means.len() >= 1,
                self.wf(),
                forall|j: int| 0 <= j < means.len() ==> means[j].wf(),
                best < i,
                best == spec_nearest_idx(*self, means@.subrange(0, i as int)),
                best_d == spec_dist_sq(*self, means@[best as int]),
            decreases means.len() - i,
        {
            let d = self.dist_sq(&means[i]);
            proof {
                let pre = means@.subrange(0, i as int);
                let cur = means@.subrange(0, i + 1 as int);
                assert(cur.drop_last() =~= pre);
                assert(cur.last() == means@[i as int]);
                lemma_nearest_idx_in_range(*self, pre);
                assert(cur[spec_nearest_idx(*self, pre)] == means@[spec_nearest_idx(
                    *self,
                    pre,
                )]);
            }
            if d < best_d {
                best = i;
                best_d = d;
            }
            i = i + 1;
        }
        proof {
            assert(means@.subrange(0, means.len() as int) =~= means@);
        }
        (best, best_d)
    }
}

/// A centroid set that contains the probed color exactly is found at squared
/// distance zero, and the returned index holds that exact color.
pub proof fn lemma_nearest_exact_match(c: Lab, ms: Seq<Lab>, j: int)
    requires
        0 <= j < ms.len(),
        ms[j] == c,
    ensures
        spec_dist_sq(c, ms[spec_nearest_idx(c, ms)]) == 0,
        ms[spec_nearest_idx(c, ms)] == c,
{
    lemma_nearest_idx_min(c, ms);
    lemma_nearest_idx_in_range(c, ms);
    lemma_dist_sq_zero(c, ms[j]);
    let n = spec_nearest_idx(c, ms);
    assert(spec_dist_sq(c, ms[n]) <= spec_dist_sq(c, ms[j]));
    let dl = chan_diff(c.l, ms[n].l);
    let da = chan_diff(c.a, ms[n].a);
    let db = chan_diff(c.b, ms[n].b);
    assert(dl * dl >= 0 && da * da >= 0 && db * db >= 0) by (nonlinear_arith);
    lemma_dist_sq_zero(c, ms[n]);
}

} // verus!
