//! The clustering engine: weighted k-means++ over perceptual colors.
//!
//! `pallete` seeds `num_colors` centroids (the first uniformly at random,
//! each further one sampled with probability proportional to the squared
//! distance to its nearest chosen centroid), then alternates an assignment
//! phase and a weighted-mean update phase until no centroid moves more than
//! the tolerance or the iteration budget runs out, and returns each final
//! centroid with the number of pixels its cluster held.
//!
//! The assignment phase is, conceptually, a fork-join map: the pixel range
//! splits into disjoint chunks, one worker scans each against an immutable
//! snapshot of the centroids, and the per-chunk partitions merge in chunk
//! order before the update runs. Because the merge preserves pixel order and
//! the arithmetic here is exact, that partition equals the one a single
//! in-order scan produces; the scan is what stands here, stated by
//! `spec_assigned`, and the fork-join barrier it replaces is preserved
//! trivially: each update reads a fully finished assignment.

use vstd::prelude::*;
use crate::colors::{
    Lab,
    spec_dist_sq,
    spec_nearest_idx,
    lemma_nearest_idx_in_range,
    lemma_nearest_idx_min,
    lemma_dist_sq_zero,
};
use crate::weights::{Mood, spec_weight, WEIGHT_MAX, lemma_weight_bounded};
use crate::colors::CHANNEL_MAX;
use crate::sampling::{rand_below, weighted_index_new, weighted_index_sample, spec_sum};
use rand::rngs::StdRng;

verus! {

/// Convergence threshold on the squared displacement of a centroid, in
/// squared fixed-point steps: a displacement of one part in ten thousand of a
/// perceptual unit is 6.5536 steps, whose square rounds to this bound, so
/// "moved more than the tolerance" is `dist_sq > TOLERANCE_SQ`.
pub const TOLERANCE_SQ: u64 = 42;

/// Iteration budget of the convergence loop.
pub const MAX_ITER: u16 = 300;

/// One centroid of the returned palette together with the number of pixels
/// assigned to its cluster; the cluster's dominance is `count` divided by the
/// total pixel count.
#[derive(Clone, Copy, Debug, PartialEq, Eq, Structural)]
pub struct PaletteEntry {
    pub color: Lab,
    pub count: usize,
}

/// The pixels assigned to centroid `j`: those whose nearest centroid (ties
/// to the lowest index) is `j`, in pixel order.
pub open spec fn spec_assigned(px: Seq<Lab>, ms: Seq<Lab>, j: int) -> Seq<Lab>
    decreases px.len(),
{
    if px.len() == 0 {
        Seq::empty()
    } else {
        let rest = spec_assigned(px.drop_last(), ms, j);
        if spec_nearest_idx(px.last(), ms) == j {
            rest.push(px.last())
        } else {
            rest
        }
    }
}

/// Number of pixels assigned to the first `j` centroids.
pub open spec fn spec_assigned_total(px: Seq<Lab>, ms: Seq<Lab>, j: int) -> int
    decreases j,
{
    if j <= 0 {
        0
    } else {
        spec_assigned_total(px, ms, j - 1) + spec_assigned(px, ms, j - 1).len()
    }
}

proof fn lemma_assigned_total_push(px: Seq<Lab>, ms: Seq<Lab>, c: Lab, j: int)
    requires
        j >= 0,
    ensures
        spec_assigned_total(px.push(c), ms, j) == spec_assigned_total(px, ms, j) + (
        if 0 <= spec_nearest_idx(c, ms) < j {
            1int
        } else {
            0int
        }),
    decreases j,
{
    if j > 0 {
        lemma_assigned_total_push(px, ms, c, j - 1);
        assert(px.push(c).drop_last() =~= px);
        assert(px.push(c).last() == c);
    }
}

/// A cluster holds no more pixels than were assigned in all.
pub proof fn lemma_assigned_len_le(px: Seq<Lab>, ms: Seq<Lab>, j: int)
    ensures
        0 <= spec_assigned(px, ms, j).len() <= px.len(),
    decreases px.len(),
{
    if px.len() > 0 {
        lemma_assigned_len_le(px.drop_last(), ms, j);
    }
}

/// Every pixel lands in exactly one cluster: the cluster sizes sum to the
/// pixel count.
pub proof fn lemma_assigned_partition(px: Seq<Lab>, ms: Seq<Lab>)
    requires
        ms.len() >= 1,
    ensures
        spec_assigned_total(px, ms, ms.len() as int) == px.len(),
    decreases px.len(),
{
    if px.len() == 0 {
        lemma_assigned_total_zero(px, ms, ms.len() as int);
    } else {
        let q = px.drop_last();
        let c = px.last();
        lemma_assigned_partition(q, ms);
        lemma_nearest_idx_in_range(c, ms);
        lemma_assigned_total_push(q, ms, c, ms.len() as int);
        assert(q.push(c) =~= px);
    }
}

proof fn lemma_assigned_total_zero(px: Seq<Lab>, ms: Seq<Lab>, j: int)
    requires
        px.len() == 0,
    ensures
        spec_assigned_total(px, ms, j) == 0,
    decreases j,
{
    if j > 0 {
        lemma_assigned_total_zero(px, ms, j - 1);
    }
}

/// With a single centroid, every pixel is assigned to it.
pub proof fn lemma_assigned_single(px: Seq<Lab>, ms: Seq<Lab>)
    requires
        ms.len() == 1,
    ensures
        spec_assigned(px, ms, 0) == px,
    decreases px.len(),
{
    if px.len() == 0 {
        assert(spec_assigned(px, ms, 0) =~= px);
    } else {
        lemma_assigned_single(px.drop_last(), ms);
        assert(spec_assigned(px, ms, 0) =~= px);
    }
}

/// The assignment phase: partitions the pixels over the centroids, cluster
/// `j` holding exactly the pixels whose nearest centroid is `j`, in pixel
/// order.
pub fn find_clusters(pixels: &Vec<Lab>, means: &Vec<Lab>) -> (r: Vec<Vec<Lab>>)
    requires
        means.len() >= 1,
        forall|i: int| 0 <= i < pixels.len() ==> (#[trigger] pixels[i]).wf(),
        forall|j: int| 0 <= j < means.len() ==> (#[trigger] means[j]).wf(),
    ensures
        r.len() == means.len(),
        forall|j: int| 0 <= j < r.len() ==> (#[trigger] r[j])@ == spec_assigned(
            pixels@,
            means@,
            j,
        ),
{
    let mut clusters: Vec<Vec<Lab>> = Vec::new();
    let mut j: usize = 0;
    while j < means.len()
        invariant
            j == clusters.len() <= means.len(),
            means.len() >= 1,
            forall|i: int| 0 <= i < pixels.len() ==> (#[trigger] pixels[i]).wf(),
            forall|t: int| 0 <= t < means.len() ==> (#[trigger] means[t]).wf(),
            forall|t: int| 0 <= t < j ==> (#[trigger] clusters[t])@ == spec_assigned(
                pixels@,
                means@,
                t,
            ),
        decreases means.len() - j,
    {
        let mut cl: Vec<Lab> = Vec::new();
        let mut i: usize = 0;
        proof {
            assert(pixels@.take(0) =~= Seq::<Lab>::empty());
        }
        while i < pixels.len()
            invariant
                i <= pixels.len(),
                j < means.len(),
                means.len() >= 1,
                forall|t: int| 0 <= t < pixels.len() ==> (#[trigger] pixels[t]).wf(),
                forall|t: int| 0 <= t < means.len() ==> (#[trigger] means[t]).wf(),
                cl@ == spec_assigned(pixels@.take(i as int), means@, j as int),
            decreases pixels.len() - i,
        {
            let (idx, _d) = pixels[i].nearest(means);
            proof {
                let pre = pixels@.take(i as int);
                let cur = pixels@.take(i + 1 as int);
                assert(cur.drop_last() =~= pre);
                assert(cur.last() == pixels@[i as int]);
            }
            if idx == j {
                cl.push(pixels[i]);
            }
            i = i + 1;
        }
        proof {
            assert(pixels@.take(pixels.len() as int) =~= pixels@);
        }
        clusters.push(cl);
        j = j + 1;
    }
    clusters
}


/// Sum of the weights of a cluster's samples under a strategy.
pub open spec fn spec_wsum(mood: Mood, s: Seq<Lab>) -> int
    decreases s.len(),
{
    if s.len() == 0 {
        0
    } else {
        spec_wsum(mood, s.drop_last()) + spec_weight(mood, s.last())
    }
}

/// Weighted sum of the lightness channel.
pub open spec fn spec_lsum(mood: Mood, s: Seq<Lab>) -> int
    decreases s.len(),
{
    if s.len() == 0 {
        0
    } else {
        spec_lsum(mood, s.drop_last()) + spec_weight(mood, s.last()) * s.last().l
    }
}

/// Weighted sum of the first chroma channel.
pub open spec fn spec_asum(mood: Mood, s: Seq<Lab>) -> int
    decreases s.len(),
{
    if s.len() == 0 {
        0
    } else {
        spec_asum(mood, s.drop_last()) + spec_weight(mood, s.last()) * s.last().a
    }
}

/// Weighted sum of the second chroma channel.
pub open spec fn spec_bsum(mood: Mood, s: Seq<Lab>) -> int
    decreases s.len(),
{
    if s.len() == 0 {
        0
    } else {
        spec_bsum(mood, s.drop_last()) + spec_weight(mood, s.last()) * s.last().b
    }
}

/// The weighted average of a cluster, channel by channel: each channel is the
/// weighted channel sum divided by the weight sum (integer division; one
/// fixed-point step is well below any perceptual difference).
pub open spec fn spec_weighted_mean(mood: Mood, s: Seq<Lab>) -> Lab {
    Lab {
        l: (spec_lsum(mood, s) / spec_wsum(mood, s)) as u64,
        a: (spec_asum(mood, s) / spec_wsum(mood, s)) as u64,
        b: (spec_bsum(mood, s) / spec_wsum(mood, s)) as u64,
    }
}

/// Bounds of the weighted sums of a well-formed cluster: the weight sum is at
/// most one `WEIGHT_MAX` per sample, and each channel sum is at most the
/// weight sum times the channel bound.
pub proof fn lemma_sums_bounds(mood: Mood, s: Seq<Lab>)
    requires
        forall|i: int| 0 <= i < s.len() ==> (#[trigger] s[i]).wf(),
    ensures
        0 <= spec_wsum(mood, s) <= s.len() * WEIGHT_MAX,
        0 <= spec_lsum(mood, s) <= spec_wsum(mood, s) * CHANNEL_MAX,
        0 <= spec_asum(mood, s) <= spec_wsum(mood, s) * CHANNEL_MAX,
        0 <= spec_bsum(mood, s) <= spec_wsum(mood, s) * CHANNEL_MAX,
    decreases s.len(),
{
    let m = CHANNEL_MAX as int;
    if s.len() > 0 {
        let q = s.drop_last();
        let c = s.last();
        lemma_sums_bounds(mood, q);
        lemma_weight_bounded(mood, c);
        let w = spec_weight(mood, c) as int;
        assert(c.wf());
        assert((s.len() - 1) * WEIGHT_MAX + WEIGHT_MAX == s.len() * WEIGHT_MAX) by (nonlinear_arith);
        lemma_wc_step(w, c.l as int, spec_lsum(mood, q), spec_wsum(mood, q));
        lemma_wc_step(w, c.a as int, spec_asum(mood, q), spec_wsum(mood, q));
        lemma_wc_step(w, c.b as int, spec_bsum(mood, q), spec_wsum(mood, q));
    }
}

proof fn lemma_wc_step(w: int, c: int, csum: int, wsum: int)
    requires
        0 <= w,
        0 <= c <= CHANNEL_MAX,
        0 <= csum <= wsum * CHANNEL_MAX,
        0 <= wsum,
    ensures
        0 <= csum + w * c <= (wsum + w) * CHANNEL_MAX,
{
    assert(0 <= w * c <= w * CHANNEL_MAX) by (nonlinear_arith)
        requires
            0 <= w,
            0 <= c <= CHANNEL_MAX,
    ;
    assert(wsum * CHANNEL_MAX + w * CHANNEL_MAX == (wsum + w) * CHANNEL_MAX) by (nonlinear_arith);
}

/// The weighted sums of any cluster fit comfortably in `u128`.
proof fn lemma_sums_fit(mood: Mood, s: Seq<Lab>)
    requires
        forall|i: int| 0 <= i < s.len() ==> (#[trigger] s[i]).wf(),
        s.len() <= 0xFFFF_FFFF_FFFF_FFFF,
    ensures
        0 <= spec_wsum(mood, s) < u128::MAX,
        0 <= spec_lsum(mood, s) < u128::MAX,
        0 <= spec_asum(mood, s) < u128::MAX,
        0 <= spec_bsum(mood, s) < u128::MAX,
{
    lemma_sums_bounds(mood, s);
    let n = s.len() as int;
    assert(n * WEIGHT_MAX < 0x100000000000000000000000000) by (nonlinear_arith)
        requires
            0 <= n <= 0xFFFF_FFFF_FFFF_FFFF,
    ;
    assert(spec_wsum(mood, s) * CHANNEL_MAX < u128::MAX) by (nonlinear_arith)
        requires
            0 <= spec_wsum(mood, s) < 0x100000000000000000000000000,
    ;
}

/// A mean of well-formed samples is well formed: each channel quotient lies
/// between zero and the channel bound.
pub proof fn lemma_mean_wf(mood: Mood, s: Seq<Lab>)
    requires
        forall|i: int| 0 <= i < s.len() ==> (#[trigger] s[i]).wf(),
        spec_wsum(mood, s) > 0,
    ensures
        spec_weighted_mean(mood, s).wf(),
        0 <= spec_lsum(mood, s) / spec_wsum(mood, s) <= CHANNEL_MAX,
        0 <= spec_asum(mood, s) / spec_wsum(mood, s) <= CHANNEL_MAX,
        0 <= spec_bsum(mood, s) / spec_wsum(mood, s) <= CHANNEL_MAX,
{
    lemma_sums_bounds(mood, s);
    let w = spec_wsum(mood, s);
    lemma_chan_quotient(spec_lsum(mood, s), w);
    lemma_chan_quotient(spec_asum(mood, s), w);
    lemma_chan_quotient(spec_bsum(mood, s), w);
}

proof fn lemma_chan_quotient(csum: int, wsum: int)
    requires
        wsum > 0,
        0 <= csum <= wsum * CHANNEL_MAX,
    ensures
        0 <= csum / wsum <= CHANNEL_MAX,
{
    vstd::arithmetic::div_mod::lemma_div_pos_is_pos(csum, wsum);
    vstd::arithmetic::div_mod::lemma_div_is_ordered(csum, wsum * CHANNEL_MAX as int, wsum);
    vstd::arithmetic::div_mod::lemma_div_multiples_vanish(CHANNEL_MAX as int, wsum);
}

/// The update phase for one cluster: the weight-function-weighted average of
/// its samples, or `None` when the weights sum to zero (in particular for an
/// empty cluster), in which case the caller retains the previous centroid.
pub fn recal_means(colors: &Vec<Lab>, mood: Mood) -> (r: Option<Lab>)
    requires
        forall|i: int| 0 <= i < colors.len() ==> (#[trigger] colors[i]).wf(),
    ensures
        r is Some <==> spec_wsum(mood, colors@) > 0,
        r matches Some(c) ==> c == spec_weighted_mean(mood, colors@) && c.wf(),
{
    let mut wsum: u128 = 0;
    let mut lsum: u128 = 0;
    let mut asum: u128 = 0;
    let mut bsum: u128 = 0;
    let mut i: usize = 0;
    proof {
        assert(colors@.take(0) =~= Seq::<Lab>::empty());
    }
    while i < colors.len()
        invariant
            i <= colors.len(),
            forall|t: int| 0 <= t < colors.len() ==> (#[trigger] colors[t]).wf(),
            wsum == spec_wsum(mood, colors@.take(i as int)),
            lsum == spec_lsum(mood, colors@.take(i as int)),
            asum == spec_asum(mood, colors@.take(i as int)),
            bsum == spec_bsum(mood, colors@.take(i as int)),
        decreases colors.len() - i,
    {
        let w = mood.weight(&colors[i]);
        proof {
            let pre = colors@.take(i as int);
            let cur = colors@.take(i + 1 as int);
            assert(cur.drop_last() =~= pre);
            assert(cur.last() == colors@[i as int]);
            assert(forall|t: int| 0 <= t < cur.len() ==> (#[trigger] cur[t]).wf());
            lemma_sums_fit(mood, cur);
            lemma_sums_bounds(mood, pre);
            lemma_weight_bounded(mood, colors@[i as int]);
            assert((w as int) * (colors@[i as int].l as int) <= spec_lsum(mood, cur));
            assert((w as int) * (colors@[i as int].a as int) <= spec_asum(mood, cur));
            assert((w as int) * (colors@[i as int].b as int) <= spec_bsum(mood, cur));
        }
        wsum = wsum + (w as u128);
        lsum = lsum + (w as u128) * (colors[i].l as u128);
        asum = asum + (w as u128) * (colors[i].a as u128);
        bsum = bsum + (w as u128) * (colors[i].b as u128);
        i = i + 1;
    }
    proof {
        assert(colors@.take(colors.len() as int) =~= colors@);
    }
    if wsum == 0 {
        None
    } else {
        proof {
            lemma_mean_wf(mood, colors@);
        }
        let l = (lsum / wsum) as u64;
        let a = (asum / wsum) as u64;
        let b = (bsum / wsum) as u64;
        Some(Lab { l, a, b })
    }
}

/// The centroid set after one update phase against an assignment: each
/// centroid whose cluster has positive total weight moves to the cluster's
/// weighted mean; the others are retained unchanged.
pub open spec fn spec_update(px: Seq<Lab>, ms: Seq<Lab>, mood: Mood) -> Seq<Lab> {
    Seq::new(
        ms.len(),
        |i: int|
            {
                let cl = spec_assigned(px, ms, i);
                if spec_wsum(mood, cl) == 0 {
                    ms[i]
                } else {
                    spec_weighted_mean(mood, cl)
                }
            },
    )
}

/// Every sample a cluster holds came from the pixel buffer.
pub proof fn lemma_assigned_from_pixels(px: Seq<Lab>, ms: Seq<Lab>, j: int)
    ensures
        forall|t: int|
            0 <= t < spec_assigned(px, ms, j).len() ==> px.contains(
                #[trigger] spec_assigned(px, ms, j)[t],
            ),
    decreases px.len(),
{
    if px.len() > 0 {
        let q = px.drop_last();
        let rest = spec_assigned(q, ms, j);
        lemma_assigned_from_pixels(q, ms, j);
        assert forall|x: Lab| q.contains(x) implies px.contains(x) by {
            let t = choose|t: int| 0 <= t < q.len() && q[t] == x;
            assert(px[t] == x);
        }
        assert(px[px.len() - 1] == px.last());
        assert(px.contains(px.last()));
        assert forall|t: int|
            0 <= t < spec_assigned(px, ms, j).len() implies px.contains(
            #[trigger] spec_assigned(px, ms, j)[t],
        ) by {
            if spec_nearest_idx(px.last(), ms) == j {
                assert(spec_assigned(px, ms, j) == rest.push(px.last()));
                if t < rest.len() {
                    assert(spec_assigned(px, ms, j)[t] == rest[t]);
                    assert(q.contains(rest[t]));
                } else {
                    assert(spec_assigned(px, ms, j)[t] == px.last());
                }
            } else {
                assert(spec_assigned(px, ms, j) == rest);
                assert(q.contains(rest[t]));
            }
        }
    }
}

fn means_from_clusters(clusters: &Vec<Vec<Lab>>, means: &Vec<Lab>, mood: Mood) -> (r: (
    Vec<Lab>,
    bool,
))
    requires
        clusters.len() == means.len(),
        forall|j: int| 0 <= j < means.len() ==> (#[trigger] means[j]).wf(),
        forall|j: int, t: int|
            0 <= j < clusters.len() && 0 <= t < clusters[j]@.len() ==> (#[trigger] clusters[j]@[t]).wf(),
    ensures
        r.0.len() == means.len(),
        forall|i: int|
            0 <= i < means.len() ==> #[trigger] r.0[i] == (if spec_wsum(
                mood,
                clusters[i]@,
            ) == 0 {
                means[i]
            } else {
                spec_weighted_mean(mood, clusters[i]@)
            }),
        forall|i: int| 0 <= i < means.len() ==> (#[trigger] r.0[i]).wf(),
        r.1 <==> exists|i: int|
            0 <= i < means.len() && spec_dist_sq(means[i], #[trigger] r.0[i]) > TOLERANCE_SQ,
{
    let mut new_means: Vec<Lab> = Vec::new();
    let mut changed: bool = false;
    let mut i: usize = 0;
    while i < means.len()
        invariant
            i == new_means.len() <= means.len(),
            clusters.len() == means.len(),
            forall|j: int| 0 <= j < means.len() ==> (#[trigger] means[j]).wf(),
            forall|j: int, t: int|
                0 <= j < clusters.len() && 0 <= t < clusters[j]@.len() ==> (#[trigger] clusters[j]@[t]).wf(),
            forall|j: int|
                0 <= j < i ==> #[trigger] new_means[j] == (if spec_wsum(
                    mood,
                    clusters[j]@,
                ) == 0 {
                    means[j]
                } else {
                    spec_weighted_mean(mood, clusters[j]@)
                }),
            forall|j: int| 0 <= j < i ==> (#[trigger] new_means[j]).wf(),
            changed <==> exists|j: int|
                0 <= j < i && spec_dist_sq(means[j], #[trigger] new_means[j]) > TOLERANCE_SQ,
        decreases means.len() - i,
    {
        proof {
            lemma_sums_bounds(mood, clusters[i as int]@);
        }
        let nm = match recal_means(&clusters[i], mood) {
            Some(c) => c,
            None => means[i],
        };
        let d = means[i].dist_sq(&nm);
        let ghost prev = new_means@;
        let ghost was_changed = changed;
        new_means.push(nm);
        if d > TOLERANCE_SQ {
            changed = true;
        }
        proof {
            assert(new_means@ == prev.push(nm));
            assert(new_means[i as int] == nm);
            assert(spec_dist_sq(means[i as int], new_means[i as int]) == d);
            if was_changed {
                let j0 = choose|j: int|
                    0 <= j < i && spec_dist_sq(means[j], #[trigger] prev[j]) > TOLERANCE_SQ;
                assert(new_means[j0] == prev[j0]);
                assert(spec_dist_sq(means[j0], new_means[j0]) > TOLERANCE_SQ);
            }
        }
        i = i + 1;
    }
    (new_means, changed)
}

/// One assignment phase followed by one update phase: returns the updated
/// centroid set and whether any centroid moved by more than the tolerance.
pub fn update_step(pixels: &Vec<Lab>, means: &Vec<Lab>, mood: Mood) -> (r: (Vec<Lab>, bool))
    requires
        means.len() >= 1,
        forall|i: int| 0 <= i < pixels.len() ==> (#[trigger] pixels[i]).wf(),
        forall|j: int| 0 <= j < means.len() ==> (#[trigger] means[j]).wf(),
    ensures
        r.0@ == spec_update(pixels@, means@, mood),
        forall|i: int| 0 <= i < r.0.len() ==> (#[trigger] r.0[i]).wf(),
        r.1 <==> exists|i: int|
            0 <= i < means.len() && spec_dist_sq(
                means[i],
                #[trigger] spec_update(pixels@, means@, mood)[i],
            ) > TOLERANCE_SQ,
{
    let clusters = find_clusters(pixels, means);
    proof {
        assert forall|j: int, t: int|
            0 <= j < clusters.len() && 0 <= t < clusters[j]@.len() implies (#[trigger] clusters[j]@[t]).wf() by {
            lemma_assigned_from_pixels(pixels@, means@, j);
            assert(pixels@.contains(clusters[j]@[t]));
        }
    }
    let (nm, changed) = means_from_clusters(&clusters, means, mood);
    proof {
        assert(nm@ =~= spec_update(pixels@, means@, mood));
    }
    (nm, changed)
}

/// Idempotence at convergence: a centroid set that the update step maps to
/// itself (every cluster either of zero total weight, its centroid retained,
/// or already sitting at its weighted mean) is mapped to itself again when
/// the step is re-run, so every re-run displacement is zero and in particular
/// below the tolerance.
pub proof fn lemma_converged_update_stable(px: Seq<Lab>, ms: Seq<Lab>, mood: Mood)
    requires
        spec_update(px, ms, mood) == ms,
    ensures
        forall|i: int|
            0 <= i < ms.len() ==> spec_dist_sq(
                spec_update(px, ms, mood)[i],
                #[trigger] spec_update(px, spec_update(px, ms, mood), mood)[i],
            ) == 0,
        forall|i: int|
            0 <= i < ms.len() ==> spec_dist_sq(
                spec_update(px, ms, mood)[i],
                #[trigger] spec_update(px, spec_update(px, ms, mood), mood)[i],
            ) <= TOLERANCE_SQ,
{
    assert forall|i: int| 0 <= i < ms.len() implies spec_dist_sq(
        spec_update(px, ms, mood)[i],
        #[trigger] spec_update(px, spec_update(px, ms, mood), mood)[i],
    ) == 0 by {
        assert(spec_update(px, spec_update(px, ms, mood), mood)[i] == spec_update(
            px,
            ms,
            mood,
        )[i]);
        lemma_dist_sq_zero(spec_update(px, ms, mood)[i], spec_update(px, ms, mood)[i]);
    }
}


/// Sum of the pixel counts of a palette's entries.
pub open spec fn spec_count_total(s: Seq<PaletteEntry>) -> int
    decreases s.len(),
{
    if s.len() == 0 {
        0
    } else {
        spec_count_total(s.drop_last()) + s.last().count
    }
}

proof fn lemma_entries_total(r: Seq<PaletteEntry>, px: Seq<Lab>, ms: Seq<Lab>)
    requires
        forall|i: int|
            0 <= i < r.len() ==> (#[trigger] r[i]).count == spec_assigned(px, ms, i).len(),
    ensures
        spec_count_total(r) == spec_assigned_total(px, ms, r.len() as int),
    decreases r.len(),
{
    if r.len() > 0 {
        let q = r.drop_last();
        assert(forall|i: int| 0 <= i < q.len() ==> q[i] == r[i]);
        lemma_entries_total(q, px, ms);
    }
}

/// Pairs each centroid with the size of its cluster.
fn entries_from(means: &Vec<Lab>, clusters: &Vec<Vec<Lab>>) -> (r: Vec<PaletteEntry>)
    requires
        means.len() == clusters.len(),
    ensures
        r.len() == means.len(),
        forall|i: int|
            0 <= i < r.len() ==> (#[trigger] r[i]).color == means[i] && r[i].count == clusters[i]@.len(),
{
    let mut r: Vec<PaletteEntry> = Vec::new();
    let mut i: usize = 0;
    while i < means.len()
        invariant
            i == r.len() <= means.len(),
            means.len() == clusters.len(),
            forall|t: int|
                0 <= t < i ==> (#[trigger] r[t]).color == means[t] && r[t].count
                    == clusters[t]@.len(),
        decreases means.len() - i,
    {
        r.push(PaletteEntry { color: means[i], count: clusters[i].len() });
        i = i + 1;
    }
    r
}

/// One assignment phase and one update phase: the partition against the
/// given centroids, the updated centroids, and whether any centroid moved by
/// more than the tolerance.
fn assign_update(pixels: &Vec<Lab>, means: &Vec<Lab>, mood: Mood) -> (r: (
    Vec<Vec<Lab>>,
    Vec<Lab>,
    bool,
))
    requires
        means.len() >= 1,
        forall|i: int| 0 <= i < pixels.len() ==> (#[trigger] pixels[i]).wf(),
        forall|j: int| 0 <= j < means.len() ==> (#[trigger] means[j]).wf(),
    ensures
        r.0.len() == means.len(),
        forall|j: int|
            0 <= j < r.0.len() ==> (#[trigger] r.0[j])@ == spec_assigned(pixels@, means@, j),
        r.1@ == spec_update(pixels@, means@, mood),
        forall|i: int| 0 <= i < r.1.len() ==> (#[trigger] r.1[i]).wf(),
        r.2 <==> exists|i: int|
            0 <= i < means.len() && spec_dist_sq(
                means[i],
                #[trigger] spec_update(pixels@, means@, mood)[i],
            ) > TOLERANCE_SQ,
{
    let clusters = find_clusters(pixels, means);
    proof {
        assert forall|j: int, t: int|
            0 <= j < clusters.len() && 0 <= t < clusters[j]@.len() implies (#[trigger] clusters[j]@[t]).wf() by {
            lemma_assigned_from_pixels(pixels@, means@, j);
            assert(pixels@.contains(clusters[j]@[t]));
        }
    }
    let (nm, changed) = means_from_clusters(&clusters, means, mood);
    proof {
        assert(nm@ =~= spec_update(pixels@, means@, mood));
    }
    (clusters, nm, changed)
}

/// Weighted k-means++ clustering: seeds up to `num_colors` centroids, runs
/// the assignment and update phases to convergence or to the iteration
/// budget, and returns each final centroid with its cluster's pixel count.
///
/// The counts always sum to the pixel count and each lies between zero and
/// that total. Exactly `num_colors` entries come back, except when the buffer
/// holds fewer distinct colors than that: the distance-weighted seeding
/// distribution then degenerates (every pixel already coincides with a chosen
/// centroid), and the centroids found so far — one per distinct color — are
/// returned with their empirical cluster sizes. With a single requested color
/// the returned centroid is exactly the weighted mean of the whole buffer.
pub fn pallete(pixels: &Vec<Lab>, mood: Mood, num_colors: usize, rng: &mut StdRng) -> (r: Vec<
    PaletteEntry,
>)
    requires
        pixels.len() >= 1,
        num_colors >= 1,
        forall|i: int| 0 <= i < pixels.len() ==> (#[trigger] pixels[i]).wf(),
    ensures
        1 <= r.len() <= num_colors,
        spec_count_total(r@) == pixels.len(),
        forall|i: int|
            0 <= i < r.len() ==> (#[trigger] r[i]).count <= pixels.len() && r[i].color.wf(),
        num_colors == 1 ==> r.len() == 1 && r[0].count == pixels.len(),
        num_colors == 1 && spec_wsum(mood, pixels@) > 0 ==> r[0].color == spec_weighted_mean(
            mood,
            pixels@,
        ),
        pixels@.to_set().len() >= num_colors ==> r.len() == num_colors,
        pixels@.to_set().len() < num_colors ==> r.len() == pixels@.to_set().len(),
{
    let n = pixels.len();
    let first = rand_below(rng, n);
    let mut means: Vec<Lab> = Vec::new();
    means.push(pixels[first]);
    let mut picked: usize = 1;
    proof {
        assert(pixels@.to_set().contains(pixels@[first as int]));
    }

    while picked < num_colors
        invariant
            1 <= picked <= num_colors,
            means.len() == picked,
            n == pixels.len(),
            n >= 1,
            forall|i: int| 0 <= i < pixels.len() ==> (#[trigger] pixels[i]).wf(),
            forall|j: int| 0 <= j < means.len() ==> (#[trigger] means[j]).wf(),
            means@.no_duplicates(),
            forall|j: int| 0 <= j < means.len() ==> pixels@.to_set().contains(#[trigger] means@[j]),
        decreases num_colors - picked,
    {
        let ghost big: int = 3 * (CHANNEL_MAX as int) * (CHANNEL_MAX as int);
        let mut ws: Vec<u128> = Vec::new();
        let mut i: usize = 0;
        proof {
            assert(ws@ =~= Seq::<u128>::empty());
        }
        while i < n
            invariant
                ws@.len() == i <= n,
                n == pixels.len(),
                means.len() >= 1,
                big == 3 * (CHANNEL_MAX as int) * (CHANNEL_MAX as int),
                forall|t: int| 0 <= t < pixels.len() ==> (#[trigger] pixels[t]).wf(),
                forall|j: int| 0 <= j < means.len() ==> (#[trigger] means[j]).wf(),
                0 <= spec_sum(ws@) <= i * big,
                forall|t: int|
                    0 <= t < i ==> #[trigger] ws@[t] == spec_dist_sq(
                        pixels@[t],
                        means@[spec_nearest_idx(pixels@[t], means@)],
                    ),
            decreases n - i,
        {
            let (idx, d) = pixels[i].nearest(&means);
            proof {
                crate::colors::lemma_dist_sq_bound(pixels@[i as int], means@[idx as int]);
                assert(ws@.push(d as u128).drop_last() =~= ws@);
                assert((i + 1) * big == i * big + big) by (nonlinear_arith);
            }
            ws.push(d as u128);
            i = i + 1;
        }
        proof {
            assert(spec_sum(ws@) <= u128::MAX) by {
                assert(n * big <= 0xFFFF_FFFF_FFFF_FFFF * 3 * (CHANNEL_MAX as int) * (
                CHANNEL_MAX as int)) by (nonlinear_arith)
                    requires
                        0 <= n <= 0xFFFF_FFFF_FFFF_FFFF && big == 3 * (CHANNEL_MAX as int) * (
                        CHANNEL_MAX as int),
                ;
            }
        }
        match weighted_index_new(&ws) {
            None => {
                // The squared-distance distribution degenerated: every pixel
                // coincides with a chosen centroid, so the distinct chosen
                // centroids are exactly the distinct pixel values. Keep them
                // and return their empirical shares.
                let clusters = find_clusters(pixels, &means);
                let r = entries_from(&means, &clusters);
                proof {
                    lemma_entries_total(r@, pixels@, means@);
                    lemma_assigned_partition(pixels@, means@);
                    assert forall|t: int| 0 <= t < r.len() implies (#[trigger] r[t]).count
                        <= pixels.len() by {
                        lemma_assigned_len_le(pixels@, means@, t);
                    }
                    crate::sampling::lemma_sum_zero(ws@);
                    assert forall|x: Lab| pixels@.to_set().contains(x) implies
                        means@.to_set().contains(x) by {
                        let t = choose|t: int| 0 <= t < pixels@.len() && pixels@[t] == x;
                        assert(ws@[t] == 0);
                        let nj = spec_nearest_idx(pixels@[t], means@);
                        lemma_nearest_idx_in_range(pixels@[t], means@);
                        lemma_dist_sq_zero(pixels@[t], means@[nj]);
                        assert(means@[nj] == x);
                        assert(means@.contains(x));
                    }
                    assert forall|x: Lab| means@.to_set().contains(x) implies
                        pixels@.to_set().contains(x) by {
                        let j = choose|j: int| 0 <= j < means@.len() && means@[j] == x;
                        assert(pixels@.to_set().contains(means@[j]));
                    }
                    assert(means@.to_set() =~= pixels@.to_set());
                    means@.unique_seq_to_set();
                    assert(r.len() == pixels@.to_set().len());
                }
                return r;
            },
            Some(dist) => {
                let idx = weighted_index_sample(&dist, rng);
                proof {
                    // A sampled pixel has positive distance to its nearest
                    // centroid, hence to every centroid: it is a new value.
                    let p = pixels@[idx as int];
                    lemma_nearest_idx_min(p, means@);
                    lemma_nearest_idx_in_range(p, means@);
                    assert forall|j: int| 0 <= j < means@.len() implies p != #[trigger] means@[j] by {
                        lemma_dist_sq_zero(p, means@[j]);
                    }
                    assert(pixels@.to_set().contains(p));
                }
                means.push(pixels[idx]);
            },
        }
        picked = picked + 1;
    }

    proof {
        means@.unique_seq_to_set();
        assert forall|x: Lab| means@.to_set().contains(x) implies pixels@.to_set().contains(
            x,
        ) by {
            let j = choose|j: int| 0 <= j < means@.len() && means@[j] == x;
            assert(pixels@.to_set().contains(means@[j]));
        }
        vstd::set_lib::lemma_len_subset(means@.to_set(), pixels@.to_set());
        assert(num_colors <= pixels@.to_set().len());
    }
    let (cl, nm, ch) = assign_update(pixels, &means, mood);
    let ghost mut ams = means@;
    let mut clusters = cl;
    let mut changed = ch;
    means = nm;
    // One assignment and update ran above; the loop repeats them while any
    // centroid still moves beyond the tolerance and budget remains.
    let mut iters: u16 = MAX_ITER;
    iters = iters - 1;

    while changed && iters > 0
        invariant
            n == pixels.len(),
            n >= 1,
            num_colors >= 1,
            means.len() == num_colors,
            ams.len() == num_colors,
            clusters.len() == num_colors,
            forall|i: int| 0 <= i < pixels.len() ==> (#[trigger] pixels[i]).wf(),
            forall|j: int| 0 <= j < means.len() ==> (#[trigger] means[j]).wf(),
            forall|j: int| 0 <= j < ams.len() ==> (#[trigger] ams[j]).wf(),
            forall|j: int|
                0 <= j < clusters.len() ==> (#[trigger] clusters[j])@ == spec_assigned(
                    pixels@,
                    ams,
                    j,
                ),
            means@ == spec_update(pixels@, ams, mood),
        decreases iters,
    {
        let (cl2, nm2, ch2) = assign_update(pixels, &means, mood);
        proof {
            ams = means@;
        }
        clusters = cl2;
        means = nm2;
        changed = ch2;
        iters = iters - 1;
    }

    let r = entries_from(&means, &clusters);
    proof {
        lemma_entries_total(r@, pixels@, ams);
        lemma_assigned_partition(pixels@, ams);
        assert forall|t: int| 0 <= t < r.len() implies (#[trigger] r[t]).count <= pixels.len() by {
            lemma_assigned_len_le(pixels@, ams, t);
        }
        if num_colors == 1 {
            lemma_assigned_single(pixels@, ams);
            assert(r[0].count == pixels@.len());
            if spec_wsum(mood, pixels@) > 0 {
                assert(means@[0] == spec_update(pixels@, ams, mood)[0]);
                assert(spec_assigned(pixels@, ams, 0) == pixels@);
                assert(r[0].color == spec_weighted_mean(mood, pixels@));
            }
        }
    }
    r
}

} // verus!
