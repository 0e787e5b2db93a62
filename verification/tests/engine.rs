use color_palette::color_clusterer::{pallete, update_step, PaletteEntry};
use color_palette::colors::{Lab, CHANNEL_OFFSET, CHANNEL_SCALE};
use color_palette::weights::{resolve_mood, Mood};
use rand::rngs::StdRng;
use rand::SeedableRng;

/// A color at the given whole perceptual-unit coordinates, in the library's
/// fixed-point encoding (each channel shifted by the offset).
fn pc(l: u64, a: i64, b: i64) -> Lab {
    let off = CHANNEL_OFFSET as i64;
    Lab::new(
        ((l as i64 + off) as u64) * CHANNEL_SCALE,
        ((a + off) as u64) * CHANNEL_SCALE,
        ((b + off) as u64) * CHANNEL_SCALE,
    )
}

#[test]
fn nearest_exact_pixel_gives_zero_distance_and_matching_index() {
    let target = pc(50, 0, 0);
    let means = vec![pc(90, 20, -10), pc(10, -5, 5), target];
    let (idx, d) = target.nearest(&means);
    assert_eq!(idx, 2);
    assert_eq!(d, 0);
}

#[test]
fn nearest_breaks_ties_toward_lowest_index() {
    let c = pc(50, 0, 0);
    let means = vec![pc(40, 0, 0), pc(60, 0, 0), pc(40, 0, 0)];
    let (idx, _) = c.nearest(&means);
    assert_eq!(idx, 0);
}

#[test]
fn single_cluster_returns_weighted_mean_with_full_dominance() {
    // 100 identical pixels at (50, 0, 0), one color requested.
    let pixels = vec![pc(50, 0, 0); 100];
    let mut rng = StdRng::seed_from_u64(1);
    let out = pallete(&pixels, Mood::Dominant, 1, &mut rng);
    assert_eq!(out.len(), 1);
    assert_eq!(out[0].color, pc(50, 0, 0));
    assert_eq!(out[0].count, 100);
    let dominance = out[0].count as f32 / pixels.len() as f32;
    assert_eq!(dominance, 1.0);
}

#[test]
fn single_cluster_mean_of_two_values() {
    // Equal halves at lightness 10 and 90: the mean sits exactly at 50.
    let mut pixels = vec![pc(10, 0, 0); 50];
    pixels.extend(vec![pc(90, 0, 0); 50]);
    let mut rng = StdRng::seed_from_u64(3);
    let out = pallete(&pixels, Mood::Dominant, 1, &mut rng);
    assert_eq!(out.len(), 1);
    assert_eq!(out[0].count, 100);
    assert_eq!(out[0].color, pc(50, 0, 0));
}

#[test]
fn dominance_fractions_sum_to_one() {
    let mut pixels = Vec::new();
    for i in 0..60u64 {
        pixels.push(pc(10 + (i % 7), (i % 11) as i64 - 5, (i % 13) as i64 - 6));
    }
    for seed in 0..5u64 {
        let mut rng = StdRng::seed_from_u64(seed);
        let out = pallete(&pixels, Mood::Dominant, 4, &mut rng);
        assert!(1 <= out.len() && out.len() <= 4);
        let total: usize = out.iter().map(|e| e.count).sum();
        assert_eq!(total, pixels.len());
        let sum: f32 = out.iter().map(|e| e.count as f32 / pixels.len() as f32).sum();
        assert!((sum - 1.0).abs() < 1e-6);
        for e in &out {
            let f = e.count as f32 / pixels.len() as f32;
            assert!((0.0..=1.0).contains(&f));
        }
    }
}

#[test]
fn same_seed_gives_identical_palette() {
    let mut pixels = Vec::new();
    for i in 0..80u64 {
        pixels.push(pc(5 + (i % 17), (i % 9) as i64, (i % 5) as i64 - 2));
    }
    let mut rng1 = StdRng::seed_from_u64(42);
    let mut rng2 = StdRng::seed_from_u64(42);
    let out1 = pallete(&pixels, Mood::Dominant, 3, &mut rng1);
    let out2 = pallete(&pixels, Mood::Dominant, 3, &mut rng2);
    assert_eq!(out1, out2);
}

#[test]
fn update_step_is_stable_on_converged_centroids() {
    // Two tight groups, centroids already at their means: the update step
    // moves nothing, and re-running it moves nothing either.
    let mut pixels = vec![pc(10, 0, 0); 50];
    pixels.extend(vec![pc(90, 0, 0); 50]);
    let means = vec![pc(10, 0, 0), pc(90, 0, 0)];
    let (once, changed_once) = update_step(&pixels, &means, Mood::Dominant);
    assert_eq!(once, means);
    assert!(!changed_once);
    let (twice, changed_twice) = update_step(&pixels, &once, Mood::Dominant);
    assert_eq!(twice, once);
    assert!(!changed_twice);
}

#[test]
fn update_step_retains_centroid_of_empty_cluster() {
    // The far-off centroid attracts no pixel; its coordinates are kept.
    let pixels = vec![pc(10, 0, 0); 10];
    let means = vec![pc(10, 0, 0), pc(90, 50, -50)];
    let (updated, changed) = update_step(&pixels, &means, Mood::Dominant);
    assert_eq!(updated[0], pc(10, 0, 0));
    assert_eq!(updated[1], pc(90, 50, -50));
    assert!(!changed);
}

#[test]
fn two_well_separated_groups_give_two_half_dominant_centroids() {
    let mut pixels = vec![pc(10, 0, 0); 50];
    pixels.extend(vec![pc(90, 0, 0); 50]);
    for seed in 0..8u64 {
        let mut rng = StdRng::seed_from_u64(seed);
        let out = pallete(&pixels, Mood::Dominant, 2, &mut rng);
        assert_eq!(out.len(), 2);
        let mut sorted: Vec<&PaletteEntry> = out.iter().collect();
        sorted.sort_by_key(|e| e.color.l);
        assert_eq!(sorted[0].color, pc(10, 0, 0));
        assert_eq!(sorted[1].color, pc(90, 0, 0));
        assert_eq!(sorted[0].count, 50);
        assert_eq!(sorted[1].count, 50);
    }
}

#[test]
fn more_colors_requested_than_distinct_values_falls_back_without_panic() {
    // Three identical pixels, five colors requested: seeding degenerates
    // after the first centroid and the partial palette comes back.
    let pixels = vec![pc(30, 4, -4); 3];
    let mut rng = StdRng::seed_from_u64(9);
    let out = pallete(&pixels, Mood::Dominant, 5, &mut rng);
    assert_eq!(out.len(), 1);
    assert_eq!(out[0].color, pc(30, 4, -4));
    assert_eq!(out[0].count, 3);
}

#[test]
fn palette_never_loses_pixels_when_k_exceeds_pixel_count() {
    let pixels = vec![pc(1, 0, 0), pc(99, 0, 0)];
    let mut rng = StdRng::seed_from_u64(11);
    let out = pallete(&pixels, Mood::Dominant, 6, &mut rng);
    assert_eq!(out.len(), 2);
    let total: usize = out.iter().map(|e| e.count).sum();
    assert_eq!(total, 2);
}

#[test]
fn mood_registry_resolves_known_name_only() {
    assert_eq!(resolve_mood("dominant"), Some(Mood::Dominant));
    assert_eq!(resolve_mood("vibrant"), None);
    assert_eq!(resolve_mood(""), None);
    assert_eq!(resolve_mood("Dominant"), None);
}

#[test]
fn dominant_mood_weights_every_sample_equally() {
    assert_eq!(Mood::Dominant.weight(&pc(0, 0, 0)), 1);
    assert_eq!(Mood::Dominant.weight(&pc(99, 120, -120)), 1);
}
