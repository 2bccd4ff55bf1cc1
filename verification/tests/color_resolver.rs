use mindcub3r::color_resolver::{assign_colors, fallback_move, sq_dist, ColorRef, Rgb, COLORS, FACES, PER_COLOR};

fn make_ref(r: u16, g: u16, b: u16) -> ColorRef {
    ColorRef { r, g, b }
}

fn make_rgb(r: u16, g: u16, b: u16) -> Rgb {
    Rgb { r, g, b }
}

/// Build 54 perfect samples (9 × each reference) with optional noise.
fn perfect_samples(refs: &[ColorRef; COLORS], noise: u16) -> [Rgb; FACES] {
    let mut samples = [Rgb { r: 0, g: 0, b: 0 }; FACES];
    for c in 0..COLORS {
        for i in 0..PER_COLOR {
            let f = c * PER_COLOR + i;
            // Add a small deterministic offset to simulate sensor noise
            let offset = (i as u16) * noise;
            samples[f] = Rgb {
                r: refs[c].r.saturating_add(offset),
                g: refs[c].g.saturating_add(offset / 2),
                b: refs[c].b.saturating_add(offset / 3),
            };
        }
    }
    samples
}

fn standard_refs() -> [ColorRef; COLORS] {
    [
        make_ref(65000, 65000, 65000), // white
        make_ref(65000, 65000, 1000),  // yellow
        make_ref(55000, 5000, 5000),   // red
        make_ref(60000, 30000, 3000),  // orange
        make_ref(5000, 10000, 55000),  // blue
        make_ref(5000, 45000, 10000),  // green
    ]
}

fn total_cost(samples: &[Rgb; FACES], refs: &[ColorRef; COLORS], a: &[usize; FACES]) -> u64 {
    let mut total = 0u64;
    for f in 0..FACES {
        total += sq_dist(samples[f], refs[a[f]]);
    }
    total
}

#[test]
fn test_counts_are_exactly_nine() {
    let refs = [
        make_ref(65000, 65000, 65000), // white
        make_ref(65000, 65000, 1000),  // yellow
        make_ref(55000, 5000, 5000),   // red
        make_ref(60000, 30000, 3000),  // orange
        make_ref(5000, 10000, 55000),  // blue
        make_ref(5000, 45000, 10000),  // green
    ];
    let samples = perfect_samples(&refs, 200);
    let result = assign_colors(&samples, &refs);

    let mut counts = [0usize; COLORS];
    for &c in &result {
        counts[c] += 1;
    }
    assert_eq!(
        counts, [PER_COLOR; COLORS],
        "Each color must appear exactly {PER_COLOR} times, got {counts:?}"
    );
}

#[test]
fn test_correct_assignment_no_noise() {
    let refs = [
        make_ref(65000, 65000, 65000),
        make_ref(65000, 65000, 1000),
        make_ref(55000, 5000, 5000),
        make_ref(60000, 30000, 3000),
        make_ref(5000, 10000, 55000),
        make_ref(5000, 45000, 10000),
    ];
    let samples = perfect_samples(&refs, 0);
    let result = assign_colors(&samples, &refs);

    // With zero noise, each face must be assigned to its originating color
    for c in 0..COLORS {
        for i in 0..PER_COLOR {
            let f = c * PER_COLOR + i;
            assert_eq!(
                result[f], c,
                "Face {f} should be color {c}, got {}",
                result[f]
            );
        }
    }
}

#[test]
fn test_heavy_noise_still_satisfies_constraint() {
    let refs = [
        make_ref(65000, 65000, 65000),
        make_ref(65000, 65000, 1000),
        make_ref(55000, 5000, 5000),
        make_ref(60000, 30000, 3000),
        make_ref(5000, 10000, 55000),
        make_ref(5000, 45000, 10000),
    ];
    // 2000-unit noise — colors may be misidentified, but counts must hold
    let samples = perfect_samples(&refs, 2000);
    let result = assign_colors(&samples, &refs);

    let mut counts = [0usize; COLORS];
    for &c in &result {
        counts[c] += 1;
    }
    assert_eq!(counts, [PER_COLOR; COLORS]);
}

#[test]
fn test_sq_dist_no_fp() {
    // Simple sanity check on the integer distance
    let s = make_rgb(100, 200, 300);
    let r = make_ref(110, 190, 320);
    let d = sq_dist(s, r);
    // Δr=10, Δg=10, Δb=20 → 100+100+400 = 600
    assert_eq!(d, 600);
}

#[test]
fn sq_dist_extremes() {
    assert_eq!(sq_dist(make_rgb(0, 0, 0), make_ref(0, 0, 0)), 0);
    assert_eq!(sq_dist(make_rgb(65535, 65535, 65535), make_ref(0, 0, 0)), 3 * 65535u64 * 65535);
    assert_eq!(sq_dist(make_rgb(0, 65535, 0), make_ref(65535, 0, 65535)), 3 * 65535u64 * 65535);
    assert_eq!(sq_dist(make_rgb(3, 0, 0), make_ref(0, 4, 0)), 25);
}

/// All samples equal to one reference: the balance rule forces 45 faces elsewhere.
#[test]
fn all_samples_identical_still_balanced() {
    let refs = standard_refs();
    let samples = [make_rgb(65000, 65000, 65000); FACES];
    let result = assign_colors(&samples, &refs);
    let mut counts = [0usize; COLORS];
    for &c in &result {
        counts[c] += 1;
    }
    assert_eq!(counts, [PER_COLOR; COLORS]);
}

/// The result is never beaten by a simple exchange of two faces' colors.
#[test]
fn no_pairwise_swap_improves_noisy_assignment() {
    let refs = standard_refs();
    let samples = perfect_samples(&refs, 2000);
    let result = assign_colors(&samples, &refs);
    let best = total_cost(&samples, &refs, &result);
    for f in 0..FACES {
        for g in (f + 1)..FACES {
            let mut other = result;
            other.swap(f, g);
            assert!(total_cost(&samples, &refs, &other) >= best);
        }
    }
}

/// A case where the nearest reference of many faces is the same color and a chain of
/// reassignments is needed: faces drift toward their neighbour colors.
#[test]
fn chained_reassignment_is_optimal_among_swaps() {
    let refs = [
        make_ref(0, 0, 0),
        make_ref(1000, 0, 0),
        make_ref(2000, 0, 0),
        make_ref(3000, 0, 0),
        make_ref(4000, 0, 0),
        make_ref(5000, 0, 0),
    ];
    let mut samples = [make_rgb(0, 0, 0); FACES];
    for f in 0..FACES {
        // 18 faces near 0, the rest spread evenly
        let x = if f < 18 { (f as u16) * 10 } else { (f as u16 - 18) * 140 };
        samples[f] = make_rgb(x, 0, 0);
    }
    let result = assign_colors(&samples, &refs);
    let mut counts = [0usize; COLORS];
    for &c in &result {
        counts[c] += 1;
    }
    assert_eq!(counts, [PER_COLOR; COLORS]);
    let best = total_cost(&samples, &refs, &result);
    for f in 0..FACES {
        for g in (f + 1)..FACES {
            let mut other = result;
            other.swap(f, g);
            assert!(total_cost(&samples, &refs, &other) >= best);
        }
    }
}

#[test]
fn fallback_moves_cheapest_face() {
    let mut cost = [[0u64; COLORS]; FACES];
    for f in 0..FACES {
        for c in 0..COLORS {
            cost[f][c] = 100 + (f as u64) + 10 * (c as u64);
        }
    }
    // face 7 is cheap to move to color 5
    cost[7][5] = 0;
    let mut assignment = [0usize; FACES];
    for f in 0..FACES {
        assignment[f] = f / PER_COLOR;
    }
    let mut count = [PER_COLOR; COLORS];
    fallback_move(&cost, &mut assignment, &mut count, &[0], &[5]);
    assert_eq!(assignment[7], 5);
    assert_eq!(count[0], PER_COLOR - 1);
    assert_eq!(count[5], PER_COLOR + 1);
}

#[test]
fn fallback_ties_take_first_face() {
    let cost = [[5u64; COLORS]; FACES];
    let mut assignment = [0usize; FACES];
    for f in 0..FACES {
        assignment[f] = f / PER_COLOR;
    }
    let mut count = [PER_COLOR; COLORS];
    fallback_move(&cost, &mut assignment, &mut count, &[2, 3], &[4, 1]);
    // first face of color 2 is face 18; first listed under color is 4
    assert_eq!(assignment[18], 4);
    assert_eq!(count[2], PER_COLOR - 1);
    assert_eq!(count[4], PER_COLOR + 1);
}

/// Exact samples in a shuffled layout: the least total distance is zero, so every face gets
/// the color it was taken from.
#[test]
fn shuffled_exact_samples_cost_nothing() {
    let refs = standard_refs();
    let mut samples = [make_rgb(0, 0, 0); FACES];
    let mut origin = [0usize; FACES];
    for f in 0..FACES {
        let c = (f * 7 + 3) % COLORS;
        origin[f] = c;
        samples[f] = make_rgb(refs[c].r, refs[c].g, refs[c].b);
    }
    // (f * 7 + 3) % 6 visits each color nine times over 54 faces
    let result = assign_colors(&samples, &refs);
    assert_eq!(total_cost(&samples, &refs, &result), 0);
    assert_eq!(result, origin);
}

/// The nearest reference of most samples is color 0; the result still has cost no larger than
/// the balanced assignment that keeps every sample on its originating block.
#[test]
fn crowded_color_beats_block_assignment() {
    let refs = standard_refs();
    let mut samples = [make_rgb(0, 0, 0); FACES];
    for f in 0..FACES {
        let c = f / PER_COLOR;
        // pull every sample two thirds of the way toward white
        let w = refs[0];
        let mix = |a: u16, b: u16| ((a as u32 + 2 * b as u32) / 3) as u16;
        samples[f] = make_rgb(mix(refs[c].r, w.r), mix(refs[c].g, w.g), mix(refs[c].b, w.b));
    }
    let result = assign_colors(&samples, &refs);
    let mut counts = [0usize; COLORS];
    for &c in &result {
        counts[c] += 1;
    }
    assert_eq!(counts, [PER_COLOR; COLORS]);
    let mut block = [0usize; FACES];
    for f in 0..FACES {
        block[f] = f / PER_COLOR;
    }
    assert!(total_cost(&samples, &refs, &result) <= total_cost(&samples, &refs, &block));
}
