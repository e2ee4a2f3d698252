use mesopotamia::grid::Grid;
use mesopotamia::river::features::{carve_tributaries, dry_basins, place_oxbows, sources_on_grid};
use mesopotamia::river::lake::{lake_centers, lake_positions, survey_lakes};
use mesopotamia::river::prox::water_rings;
use mesopotamia::river::spec::TributarySpec;
use mesopotamia::river::{confluence_goal, entry_col};
use mesopotamia::worldgen::rough::place_origins;
use rand::rngs::StdRng;
use rand::SeedableRng;

fn min_pair_distance(cells: &[usize], width: usize) -> f32 {
    let coords = |i: usize| ((i % width) as f32, (i / width) as f32);
    let mut min_pair = f32::INFINITY;
    for a in 0..cells.len() {
        for b in (a + 1)..cells.len() {
            let (ax, ay) = coords(cells[a]);
            let (bx, by) = coords(cells[b]);
            let d = ((ax - bx).powi(2) + (ay - by).powi(2)).sqrt();
            min_pair = min_pair.min(d);
        }
    }
    min_pair
}

#[test]
fn lake_positions_are_spaced() {
    let width = 64usize;
    let height = 64usize;
    let candidates: Vec<usize> = (0..width * height).collect();
    let mut rng = StdRng::seed_from_u64(42);
    let count = 8;
    let positions = lake_positions(&candidates, count, 16, width, &[], &mut rng);
    assert_eq!(positions.len(), count, "should return `count` positions");
    let min_pair = min_pair_distance(&positions, width);
    assert!(min_pair > 8.0, "lakes should be blue-noise spaced; min pairwise distance was {min_pair}");
}

#[test]
fn lake_positions_avoid_preseed() {
    let width = 64usize;
    let height = 64usize;
    let candidates: Vec<usize> = (0..width * height).collect();
    let preseed = vec![0usize];
    let mut rng = StdRng::seed_from_u64(7);
    let positions = lake_positions(&candidates, 4, 32, width, &preseed, &mut rng);
    for &p in &positions {
        let (px, py) = ((p % width) as f32, (p / width) as f32);
        let d = (px * px + py * py).sqrt();
        assert!(d > 8.0, "minor lake at ({px},{py}) landed on the preseeded repeller corner (d={d})");
    }
}

#[test]
fn strokes_are_spaced() {
    let width = 64usize;
    let height = 64usize;
    let candidates: Vec<usize> = (0..width * height).collect();
    let mut rng = StdRng::seed_from_u64(42);
    let count = 8;
    let origins = place_origins(&candidates, count, 16, width, &mut rng);
    assert_eq!(origins.len(), count);
    let min_pair = min_pair_distance(&origins, width);
    assert!(min_pair > 8.0, "strokes should be blue-noise spaced; min pairwise distance was {min_pair}");
}

#[test]
fn lake_positions_degenerate_inputs_are_empty() {
    let mut rng = StdRng::seed_from_u64(1);
    assert!(lake_positions(&[], 3, 4, 8, &[], &mut rng).is_empty());
    assert!(lake_positions(&[1, 2, 3], 0, 4, 8, &[], &mut rng).is_empty());
}

#[test]
fn lake_positions_cap_at_candidate_count() {
    let mut rng = StdRng::seed_from_u64(3);
    let candidates = vec![5usize, 17, 40];
    let picks = lake_positions(&candidates, 10, 4, 8, &[0], &mut rng);
    assert_eq!(picks.len(), 3);
    assert!(picks.iter().all(|p| candidates.contains(p)));
}

#[test]
fn lake_positions_with_one_candidate_repeats_it() {
    // Draws are with replacement: the only candidate is picked every time.
    let mut rng = StdRng::seed_from_u64(9);
    let picks = lake_positions(&[12], 1, 3, 8, &[0], &mut rng);
    assert_eq!(picks, vec![12]);
}

#[test]
fn best_candidate_takes_the_farthest_sample() {
    // Two candidates; with many samples both get drawn, and the far one wins.
    let width = 32usize;
    let candidates = vec![1usize, 31 * 32 + 31];
    let mut rng = StdRng::seed_from_u64(11);
    let picks = lake_positions(&candidates, 1, 64, width, &[0], &mut rng);
    assert_eq!(picks, vec![31 * 32 + 31]);
}

fn center_column_water(width: usize, height: usize) -> Vec<bool> {
    let mid = width / 2;
    (0..width * height).map(|i| i % width == mid).collect()
}

#[test]
fn survey_finds_sites_clear_of_water() {
    let (width, height) = (16usize, 8usize);
    let water = center_column_water(width, height);
    let sv = survey_lakes(&water, width, height);
    for &s in &sv.sites {
        let col = s % width;
        assert!(col != 7 && col != 8 && col != 9, "site {s} touches the water column");
    }
    assert!(sv.sites.contains(&0));
    assert!(sv.sites.windows(2).all(|w| w[0] < w[1]));
    // Border: min(distance to water, distance to edge); the widest is 3.
    assert_eq!(sv.border[3 * width + 4], 3);
    assert_eq!(sv.dist[3 * width + 4], 4);
    assert_eq!(sv.edges[3 * width + 4], 3);
    assert_eq!(sv.max_border, 3);
}

#[test]
fn survey_of_a_dry_grid_has_no_water_distance() {
    let (width, height) = (6usize, 5usize);
    let water = vec![false; width * height];
    let sv = survey_lakes(&water, width, height);
    assert_eq!(sv.sites.len(), width * height);
    assert!(sv.dist.iter().all(|&d| d == u32::MAX));
    // With no water the border is the edge distance; the centre row is 2 from the edge.
    assert_eq!(sv.max_border, 2);
}

#[test]
fn lake_centers_respect_their_filters() {
    let (width, height) = (40usize, 30usize);
    let water = center_column_water(width, height);
    let sv = survey_lakes(&water, width, height);
    let mut rng = StdRng::seed_from_u64(0x1A4E);
    let threshold = 4u32;
    let (big, minor) = lake_centers(&sv, threshold, 6, 3, 3, 3, 16, width, &mut rng);
    assert_eq!(big.len(), 3);
    assert_eq!(minor.len(), 3);
    for &c in &big {
        assert!(sv.border[c] >= threshold && sv.edges[c] >= 6, "big lake at {c}");
    }
    for &c in &minor {
        assert!(sv.edges[c] >= 3 && sv.sites.contains(&c), "minor lake at {c}");
    }
}

#[test]
fn lake_centers_without_lakes_are_empty() {
    let water = center_column_water(16, 8);
    let sv = survey_lakes(&water, 16, 8);
    let mut rng = StdRng::seed_from_u64(5);
    let (big, minor) = lake_centers(&sv, 0, 0, 0, 0, 0, 16, 16, &mut rng);
    assert!(big.is_empty() && minor.is_empty());
}

fn two_basin_cost() -> Vec<u32> {
    let mut cost = vec![10u32; 25];
    cost[6] = 1;
    cost[18] = 1;
    cost
}

#[test]
fn dry_basins_are_cost_minima_off_the_water() {
    let water = vec![false; 25];
    let basins = dry_basins(&water, &two_basin_cost(), 5, 5);
    assert_eq!(basins.len(), 17);
    assert!(basins.contains(&6) && basins.contains(&18));
    for beside in [1usize, 5, 7, 11, 13, 17, 19, 23] {
        assert!(!basins.contains(&beside), "{beside} has a cheaper neighbour");
    }
    let mut wet = vec![false; 25];
    wet[12] = true;
    let dry = dry_basins(&wet, &two_basin_cost(), 5, 5);
    for near in [7usize, 11, 12, 13, 17] {
        assert!(!dry.contains(&near), "{near} is on or beside water");
    }
}

#[test]
fn oxbows_are_distinct_basins() {
    let water = vec![false; 25];
    let cost = two_basin_cost();
    let basins = dry_basins(&water, &cost, 5, 5);
    let mut rng = StdRng::seed_from_u64(2);
    let two = place_oxbows(&water, &cost, 5, 5, 2, &mut rng);
    assert_eq!(two.len(), 2);
    assert_ne!(two[0], two[1]);
    assert!(two.iter().all(|c| basins.contains(c)));
    let all = place_oxbows(&water, &cost, 5, 5, 100, &mut rng);
    assert_eq!(all.len(), 17);
    let mut sorted = all.clone();
    sorted.sort();
    assert_eq!(sorted, basins);
}

fn vertical_main(width: usize, height: usize, col: usize) -> Vec<usize> {
    (0..height).map(|row| row * width + col).collect()
}

#[test]
fn tributaries_join_their_confluences() {
    let (width, height) = (20usize, 30usize);
    let g = Grid::new(width, height);
    let cost = vec![10u32; width * height];
    let main = vertical_main(width, height, 10);
    let mut wet = vec![false; width * height];
    for &c in &main {
        wet[c] = true;
    }
    let before = wet.clone();
    let spec = TributarySpec { spacing: 8, length: 4, radius: 1, core: 1, wets: true };
    let mut rng = StdRng::seed_from_u64(0xBEDA);
    let tribs = carve_tributaries(&g, &mut wet, &cost, &mut rng, &spec, &[main.clone()]);
    // Interior skips 3 cells at each end; confluences at rows 3, 11 and 19.
    let confluences = [3 * width + 10, 11 * width + 10, 19 * width + 10];
    assert_eq!(tribs.len(), 3);
    for (t, &conf) in tribs.iter().zip(confluences.iter()) {
        assert_eq!(t[0], conf);
        let source = *t.last().unwrap();
        let (row, col) = (source / width, source % width);
        assert_eq!(row, conf / width - 2, "source sits half the length upstream");
        assert!(col == 6 || col == 14, "source sits the length to one side, got column {col}");
        assert!(!before[source]);
        for w in t.windows(2) {
            let (a, b) = (w[0], w[1]);
            let dc = (a % width) as i64 - (b % width) as i64;
            let dr = (a / width) as i64 - (b / width) as i64;
            assert!(dc.abs() <= 1 && dr.abs() <= 1 && (dc, dr) != (0, 0));
        }
        for &c in t {
            assert!(wet[c], "tributary cell {c} should now be wet");
        }
    }
    // Stamps only add water.
    assert!(before.iter().zip(wet.iter()).all(|(b, a)| !*b || *a));
}

#[test]
fn tributaries_skip_wet_sources() {
    let (width, height) = (20usize, 30usize);
    let g = Grid::new(width, height);
    let cost = vec![10u32; width * height];
    let main = vertical_main(width, height, 10);
    let mut wet = vec![true; width * height];
    let spec = TributarySpec { spacing: 8, length: 4, radius: 1, core: 1, wets: true };
    let mut rng = StdRng::seed_from_u64(1);
    let tribs = carve_tributaries(&g, &mut wet, &cost, &mut rng, &spec, &[main]);
    assert!(tribs.is_empty());
    assert!(wet.iter().all(|&w| w));
}

#[test]
fn tributaries_without_mains_or_water_leave_the_mask() {
    let (width, height) = (20usize, 30usize);
    let g = Grid::new(width, height);
    let cost = vec![10u32; width * height];
    let mut wet = vec![false; width * height];
    let spec = TributarySpec { spacing: 8, length: 4, radius: 1, core: 1, wets: false };
    let mut rng = StdRng::seed_from_u64(1);
    assert!(carve_tributaries(&g, &mut wet, &cost, &mut rng, &spec, &[]).is_empty());
    let main = vertical_main(width, height, 10);
    let tribs = carve_tributaries(&g, &mut wet, &cost, &mut rng, &spec, &[main]);
    assert_eq!(tribs.len(), 3);
    assert!(wet.iter().all(|&w| !w), "dry stamps wet nothing");
}

#[test]
fn stamps_wet_exactly_the_disc_within_radius_plus_one() {
    let (width, height) = (30usize, 40usize);
    let g = Grid::new(width, height);
    let cost: Vec<u32> = (0..width * height).map(|i| 5 + ((i * 7) % 13) as u32).collect();
    let main = vertical_main(width, height, 15);
    let mut wet = vec![false; width * height];
    let (radius, core) = (2isize, 0isize);
    let spec = TributarySpec { spacing: 10, length: 6, radius, core, wets: true };
    let mut rng = StdRng::seed_from_u64(4);
    let tribs = carve_tributaries(&g, &mut wet, &cost, &mut rng, &spec, &[main]);
    assert!(!tribs.is_empty());
    for i in 0..width * height {
        let (r, c) = ((i / width) as i64, (i % width) as i64);
        let expected = tribs.iter().flatten().any(|&p| {
            let (pr, pc) = ((p / width) as i64, (p % width) as i64);
            let (dx, dy) = (c - pc, r - pr);
            let d2 = dx * dx + dy * dy;
            let r1 = radius as i64 + 1;
            dx.abs() <= radius as i64
                && dy.abs() <= radius as i64
                && ((core >= 0 && d2 <= (core * core) as i64) || d2 < r1 * r1)
        });
        assert_eq!(wet[i], expected, "cell {i}");
    }
}

#[test]
fn entry_columns_spread_and_clamp() {
    assert_eq!(entry_col(256, 3, 0), 64);
    assert_eq!(entry_col(256, 3, 1), 128);
    assert_eq!(entry_col(256, 3, 2), 192);
    assert_eq!(entry_col(10, 100, 0), 1);
    assert_eq!(entry_col(10, 1, 0), 5);
    assert_eq!(entry_col(3, 1, 0), 1);
}

#[test]
fn confluence_goal_lies_low_on_the_parent() {
    let (width, height) = (10usize, 20usize);
    let parent = vertical_main(width, height, 5);
    for seed in 0..20u64 {
        let mut rng = StdRng::seed_from_u64(seed);
        let goal = confluence_goal(&parent, width, height, &mut rng);
        assert!(parent.contains(&goal));
        assert!(goal / width > 12, "goal row {} is above the lower reach", goal / width);
    }
    let high: Vec<usize> = (0..6).map(|row| row * width + 5).collect();
    let mut rng = StdRng::seed_from_u64(3);
    let goal = confluence_goal(&high, width, height, &mut rng);
    assert!(high.contains(&goal));
}

#[test]
fn water_rings_carry_the_reach_of_the_nearest_water() {
    // A river cell at the left end of a row and a lake cell at the right end.
    let (width, height) = (9usize, 1usize);
    let mut water = vec![false; width];
    let mut lake = vec![false; width];
    water[0] = true;
    water[8] = true;
    lake[8] = true;
    let rings = water_rings(&water, &lake, width, height, 3, 2);
    assert_eq!(rings.dist, vec![0, 1, 2, 3, 4, 3, 2, 1, 0]);
    assert_eq!(rings.origin[2], 0);
    assert_eq!(rings.origin[6], 8);
    assert_eq!(rings.reach[0], 3);
    assert_eq!(rings.reach[1], 3);
    assert_eq!(rings.reach[7], 2);
    assert_eq!(rings.reach[8], 2);
    // The tie at the centre goes to the water cell queued first.
    assert_eq!(rings.origin[4], 0);
    assert_eq!(rings.reach[4], 3);
}

#[test]
fn water_rings_without_water_reach_nothing() {
    let rings = water_rings(&[false; 6], &[false; 6], 3, 2, 3, 2);
    assert!(rings.dist.iter().all(|&d| d == u32::MAX));
    assert!(rings.reach.iter().all(|&r| r == 0));
    assert!(rings.origin.iter().all(|&o| o == usize::MAX));
}

#[test]
fn confluence_goals_vary_with_the_seed() {
    let (width, height) = (10usize, 20usize);
    let parent = vertical_main(width, height, 5);
    let mut seen: Vec<usize> = Vec::new();
    for seed in 0..20u64 {
        let mut rng = StdRng::seed_from_u64(seed);
        let goal = confluence_goal(&parent, width, height, &mut rng);
        if !seen.contains(&goal) {
            seen.push(goal);
        }
    }
    assert!(seen.len() > 1, "every seed gave the same goal");
}

#[test]
fn tributaries_with_a_negative_length_rise_downstream() {
    let (width, height) = (20usize, 30usize);
    let g = Grid::new(width, height);
    let cost = vec![10u32; width * height];
    let main = vertical_main(width, height, 10);
    let mut wet = vec![false; width * height];
    for &c in &main {
        wet[c] = true;
    }
    // Half of -5 rounds toward zero: two rows downstream, five columns aside.
    let spec = TributarySpec { spacing: 8, length: -5, radius: 1, core: 1, wets: true };
    assert!(sources_on_grid(&[main.clone()], &spec, width, height));
    let mut rng = StdRng::seed_from_u64(7);
    let tribs = carve_tributaries(&g, &mut wet, &cost, &mut rng, &spec, &[main.clone()]);
    let confluences = [3 * width + 10, 11 * width + 10, 19 * width + 10];
    assert_eq!(tribs.len(), 3);
    for (t, &conf) in tribs.iter().zip(confluences.iter()) {
        assert_eq!(t[0], conf);
        let source = *t.last().unwrap();
        let (row, col) = (source / width, source % width);
        assert_eq!(row, conf / width + 2);
        assert!(col == 5 || col == 15, "source sits five columns to one side, got column {col}");
    }
}

#[test]
fn tributary_sources_must_stay_on_the_grid() {
    let (width, height) = (20usize, 30usize);
    let main = vertical_main(width, height, 10);
    let spec = |length: isize| TributarySpec { spacing: 8, length, radius: 1, core: 1, wets: true };
    assert!(sources_on_grid(&[main.clone()], &spec(4), width, height));
    assert!(sources_on_grid(&[main.clone()], &spec(500), width, height));
    assert!(sources_on_grid(&[main.clone()], &spec(-10), width, height));
    assert!(!sources_on_grid(&[main.clone()], &spec(-11), width, height), "no room on the near side");
    // A channel along the bottom row: a far-side source past the last column runs off the grid.
    let (width, height) = (40usize, 10usize);
    let bottom: Vec<usize> = (10..40).map(|c| (height - 1) * width + c).collect();
    let one = TributarySpec { spacing: 1, length: -3, radius: 1, core: 1, wets: true };
    assert!(sources_on_grid(&[bottom.clone()], &one, width, height));
    let five = TributarySpec { spacing: 1, length: -5, radius: 1, core: 1, wets: true };
    assert!(!sources_on_grid(&[bottom], &five, width, height));
}
