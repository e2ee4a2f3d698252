use mesopotamia::field::step;
use mesopotamia::grid::Grid;
use mesopotamia::river::lake::{dist_to_water, edge_dist, is_lake_site};
use mesopotamia::river::features::is_dry_basin;
use mesopotamia::shrub_tile::distance_to_ink;
use mesopotamia::wave::{wavefront, UNREACHED};
use mesopotamia::worldgen::soil_texture::dist_to_rough;

fn center_water(width: usize, height: usize) -> Vec<bool> {
    let mid = width / 2;
    (0..width * height).map(|i| i % width == mid).collect()
}

#[test]
fn dist_to_water_adjacency_is_one() {
    let width = 16usize;
    let height = 8usize;
    let w = center_water(width, height);
    let dist = dist_to_water(&w, width, height);
    let mid = width / 2;
    let beside = 3 * width + (mid - 1);
    assert_eq!(dist[beside], 1, "cell adjacent to water should be 1");
    assert_eq!(dist[3 * width + mid], 0, "water cell is distance 0");
}

#[test]
fn dist_to_water_interior_is_larger() {
    let width = 16usize;
    let height = 8usize;
    let w = center_water(width, height);
    let dist = dist_to_water(&w, width, height);
    let mid = width / 2;
    let beside = 3 * width + (mid - 1);
    let far = 3 * width; // column 0
    assert!(dist[far] > dist[beside]);
    assert_eq!(dist[far], mid as u32, "column 0 is `mid` steps from center water");
}

#[test]
fn dist_to_water_is_deterministic() {
    let w = center_water(16, 8);
    assert_eq!(dist_to_water(&w, 16, 8), dist_to_water(&w, 16, 8), "BFS must be deterministic");
}

#[test]
fn dist_to_water_without_water_is_unreached() {
    let dist = dist_to_water(&vec![false; 12], 4, 3);
    assert!(dist.iter().all(|&d| d == UNREACHED));
}

#[test]
fn edge_dist_measures_nearest_grid_edge() {
    assert_eq!(edge_dist(0, 0, 10, 8), 0);
    assert_eq!(edge_dist(1, 1, 10, 8), 1);
    assert_eq!(edge_dist(9, 7, 10, 8), 0, "the far corner is also on the edge");
    assert_eq!(edge_dist(5, 4, 10, 8), 3, "min(5, 4, 4, 3) = 3");
}

#[test]
fn lake_sites_avoid_water_and_its_banks() {
    let w = center_water(8, 3); // water in column 4
    assert!(!is_lake_site(&w, 8, 3, 4), "water is no site");
    assert!(!is_lake_site(&w, 8, 3, 8 + 3), "a bank cell is no site");
    assert!(is_lake_site(&w, 8, 3, 8 + 1), "two columns off is a site");
    assert!(is_lake_site(&w, 8, 3, 0), "a dry corner is a site");
}

#[test]
fn dry_basins_are_cost_minima() {
    let w = vec![false; 9];
    let cost = vec![5, 5, 5, 5, 1, 5, 5, 5, 5];
    assert!(is_dry_basin(&w, &cost, 3, 3, 4));
    assert!(!is_dry_basin(&w, &cost, 3, 3, 1), "a neighbour is cheaper");
    let mut wet = w.clone();
    wet[1] = true;
    assert!(!is_dry_basin(&wet, &cost, 3, 3, 4), "water beside it");
}

#[test]
fn dist_to_rough_rings_out() {
    let mut rough = vec![false; 5 * 5];
    rough[12] = true;
    let d = dist_to_rough(&rough, 5, 5);
    assert_eq!(d[12], 0);
    assert_eq!(d[13], 1);
    assert_eq!(d[14], 2);
    assert_eq!(d[0], 4, "corners are four edge steps away");
}

#[test]
fn ink_distance_is_king_moves() {
    let mut mask = vec![false; 5 * 5];
    mask[0] = true;
    let d = distance_to_ink(&mask, 5);
    assert_eq!(d[0], 0);
    assert_eq!(d[6], 1, "the diagonal neighbour is one step");
    assert_eq!(d[24], 4, "the far corner is four diagonal steps");
    let empty = distance_to_ink(&vec![false; 4], 2);
    assert!(empty.iter().all(|&v| v == i32::MAX));
}

#[test]
fn wavefront_origin_is_nearest_seed() {
    let (dist, origin) = wavefront(7, 1, &vec![0, 6], false);
    assert_eq!(dist, vec![0, 1, 2, 3, 2, 1, 0]);
    assert_eq!(&origin[..3], &[0, 0, 0]);
    assert_eq!(&origin[4..], &[6, 6, 6]);
    // Equidistant middle: the earlier seed's wave arrives first.
    assert_eq!(origin[3], 0);
}

#[test]
fn wavefront_ties_go_to_the_seed_listed_first() {
    let (_, origin) = wavefront(7, 1, &vec![6, 0], false);
    assert_eq!(origin[3], 6);
    let (dist, origin) = wavefront(3, 3, &vec![8, 0], false);
    assert_eq!(dist, vec![0, 1, 2, 1, 2, 1, 2, 1, 0]);
    assert_eq!(origin[2], 8);
    assert_eq!(origin[4], 8);
    assert_eq!(origin[6], 8);
    assert_eq!(origin[1], 0);
    assert_eq!(origin[7], 8);
}

#[test]
fn step_stays_on_the_lattice() {
    assert_eq!(step(0, -1, 0, 4, 3), None);
    assert_eq!(step(0, 1, 1, 4, 3), Some(5));
    assert_eq!(step(11, 1, 0, 4, 3), None);
    assert_eq!(step(11, 0, -2, 4, 3), Some(3));
}

#[test]
fn grid_layers_set_and_reset() {
    let mut g = Grid::new(4, 3);
    assert_eq!(g.len(), 12);
    assert_eq!(g.col_row(7), (3, 1));
    assert_eq!(g.step(7, 1, 0), None);
    assert_eq!(g.step(7, -1, 1), Some(10));
    g.set_ford(2, true);
    g.set_lake(3, true);
    g.set_flower(4, true);
    g.set_soil_tint(5, 2);
    g.set_east_of_river(6, true);
    assert!(g.is_ford(2) && g.is_lake(3) && g.flower(4) && g.east_of_river(6));
    assert_eq!(g.soil_tint(5), 2);
    g.reset();
    assert!(!g.is_ford(2) && !g.is_lake(3) && !g.flower(4) && !g.east_of_river(6));
    assert_eq!(g.soil_tint(5), 0);
    assert_eq!((g.width(), g.height()), (4, 3));
}

#[test]
fn wavefront_is_deterministic() {
    let seeds = vec![14, 3, 40, 3, 27];
    let a = wavefront(9, 6, &seeds, true);
    let b = wavefront(9, 6, &seeds, true);
    assert_eq!(a, b);
    let c = wavefront(9, 6, &seeds, false);
    assert_eq!(c, wavefront(9, 6, &seeds, false));
}

#[test]
fn stepping_back_returns() {
    let (w, h) = (5usize, 4usize);
    for i in 0..w * h {
        for (dx, dy) in [(-1isize, 0isize), (1, 1), (2, -1), (0, 3)] {
            if let Some(j) = step(i, dx, dy, w, h) {
                assert_eq!(step(j, -dx, -dy, w, h), Some(i));
            }
        }
    }
}

#[test]
fn more_ink_is_never_farther() {
    let n = 6usize;
    let mut mask = vec![false; n * n];
    mask[7] = true;
    let before = distance_to_ink(&mask, n);
    mask[28] = true;
    let after = distance_to_ink(&mask, n);
    for i in 0..n * n {
        assert!(after[i] <= before[i]);
    }
    assert_eq!(before[35], 4);
    assert_eq!(after[35], 1);
}

#[test]
fn ink_distance_is_king_moves_across_the_tile() {
    // One inked corner: every pixel's distance is its king-move distance to it.
    let n = 40usize;
    let mut mask = vec![false; n * n];
    mask[0] = true;
    let d = distance_to_ink(&mask, n);
    assert_eq!(d[n * n - 1], 39);
    assert_eq!(d[n - 1], 39);
    assert_eq!(d[n + 1], 1);
}
