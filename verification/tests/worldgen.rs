use mesopotamia::grid::Grid;
use mesopotamia::river::ford_indices;
use mesopotamia::river::spec::random_confluences;
use rand::rngs::StdRng;
use rand::SeedableRng;
use mesopotamia::wave::UNREACHED;
use mesopotamia::worldgen::river_side::{is_east, seed_river_side};
use mesopotamia::worldgen::testmap::{
    find, names, oval_row_centres, source_from_args, test_maps, WorldSource, OVAL_GAPS, OVAL_GAPS_W, OVAL_HALF_W, PAD_X,
};
use mesopotamia::worldgen::vegetation::rough_blocked_mask;

#[test]
fn is_east_is_strict() {
    assert!(is_east(6, 5));
    assert!(!is_east(5, 5));
    assert!(!is_east(4, 5));
}

#[test]
fn east_west_split_around_a_vertical_river() {
    let (width, height) = (16usize, 12usize);
    let c = 7usize;
    let mut grid = Grid::new(width, height);
    let main: Vec<usize> = (0..height).map(|row| row * width + c).collect();
    seed_river_side(&mut grid, &[main]);
    for row in 0..height {
        for col in 0..width {
            let i = row * width + col;
            let east = grid.east_of_river(i);
            if col > c {
                assert!(east, "cell ({col},{row}) east of river col {c} should be east");
            } else if col < c {
                assert!(!east, "cell ({col},{row}) west of river col {c} should be west");
            } else {
                assert!(!east, "cell on river col {c} is not strictly east");
            }
        }
    }
}

#[test]
fn no_mains_leaves_all_west() {
    let mut grid = Grid::new(10, 8);
    seed_river_side(&mut grid, &[]);
    for i in 0..grid.len() {
        assert!(!grid.east_of_river(i), "with no mains every cell must be west");
    }
}

#[test]
fn classification_is_deterministic() {
    let (width, height) = (12usize, 10usize);
    let main: Vec<usize> = (0..height).map(|row| row * width + 5).collect();
    let mut g1 = Grid::new(width, height);
    let mut g2 = Grid::new(width, height);
    seed_river_side(&mut g1, &[main.clone()]);
    seed_river_side(&mut g2, &[main]);
    let s1: Vec<bool> = (0..g1.len()).map(|i| g1.east_of_river(i)).collect();
    let s2: Vec<bool> = (0..g2.len()).map(|i| g2.east_of_river(i)).collect();
    assert_eq!(s1, s2, "same river must classify the same cells");
}

#[test]
fn river_dist_rises_away_from_the_river() {
    let (width, height) = (16usize, 12usize);
    let c = 4usize;
    let mut grid = Grid::new(width, height);
    let main: Vec<usize> = (0..height).map(|row| row * width + c).collect();
    let (dist, _) = seed_river_side(&mut grid, &[main]);
    let max = dist.iter().copied().filter(|&d| d != UNREACHED).max().unwrap();
    let row = 6;
    let on_river = dist[row * width + c];
    let near = dist[row * width + c + 2];
    let far = dist[row * width + (width - 1)];
    assert_eq!(on_river, 0, "a cell on the river has zero distance");
    assert!(near > on_river, "a cell off the river is farther than the river");
    assert!(far > near, "a more distant cell reads farther");
    assert_eq!(far, max, "the farthest cell normalizes to 1");
}

#[test]
fn river_side_origin_is_the_nearest_main() {
    let (width, height) = (10usize, 2usize);
    let west: Vec<usize> = (0..height).map(|r| r * width + 1).collect();
    let east: Vec<usize> = (0..height).map(|r| r * width + 8).collect();
    let mut grid = Grid::new(width, height);
    let (dist, origin) = seed_river_side(&mut grid, &[west, east]);
    assert_eq!(origin[3] % width, 1);
    assert_eq!(origin[6] % width, 8);
    assert_eq!(dist[3], 2);
    assert!(grid.east_of_river(3) && !grid.east_of_river(6) && grid.east_of_river(9));
}

#[test]
fn rough_border_is_cleared() {
    let (w, h) = (7usize, 7usize);
    let mut rough = vec![false; w * h];
    let center = 3 * w + 3;
    rough[center] = true;
    let blocked = rough_blocked_mask(&rough, w, h, 2);
    assert!(blocked[center], "the rough cell itself is blocked");
    assert!(blocked[3 * w + 5], "a cell 2 away (within margin) is blocked");
    assert!(!blocked[3 * w + 6], "a cell 3 away (beyond margin) is clear");
    assert!(!blocked[0], "a far corner is clear");
}

#[test]
fn no_rough_blocks_nothing() {
    let (w, h) = (5usize, 5usize);
    let blocked = rough_blocked_mask(&vec![false; w * h], w, h, 2);
    assert!(blocked.iter().all(|&b| !b), "with no rough, no cell is blocked");
}

#[test]
fn rough_margin_is_a_king_ball() {
    let (w, h) = (6usize, 6usize);
    let mut rough = vec![false; w * h];
    rough[0] = true;
    let blocked = rough_blocked_mask(&rough, w, h, 1);
    let set: Vec<usize> = (0..w * h).filter(|&i| blocked[i]).collect();
    assert_eq!(set, vec![0, 1, 6, 7], "one ring blocks the diagonal too");
    let none = rough_blocked_mask(&rough, w, h, -3);
    assert_eq!(none, rough, "a negative margin blocks only the rough itself");
}

#[test]
fn ford_indices_returns_every_nth_cell() {
    let cl: Vec<usize> = (10..110).collect(); // 100 elements: 10..109
    let fords = ford_indices(&cl, 25);
    assert_eq!(fords, vec![10, 35, 60, 85]);
}

#[test]
fn ford_indices_empty_centerline() {
    assert!(ford_indices(&[], 10).is_empty());
}

#[test]
fn ford_indices_spacing_larger_than_len() {
    let cl = vec![7usize, 8, 9];
    let fords = ford_indices(&cl, 10);
    assert_eq!(fords, vec![7]); // only position 0
}

#[test]
fn confluence_parent_precedes_child() {
    for seed in 0..50u64 {
        let mut rng = StdRng::seed_from_u64(seed);
        let pairs = random_confluences(4, &mut rng);
        assert_eq!(pairs.len(), 1);
        let (child, parent) = pairs[0];
        assert!(parent < child && child < 4);
    }
    let mut rng = StdRng::seed_from_u64(1);
    assert!(random_confluences(1, &mut rng).is_empty());
    assert!(random_confluences(0, &mut rng).is_empty());
}

fn args(parts: &[&str]) -> Vec<String> {
    parts.iter().map(|s| s.to_string()).collect()
}

#[test]
fn find_resolves_known_and_rejects_unknown() {
    assert!(find("oval-gaps").is_some());
    assert!(find("nope").is_none());
}

#[test]
fn source_from_args_parses_flag_forms() {
    assert!(matches!(source_from_args(args(&["bin"])), Ok(WorldSource::Procedural)));
    assert!(matches!(
        source_from_args(args(&["bin", "--test-map", "oval-gaps"])),
        Ok(WorldSource::TestMap(_))
    ));
    assert!(matches!(
        source_from_args(args(&["bin", "--test-map=oval-gaps"])),
        Ok(WorldSource::TestMap(_))
    ));
    assert!(source_from_args(args(&["bin", "--test-map", "bogus"])).is_err());
    assert!(source_from_args(args(&["bin", "--test-map"])).is_err());
}

#[test]
fn source_errors_list_the_maps() {
    match source_from_args(args(&["bin", "--test-map=bogus"])) {
        Err(e) => assert_eq!(e, "unknown test map \"bogus\" (one of: oval-gaps)"),
        Ok(_) => panic!("bogus must be rejected"),
    }
    match source_from_args(args(&["bin", "--test-map"])) {
        Err(e) => assert_eq!(e, "--test-map needs a name (one of: oval-gaps)"),
        Ok(_) => panic!("a missing name must be rejected"),
    }
    assert_eq!(names(), "oval-gaps");
}

#[test]
fn oval_gaps_map_has_the_documented_size() {
    let maps = test_maps();
    assert_eq!(maps.len(), 1);
    assert_eq!((maps[0].width, maps[0].height), (122, 31));
    match source_from_args(args(&["--test-map", "oval-gaps", "--test-map=bogus"])) {
        Ok(WorldSource::TestMap(m)) => assert_eq!(m.name, "oval-gaps"),
        _ => panic!("the first flag decides"),
    }
}

#[test]
fn confluence_pairs_vary_with_the_seed() {
    let mut seen: Vec<(usize, usize)> = Vec::new();
    for seed in 0..50u64 {
        let mut rng = StdRng::seed_from_u64(seed);
        let pair = random_confluences(4, &mut rng)[0];
        if !seen.contains(&pair) {
            seen.push(pair);
        }
    }
    assert!(seen.len() > 1, "every seed gave the same confluence");
}

#[test]
fn oval_gaps_row_has_widening_gaps_and_even_padding() {
    let cols = oval_row_centres(OVAL_GAPS_W, OVAL_HALF_W, &OVAL_GAPS);
    assert_eq!(cols.len(), 4);
    let hw = OVAL_HALF_W;
    assert_eq!(cols[0] - hw, PAD_X, "bare columns left of the first oval");
    assert_eq!(OVAL_GAPS_W - 1 - (cols[3] + hw), PAD_X, "bare columns right of the last oval");
    let gaps: Vec<usize> = cols.windows(2).map(|w| (w[1] - hw) - (w[0] + hw) - 1).collect();
    assert_eq!(gaps, vec![2, 8, 20]);
}

#[test]
fn oval_row_is_flush_left_when_too_wide() {
    // Two ovals of half-width 2 and a gap of 3 span 13 columns; a 10-wide grid
    // cannot centre them, so the row starts at the left edge.
    assert_eq!(oval_row_centres(10, 2, &[3]), vec![2, 10]);
    assert_eq!(oval_row_centres(19, 2, &[3]), vec![5, 13]);
    assert_eq!(oval_row_centres(7, 0, &[]), vec![3]);
}

#[test]
fn dilating_twice_adds_the_margins() {
    let (w, h) = (9usize, 7usize);
    let mut rough = vec![false; w * h];
    rough[3 * w + 4] = true;
    rough[w + 1] = true;
    let once = rough_blocked_mask(&rough, w, h, 1);
    let twice = rough_blocked_mask(&once, w, h, 2);
    assert_eq!(twice, rough_blocked_mask(&rough, w, h, 3));
}
