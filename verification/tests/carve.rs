use mesopotamia::grid::Grid;
use mesopotamia::river::cost::carve;
use mesopotamia::river::spec::Heading;

/// Step price as the carve charges it: entry cost, √2 per-mille on diagonals,
/// plus the penalty on steps that go up a row.
fn step_price(cost: &[u32], width: usize, a: usize, b: usize, pen: u32) -> u64 {
    let (ac, ar) = ((a % width) as i64, (a / width) as i64);
    let (bc, br) = ((b % width) as i64, (b / width) as i64);
    let (dx, dy) = (bc - ac, br - ar);
    assert!(dx.abs() <= 1 && dy.abs() <= 1 && (dx, dy) != (0, 0), "{a} -> {b} is not a neighbour step");
    let entry = if dx != 0 && dy != 0 {
        (cost[b] as u64 * 1414).min(u32::MAX as u64) / 1000
    } else {
        cost[b] as u64
    };
    entry + if dy == -1 { pen as u64 } else { 0 }
}

/// Price of a carved path, walked from its start (last element) to its goal.
fn path_price(cost: &[u32], width: usize, path: &[usize], pen: u32) -> u64 {
    let mut total = 0u64;
    for k in (1..path.len()).rev() {
        total += step_price(cost, width, path[k], path[k - 1], pen);
    }
    total
}

fn assert_simple(path: &[usize]) {
    for i in 0..path.len() {
        for j in (i + 1)..path.len() {
            assert_ne!(path[i], path[j], "cell {} repeats in {:?}", path[i], path);
        }
    }
}

#[test]
fn carve_runs_straight_on_flat_cost() {
    let g = Grid::new(5, 5);
    let cost = vec![10u32; 25];
    let path = carve(&g, &cost, 0, 4, None);
    assert_eq!(path, vec![4, 3, 2, 1, 0]);
    assert_eq!(path_price(&cost, 5, &path, 0), 40);
}

#[test]
fn carve_to_itself_is_one_cell() {
    let g = Grid::new(4, 3);
    let cost = vec![7u32; 12];
    assert_eq!(carve(&g, &cost, 5, 5, None), vec![5]);
}

#[test]
fn carve_unreachable_goal_is_alone() {
    // A single row: every step is a straight one into a cell priced at u32::MAX.
    let g = Grid::new(3, 1);
    let cost = vec![u32::MAX; 3];
    assert_eq!(carve(&g, &cost, 0, 2, None), vec![2]);
}

#[test]
fn carve_diagonals_stay_affordable_at_the_cost_ceiling() {
    // A diagonal step saturates at u32::MAX / 1000, so corners remain reachable.
    let g = Grid::new(3, 3);
    let cost = vec![u32::MAX; 9];
    let path = carve(&g, &cost, 0, 8, None);
    assert_eq!(path, vec![8, 4, 0]);
    assert_eq!(path_price(&cost, 3, &path, 0), 2 * (u32::MAX as u64 / 1000));
}

#[test]
fn carve_takes_the_diagonal_when_cheaper() {
    // Corner to corner on flat cost: four diagonal steps at 14 beat eight straight ones at 10.
    let g = Grid::new(5, 5);
    let cost = vec![10u32; 25];
    let path = carve(&g, &cost, 0, 24, None);
    assert_eq!(path, vec![24, 18, 12, 6, 0]);
    assert_eq!(path_price(&cost, 5, &path, 0), 56);
}

#[test]
fn carve_detours_through_the_gap_in_a_wall() {
    // Column 2 is a wall of cost 1000 except for the bottom row.
    let (w, h) = (5usize, 5usize);
    let g = Grid::new(w, h);
    let mut cost = vec![10u32; w * h];
    for row in 0..h - 1 {
        cost[row * w + 2] = 1000;
    }
    let path = carve(&g, &cost, 0, 4, None);
    assert_eq!(path[0], 4);
    assert_eq!(*path.last().unwrap(), 0);
    assert!(path.contains(&(4 * w + 2)), "path {:?} should pass the gap", path);
    assert_simple(&path);
    // Down the west side, through the gap, up the east side: 2 diagonals + 2 straights each way.
    assert_eq!(path_price(&cost, w, &path, 0), 10 + 14 + 14 + 10 + 10 + 14 + 14 + 10);
}

#[test]
fn carve_penalty_charges_upward_steps() {
    let (w, h) = (3usize, 4usize);
    let g = Grid::new(w, h);
    let cost = vec![5u32; w * h];
    let heading = Heading::Down;
    // Climbing three rows costs three penalties on top of the entry costs.
    let path = carve(&g, &cost, 10, 1, Some((&heading, 100)));
    assert_eq!(path, vec![1, 4, 7, 10]);
    assert_eq!(path_price(&cost, w, &path, 100), 3 * 5 + 3 * 100);
    // Going down is free of penalty.
    let down = carve(&g, &cost, 1, 10, Some((&heading, 100)));
    assert_eq!(down, vec![10, 7, 4, 1]);
    assert_eq!(path_price(&cost, w, &down, 100), 15);
}

#[test]
fn carve_path_steps_between_neighbours_and_ends_at_start() {
    let (w, h) = (9usize, 7usize);
    let g = Grid::new(w, h);
    let cost: Vec<u32> = (0..w * h).map(|i| 1 + ((i * 37) % 23) as u32).collect();
    let heading = Heading::Down;
    let path = carve(&g, &cost, 3, 60, Some((&heading, 7)));
    assert_eq!(path[0], 60);
    assert_eq!(*path.last().unwrap(), 3);
    assert_simple(&path);
    // Every step is priced, so each is between neighbours.
    let _ = path_price(&cost, w, &path, 7);
}

#[test]
fn carve_is_no_dearer_than_a_hand_made_walk() {
    let (w, h) = (6usize, 6usize);
    let g = Grid::new(w, h);
    let cost: Vec<u32> = (0..w * h).map(|i| 3 + ((i * 13) % 11) as u32).collect();
    let path = carve(&g, &cost, 0, 35, None);
    // The plain diagonal walk from corner to corner.
    let diagonal: Vec<usize> = vec![35, 28, 21, 14, 7, 0];
    assert!(path_price(&cost, w, &path, 0) <= path_price(&cost, w, &diagonal, 0));
    // And a staircase walk.
    let stairs: Vec<usize> = vec![35, 29, 23, 17, 11, 5, 4, 3, 2, 1, 0];
    assert!(path_price(&cost, w, &path, 0) <= path_price(&cost, w, &stairs, 0));
}

#[test]
fn carve_ties_go_to_the_cheapest_then_lowest_entry() {
    // 0→1→5 (10 + 14) and 0→4→5 (14 + 10) both cost 24; the goal is entered
    // from cell 1, which is reached for less.
    let g = Grid::new(3, 3);
    let cost = vec![10u32; 9];
    assert_eq!(carve(&g, &cost, 0, 5, None), vec![5, 1, 0]);
    // 0→1→4 and 0→3→4 both cost 11 and reach 1 and 3 for 1 each; the lower
    // index wins.
    let mut cost = vec![1000u32; 9];
    cost[1] = 1;
    cost[3] = 1;
    cost[4] = 10;
    assert_eq!(carve(&g, &cost, 0, 4, None), vec![4, 1, 0]);
}

#[test]
fn carve_is_deterministic() {
    let (w, h) = (7usize, 6usize);
    let g = Grid::new(w, h);
    let cost: Vec<u32> = (0..w * h).map(|i| 1 + ((i * 37 + 11) % 9) as u32).collect();
    let a = carve(&g, &cost, 3, 38, Some((&Heading::Down, 40)));
    let b = carve(&g, &cost, 3, 38, Some((&Heading::Down, 40)));
    assert_eq!(a, b);
    assert_eq!(a[0], 38);
    assert_eq!(*a.last().unwrap(), 3);
}

#[test]
fn carve_zero_cost_ties_go_to_the_cell_settled_first() {
    // 0 1 2
    // 3 4 5
    // From 5 the free cell 4 is settled first; it reaches both 0 (free) and
    // the goal 3. Entering 3 from 0 costs the same, and 0 has the lower
    // index, but 4 was settled before 0, so the path keeps 4.
    let g = Grid::new(3, 2);
    let cost = vec![0u32, 1000, 1000, 10, 0, 0];
    assert_eq!(carve(&g, &cost, 5, 3, None), vec![3, 4, 5]);
}

#[test]
fn carve_zero_cost_ties_go_to_the_cheaper_neighbour() {
    // 0 1 2
    // 3 4 5
    // Goal 0 is entered for 1414 either straight from 1 (reached for 414) or
    // diagonally from 4 (reached for nothing); the cheaper neighbour wins
    // though its index is higher.
    let g = Grid::new(3, 2);
    let cost = vec![1000u32, 414, 1000, 1000, 0, 0];
    assert_eq!(carve(&g, &cost, 5, 0, None), vec![0, 4, 5]);
}
