use std::collections::HashMap;
use clumsy_crucible::day17::{parse_digit_grid, part_one, part_two, solve_with};
use clumsy_crucible::grid::{Grid, GridError};
use clumsy_crucible::movement::{AugmentedState, Config, Direction};
use clumsy_crucible::search::{min_heat_loss, SearchError};

const EXAMPLE: &str = "2413432311323
3215453535623
3255245654254
3446585845452
4546657867536
1438598798454
4457876987766
3637877979653
4654967986887
4564679986453
1224686865563
2546548887735
4322674655533
";

fn grid_of(rows: Vec<Vec<u32>>) -> Grid {
    match Grid::new(rows) {
        Ok(g) => g,
        Err(e) => panic!("bad grid: {:?}", e),
    }
}

fn example_rows() -> Vec<Vec<u32>> {
    parse_digit_grid(EXAMPLE).unwrap()
}

/// Least route cost by relaxing every edge of the augmented-state graph
/// until nothing changes (Bellman-Ford), independent of the engine's order.
fn reference_by_relaxation(rows: &Vec<Vec<u32>>, cfg: Config) -> Option<u32> {
    let h = rows.len() as i64;
    let w = rows[0].len() as i64;
    if w == 1 && h == 1 {
        return Some(0);
    }
    let dirs = [(0i64, -1i64), (1, 0), (0, 1), (-1, 0)];
    let mut dist: HashMap<(i64, i64, usize, u32), u64> = HashMap::new();
    for (d, (dx, dy)) in dirs.iter().enumerate() {
        if *dx >= 0 && *dy >= 0 && *dx < w && *dy < h {
            dist.insert((*dx, *dy, d, 1), rows[*dy as usize][*dx as usize] as u64);
        }
    }
    loop {
        let mut changed = false;
        let snapshot: Vec<((i64, i64, usize, u32), u64)> = dist.iter().map(|(k, v)| (*k, *v)).collect();
        for ((x, y, d, run), c) in snapshot {
            for (m, (dx, dy)) in dirs.iter().enumerate() {
                let next_run = if m == d {
                    if run >= cfg.max_run {
                        continue;
                    }
                    run + 1
                } else if m == (d + 2) % 4 || run < cfg.min_run_before_turn {
                    continue;
                } else {
                    1
                };
                let (nx, ny) = (x + dx, y + dy);
                if nx < 0 || ny < 0 || nx >= w || ny >= h {
                    continue;
                }
                let nc = c + rows[ny as usize][nx as usize] as u64;
                let key = (nx, ny, m, next_run);
                if dist.get(&key).map(|&old| nc < old).unwrap_or(true) {
                    dist.insert(key, nc);
                    changed = true;
                }
            }
        }
        if !changed {
            break;
        }
    }
    dist.iter()
        .filter(|((x, y, _, run), _)| *x == w - 1 && *y == h - 1 && *run >= cfg.min_run_before_turn)
        .map(|(_, c)| *c)
        .min()
        .map(|c| c as u32)
}

/// Dijkstra over cells with the four neighbours as edges, no run limits.
fn plain_shortest_path(rows: &Vec<Vec<u32>>) -> u64 {
    let h = rows.len();
    let w = rows[0].len();
    let mut dist = vec![u64::MAX; w * h];
    let mut done = vec![false; w * h];
    dist[0] = 0;
    for _ in 0..w * h {
        let mut u = usize::MAX;
        for i in 0..w * h {
            if !done[i] && dist[i] != u64::MAX && (u == usize::MAX || dist[i] < dist[u]) {
                u = i;
            }
        }
        if u == usize::MAX {
            break;
        }
        done[u] = true;
        let (x, y) = ((u % w) as i64, (u / w) as i64);
        for (dx, dy) in [(0i64, -1i64), (1, 0), (0, 1), (-1, 0)] {
            let (nx, ny) = (x + dx, y + dy);
            if nx < 0 || ny < 0 || nx >= w as i64 || ny >= h as i64 {
                continue;
            }
            let v = ny as usize * w + nx as usize;
            let c = dist[u] + rows[ny as usize][nx as usize] as u64;
            if c < dist[v] {
                dist[v] = c;
            }
        }
    }
    dist[w * h - 1]
}

#[test]
fn test_part_one() {
    let result = part_one(EXAMPLE);
    assert_eq!(result, Some(102));
}

#[test]
fn test_part_two() {
    let result = part_two(EXAMPLE);
    assert_eq!(result, Some(94));
}

#[test]
fn engine_matches_the_basic_scenario() {
    let g = grid_of(example_rows());
    assert_eq!(min_heat_loss(&g, Config::basic()), Ok(Some(102)));
}

#[test]
fn engine_matches_the_extended_scenario() {
    let g = grid_of(example_rows());
    assert_eq!(min_heat_loss(&g, Config::extended()), Ok(Some(94)));
}

#[test]
fn extended_rules_on_a_second_grid() {
    let text = "111111111111\n999999999991\n999999999991\n999999999991\n999999999991\n";
    assert_eq!(part_two(text), Some(71));
}

#[test]
fn optimal_against_exhaustive_relaxation() {
    let grids: Vec<Vec<Vec<u32>>> = vec![
        vec![vec![1, 9, 1], vec![1, 9, 1], vec![1, 1, 1]],
        vec![vec![3, 1, 4, 1], vec![5, 9, 2, 6], vec![5, 3, 5, 8], vec![9, 7, 9, 3]],
        vec![vec![2, 7, 1, 8, 2], vec![8, 1, 8, 2, 8], vec![4, 5, 9, 4, 5]],
        vec![vec![1, 1, 1, 1, 1, 1], vec![9, 9, 9, 9, 9, 1]],
        vec![vec![1], vec![2], vec![3], vec![4], vec![5]],
        vec![
            vec![1, 2, 3, 4, 5],
            vec![2, 3, 4, 5, 6],
            vec![3, 4, 5, 6, 7],
            vec![4, 5, 6, 7, 8],
            vec![5, 6, 7, 8, 9],
        ],
    ];
    let configs = [
        Config::basic(),
        Config::extended(),
        Config { max_run: 1, min_run_before_turn: 1 },
        Config { max_run: 2, min_run_before_turn: 2 },
        Config { max_run: 4, min_run_before_turn: 2 },
    ];
    for rows in &grids {
        let g = grid_of(rows.clone());
        for cfg in configs {
            assert_eq!(min_heat_loss(&g, cfg), Ok(reference_by_relaxation(rows, cfg)), "{:?} {:?}", rows, cfg);
        }
    }
}

#[test]
fn raising_a_cell_never_lowers_the_result() {
    let base = min_heat_loss(&grid_of(example_rows()), Config::basic()).unwrap().unwrap();
    for (x, y) in [(1usize, 0usize), (5, 5), (12, 11), (0, 1)] {
        let mut rows = example_rows();
        rows[y][x] += 7;
        let raised = min_heat_loss(&grid_of(rows), Config::basic()).unwrap().unwrap();
        assert!(raised >= base);
    }
}

#[test]
fn unlimited_runs_match_plain_dijkstra() {
    let rows = example_rows();
    let cfg = Config { max_run: u32::MAX, min_run_before_turn: 1 };
    let r = min_heat_loss(&grid_of(rows.clone()), cfg).unwrap().unwrap();
    assert_eq!(r as u64, plain_shortest_path(&rows));
    let small = vec![vec![1, 9, 1, 1], vec![1, 9, 1, 9], vec![1, 1, 1, 9], vec![9, 9, 1, 1]];
    let r = min_heat_loss(&grid_of(small.clone()), cfg).unwrap().unwrap();
    assert_eq!(r as u64, plain_shortest_path(&small));
    assert_eq!(r, 6);
}

#[test]
fn repeated_runs_agree() {
    let g = grid_of(example_rows());
    let first = min_heat_loss(&g, Config::extended());
    let second = min_heat_loss(&g, Config::extended());
    assert_eq!(first, second);
    assert_eq!(part_one(EXAMPLE), part_one(EXAMPLE));
}

#[test]
fn single_cell_costs_nothing() {
    let g = grid_of(vec![vec![7]]);
    for cfg in [Config::basic(), Config::extended(), Config { max_run: 1, min_run_before_turn: 1 }] {
        assert_eq!(min_heat_loss(&g, cfg), Ok(Some(0)));
    }
    assert_eq!(part_one("7"), Some(0));
    assert_eq!(part_two("7\n"), Some(0));
}

#[test]
fn barrier_gives_no_path() {
    let wall = u32::MAX;
    let rows = vec![
        vec![1, 1, 1, 1, 1],
        vec![1, 1, 1, 1, 1],
        vec![wall, wall, wall, wall, wall],
        vec![1, 1, 1, 1, 1],
        vec![1, 1, 1, 1, 1],
    ];
    assert_eq!(min_heat_loss(&grid_of(rows), Config::extended()), Ok(None));
}

#[test]
fn no_legal_route_gives_no_path() {
    assert_eq!(min_heat_loss(&grid_of(vec![vec![1, 1, 1]]), Config::extended()), Ok(None));
    assert_eq!(part_two("11\n11\n"), None);
    assert_eq!(part_one("11\n11\n"), Some(2));
}

#[test]
fn invalid_configurations_are_refused() {
    let g = grid_of(vec![vec![1, 2], vec![3, 4]]);
    let zero_min = Config { max_run: 3, min_run_before_turn: 0 };
    let min_above_max = Config { max_run: 3, min_run_before_turn: 4 };
    assert_eq!(min_heat_loss(&g, zero_min), Err(SearchError::InvalidConfiguration));
    assert_eq!(min_heat_loss(&g, min_above_max), Err(SearchError::InvalidConfiguration));
    assert!(!zero_min.is_valid());
    assert!(Config::extended().is_valid());
}

#[test]
fn invalid_grids_are_refused() {
    assert!(matches!(Grid::new(vec![]), Err(GridError::InvalidGrid)));
    assert!(matches!(Grid::new(vec![vec![]]), Err(GridError::InvalidGrid)));
    assert!(matches!(Grid::new(vec![vec![1, 2], vec![3]]), Err(GridError::InvalidGrid)));
    assert_eq!(part_one("12\n3\n"), None);
    assert_eq!(part_one(""), None);
    assert_eq!(part_one("12\n3x\n"), None);
}

#[test]
fn grid_lookups() {
    let g = grid_of(vec![vec![1, 2, 3], vec![4, 5, 6]]);
    assert_eq!(g.width(), 3);
    assert_eq!(g.height(), 2);
    assert_eq!(g.cost_at(2, 1), Ok(6));
    assert_eq!(g.cost_at(0, 1), Ok(4));
    assert_eq!(g.cost_at(3, 0), Err(GridError::OutOfBounds));
    assert_eq!(g.cost_at(0, 2), Err(GridError::OutOfBounds));
    assert!(g.in_bounds(2, 1));
    assert!(!g.in_bounds(2, 2));
}

#[test]
fn parsing_digit_rows() {
    assert_eq!(parse_digit_grid("12\n34\n"), Some(vec![vec![1, 2], vec![3, 4]]));
    assert_eq!(parse_digit_grid("12\n\n34"), Some(vec![vec![1, 2], vec![], vec![3, 4]]));
    assert_eq!(parse_digit_grid(""), Some(vec![]));
    assert_eq!(parse_digit_grid("1 2"), None);
}

#[test]
fn custom_limits_through_text() {
    assert_eq!(solve_with("19\n11\n", Config { max_run: 1, min_run_before_turn: 1 }), Some(2));
    assert_eq!(solve_with("111\n991\n991\n", Config { max_run: 2, min_run_before_turn: 2 }), Some(4));
    assert_eq!(solve_with("111\n991\n", Config { max_run: 2, min_run_before_turn: 2 }), None);
}

#[test]
fn turns_are_perpendicular() {
    assert_eq!(Direction::North.flip(), [Direction::East, Direction::West]);
    assert_eq!(Direction::South.flip(), [Direction::East, Direction::West]);
    assert_eq!(Direction::East.flip(), [Direction::North, Direction::South]);
    assert_eq!(Direction::West.flip(), [Direction::North, Direction::South]);
}

#[test]
fn augmented_states_compare_by_all_fields() {
    let a = AugmentedState { x: 1, y: 2, dir: Direction::East, run: 1 };
    let b = AugmentedState { x: 1, y: 2, dir: Direction::East, run: 2 };
    assert_ne!(a, b);
    assert_eq!(a, AugmentedState { x: 1, y: 2, dir: Direction::East, run: 1 });
}
