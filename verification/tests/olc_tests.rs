use aeroscore::graph::{Graph, GraphCell, LEGS, PENALTY};
use aeroscore::matrix::{half_dist_matrix, is_well_formed};
use aeroscore::olc::{
    finish_candidates, optimize, optimize_with_matrix, retain_above, FinishCandidate,
    OptimizationError, OptimizationResult,
};
use aeroscore::point::{validate, Point};

fn fix(x: i32, y: i32, altitude: i16) -> Point {
    Point { x, y, altitude }
}

fn leg(matrix: &Vec<Vec<u64>>, from: usize, to: usize) -> i64 {
    matrix[from][to - from] as i64
}

fn length(matrix: &Vec<Vec<u64>>, path: &[usize]) -> i64 {
    let mut sum = 0;
    for k in 1..path.len() {
        sum += leg(matrix, path[k - 1], path[k]);
    }
    sum
}

/// The longest task that keeps the altitude rule, by trying all of them.
fn brute_force(route: &Vec<Point>) -> i64 {
    let matrix = half_dist_matrix(route);
    let n = route.len();
    let mut best = -1;
    let mut p = [0usize; 7];
    fn walk(
        route: &Vec<Point>,
        matrix: &Vec<Vec<u64>>,
        n: usize,
        p: &mut [usize; 7],
        k: usize,
        sum: i64,
        best: &mut i64,
    ) {
        if k == 7 {
            let loss = route[p[0]].altitude as i32 - route[p[6]].altitude as i32;
            if loss <= 1000 && sum > *best {
                *best = sum;
            }
            return;
        }
        let from = if k == 0 { 0 } else { p[k - 1] };
        for j in from..n {
            p[k] = j;
            let step = if k == 0 { 0 } else { matrix[from][j - from] as i64 };
            walk(route, matrix, n, p, k + 1, sum + step, best);
        }
    }
    walk(route, &matrix, n, &mut p, 0, 0, &mut best);
    best
}

/// The longest task that keeps the altitude rule, by a search of its own
/// for every start.
fn start_by_start(route: &Vec<Point>) -> i64 {
    let matrix = half_dist_matrix(route);
    let n = route.len();
    let mut best = -1;
    for start in 0..n {
        let mut totals: Vec<i64> = (0..n)
            .map(|j| if j >= start { leg(&matrix, start, j) } else { -1 })
            .collect();
        for _ in 1..6 {
            let mut next = vec![-1; n];
            for j in start..n {
                for i in start..=j {
                    next[j] = next[j].max(totals[i] + leg(&matrix, i, j));
                }
            }
            totals = next;
        }
        for finish in start..n {
            let loss = route[start].altitude as i32 - route[finish].altitude as i32;
            if loss <= 1000 {
                best = best.max(totals[finish]);
            }
        }
    }
    best
}

/// A flight that wanders and sinks, with a climb now and then.
fn wandering(n: usize, seed: u64) -> Vec<Point> {
    let mut state = seed;
    let mut next = move || {
        state = state.wrapping_mul(6364136223846793005).wrapping_add(1442695040888963407);
        (state >> 33) as i32
    };
    let (mut x, mut y, mut altitude) = (0i32, 0i32, 3000i32);
    let mut route = Vec::new();
    for _ in 0..n {
        x += next() % 4000 - 1000;
        y += next() % 3000 - 1500;
        altitude += next() % 160 - 100;
        if altitude < 200 {
            altitude += 1500;
        }
        route.push(fix(x, y, altitude as i16));
    }
    route
}

/// The longest task that keeps the altitude rule among those that move on
/// with every leg, if there is one.
fn brute_force_strict(route: &Vec<Point>) -> Option<i64> {
    let matrix = half_dist_matrix(route);
    let n = route.len();
    let mut best = None;
    let mut p = [0usize; 7];
    fn walk(
        route: &Vec<Point>,
        matrix: &Vec<Vec<u64>>,
        n: usize,
        p: &mut [usize; 7],
        k: usize,
        best: &mut Option<i64>,
    ) {
        if k == 7 {
            let loss = route[p[0]].altitude as i32 - route[p[6]].altitude as i32;
            let sum = length(matrix, &p[..]);
            if loss <= 1000 && best.map_or(true, |known| sum > known) {
                *best = Some(sum);
            }
            return;
        }
        let from = if k == 0 { 0 } else { p[k - 1] + 1 };
        for j in from..n {
            p[k] = j;
            walk(route, matrix, n, p, k + 1, best);
        }
    }
    walk(route, &matrix, n, &mut p, 0, &mut best);
    best
}

fn is_strict(path: &[usize]) -> bool {
    path.windows(2).all(|pair| pair[0] < pair[1])
}

fn check_result(route: &Vec<Point>, result: &OptimizationResult) {
    let matrix = half_dist_matrix(route);
    assert_eq!(result.path.len(), 7);
    for k in 1..7 {
        assert!(result.path[k - 1] <= result.path[k]);
        assert!(result.path[k - 1] < result.path[k] || result.path[k] == result.path[0]);
    }
    assert!(result.path[6] < route.len());
    let loss = route[result.path[0]].altitude as i32 - route[result.path[6]].altitude as i32;
    assert!(loss <= 1000);
    assert_eq!(result.distance, length(&matrix, &result.path));
}

fn scattered(n: usize, seed: u64, spread: i32, heights: i32) -> Vec<Point> {
    let mut state = seed;
    let mut next = move || {
        state = state.wrapping_mul(6364136223846793005).wrapping_add(1442695040888963407);
        (state >> 33) as i32
    };
    let mut route = Vec::new();
    for _ in 0..n {
        let x = next() % spread;
        let y = next() % spread;
        let altitude = (next() % heights) as i16;
        route.push(fix(x, y, altitude));
    }
    route
}

#[test]
fn seven_fixes_on_a_meridian() {
    let route: Vec<Point> = (0..7).map(|k| fix(0, 1000 * k, 500)).collect();
    let result = optimize(&route).unwrap();
    assert_eq!(result.path, vec![0, 1, 2, 3, 4, 5, 6]);
    assert_eq!(result.distance, 6000);
}

fn laps(corners: [(i32, i32); 3], count: i16) -> Vec<Point> {
    let mut route = Vec::new();
    for lap in 0..count {
        for &(x, y) in corners.iter() {
            route.push(fix(x, y, 800 + lap));
        }
    }
    route.push(fix(corners[0].0, corners[0].1, 800));
    route
}

#[test]
fn triangle_flown_twice() {
    // Sides of 2000, 1999 and 1999 units: the task goes round twice.
    let route = laps([(0, 0), (2000, 0), (1000, 1732)], 2);
    let result = optimize(&route).unwrap();
    check_result(&route, &result);
    assert_eq!(result.path, vec![0, 1, 2, 3, 4, 5, 6]);
    assert_eq!(result.distance, 2 * (2000 + 1999 + 1999));
    assert_eq!(result.distance, brute_force(&route));
}

#[test]
fn triangle_flown_three_times() {
    // With a third lap the longest side can be flown six times.
    let route = laps([(0, 0), (2000, 0), (1000, 1732)], 3);
    let result = optimize(&route).unwrap();
    check_result(&route, &result);
    assert_eq!(result.distance, 6 * 2000);
    assert_eq!(result.distance, brute_force(&route));
}

#[test]
fn long_sides_of_a_triangle_are_flown_again_and_again() {
    // Sides of 3000, 5000 and 4000 units: five times along the longest
    // side, and once along the next.
    let route = laps([(0, 0), (3000, 0), (0, 4000)], 3);
    let result = optimize(&route).unwrap();
    check_result(&route, &result);
    assert_eq!(result.distance, 5 * 5000 + 4000);
    assert_eq!(result.distance, brute_force(&route));
}

#[test]
fn matches_brute_force_on_scattered_flights() {
    for seed in 0..40u64 {
        let n = 7 + (seed as usize % 6);
        let route = scattered(n, seed + 1, 100_000, 3000);
        let result = optimize(&route).unwrap();
        check_result(&route, &result);
        assert_eq!(result.distance, brute_force(&route), "seed {}", seed);
    }
}

#[test]
fn matches_brute_force_over_strictly_ascending_tasks() {
    let mut strict = 0;
    for seed in 0..40u64 {
        let n = 7 + (seed as usize % 6);
        let route = scattered(n, seed + 300, 100_000, 1200);
        let result = optimize(&route).unwrap();
        if let Some(longest) = brute_force_strict(&route) {
            assert!(result.distance >= longest, "seed {}", seed);
        }
        if is_strict(&result.path) {
            assert_eq!(Some(result.distance), brute_force_strict(&route), "seed {}", seed);
            strict += 1;
        }
    }
    assert!(strict >= 20);
}

#[test]
fn seven_fixes_with_a_start_too_high_have_no_strictly_ascending_task() {
    let mut route: Vec<Point> = (0..7).map(|k| fix(1000 * k, 30 * k * k, 0)).collect();
    route[0].altitude = 1001;
    assert_eq!(brute_force_strict(&route), None);
    let result = optimize(&route).unwrap();
    check_result(&route, &result);
    assert!(!is_strict(&result.path));
    assert_eq!(result.path, vec![1, 1, 2, 3, 4, 5, 6]);
    assert_eq!(result.distance, brute_force(&route));
}

#[test]
fn matches_brute_force_when_ties_abound() {
    for seed in 0..40u64 {
        let n = 7 + (seed as usize % 5);
        let route = scattered(n, seed + 100, 4, 2500);
        match optimize(&route) {
            Ok(result) => {
                check_result(&route, &result);
                assert_eq!(result.distance, brute_force(&route), "seed {}", seed);
            }
            Err(error) => assert_eq!(error, OptimizationError::DegenerateInput),
        }
    }
}

#[test]
fn matches_a_search_start_by_start() {
    for seed in 0..6u64 {
        let route = wandering(40 + 5 * seed as usize, seed + 11);
        let result = optimize(&route).unwrap();
        check_result(&route, &result);
        assert_eq!(result.distance, start_by_start(&route), "seed {}", seed);
    }
}

#[test]
fn a_flight_of_three_thousand_fixes() {
    let route = wandering(3000, 5);
    let result = optimize(&route).unwrap();
    check_result(&route, &result);
    for k in 1..7 {
        assert!(result.path[k - 1] < result.path[k]);
    }
}

#[test]
fn repeated_calls_agree() {
    let route = scattered(30, 7, 50_000, 2000);
    let first = optimize(&route).unwrap();
    let second = optimize(&route).unwrap();
    assert_eq!(first.path, second.path);
    assert_eq!(first.distance, second.distance);
}

#[test]
fn fewer_than_seven_fixes_are_refused() {
    let mut route = Vec::new();
    assert_eq!(optimize(&route).unwrap_err(), OptimizationError::InsufficientFixes);
    for k in 0..6 {
        route.push(fix(k, 2 * k, 0));
        assert_eq!(optimize(&route).unwrap_err(), OptimizationError::InsufficientFixes);
    }
    route.push(fix(6, 12, 0));
    assert!(optimize(&route).is_ok());
}

#[test]
fn fixes_at_one_position_are_refused() {
    let route: Vec<Point> = (0..9).map(|k| fix(5, -5, k)).collect();
    assert_eq!(optimize(&route).unwrap_err(), OptimizationError::DegenerateInput);
    let mut moved = route.clone();
    moved[8] = fix(5, -4, 8);
    assert!(optimize(&moved).is_ok());
}

#[test]
fn a_finish_far_below_the_start_is_not_taken() {
    // The straight flight loses 1001 m; the best task that keeps the rule
    // leaves the first fix out.
    let mut route: Vec<Point> = (0..7).map(|k| fix(1000 * k, 0, 0)).collect();
    route[0].altitude = 1001;
    let result = optimize(&route).unwrap();
    check_result(&route, &result);
    assert_eq!(result.distance, 5000);
    assert_eq!(result.path, vec![1, 1, 2, 3, 4, 5, 6]);

    route[0].altitude = 1000;
    let result = optimize(&route).unwrap();
    assert_eq!(result.distance, 6000);
    assert_eq!(result.path, vec![0, 1, 2, 3, 4, 5, 6]);
}

#[test]
fn a_high_start_is_traded_for_a_shorter_task() {
    // The first two fixes are too high for any finish after fix 3, and fix
    // 2 is too high for the last fix: the best task goes from fix 2 to
    // fix 6.
    let route = vec![
        fix(0, 0, 3000),
        fix(10, 0, 2500),
        fix(500, 0, 1200),
        fix(1000, 0, 2000),
        fix(1500, 0, 1000),
        fix(2000, 0, 900),
        fix(2500, 0, 800),
        fix(3000, 0, 100),
    ];
    let result = optimize(&route).unwrap();
    check_result(&route, &result);
    assert_eq!(result.distance, brute_force(&route));
    assert_eq!(result.distance, 2000);
    assert_eq!(result.path, vec![2, 2, 2, 3, 4, 5, 6]);
}

#[test]
fn the_search_accepts_a_matrix_of_its_own() {
    // Distances that no plane gives: only the legs 0-1, 1-2 and 2-3 count
    // for much.
    let route: Vec<Point> = (0..7).map(|k| fix(k, 0, 0)).collect();
    let matrix = vec![
        vec![0, 5, 1, 1, 0, 0, 0],
        vec![0, 7, 1, 0, 0, 0],
        vec![0, 2, 0, 0, 0],
        vec![0, 0, 0, 0],
        vec![0, 0, 0],
        vec![0, 0],
        vec![0],
    ];
    assert!(is_well_formed(&matrix));
    let result = optimize_with_matrix(&route, &matrix);
    assert_eq!(result.distance, 14);
    assert_eq!(result.path[6], 6);
    assert_eq!(length(&matrix, &result.path), 14);
}

#[test]
fn the_search_goes_on_where_the_first_graph_breaks_the_rule() {
    // The longest path starts at fix 0, which is too high for any finish
    // but itself and fix 1.
    let mut route: Vec<Point> = (0..7).map(|k| fix(0, 0, 0)).collect();
    route[0].altitude = 2000;
    route[1].altitude = 1500;
    let matrix = vec![
        vec![0, 3, 9, 9, 9, 9, 9],
        vec![0, 1, 1, 1, 1, 1],
        vec![0, 1, 1, 1, 1],
        vec![0, 1, 1, 1],
        vec![0, 1, 1],
        vec![0, 1],
        vec![0],
    ];
    assert!(is_well_formed(&matrix));
    let graph = Graph::from_distance_matrix(&matrix);
    assert_eq!(graph.g[5][6], GraphCell { prev_index: 5, distance: 13 });
    assert_eq!(graph.extract_path(6), vec![0, 0, 2, 3, 4, 5, 6]);
    let first = graph.find_best_valid_solution(&route);
    assert_eq!(first.path, vec![0, 0, 0, 0, 0, 0, 1]);
    assert_eq!(first.distance, 3);
    let result = optimize_with_matrix(&route, &matrix);
    assert_eq!(result.distance, 4);
    assert_eq!(result.path, vec![2, 2, 2, 3, 4, 5, 6]);
}

#[test]
fn graph_of_a_small_matrix() {
    let matrix = vec![vec![0, 3, 4], vec![0, 2], vec![0]];
    let graph = Graph::from_distance_matrix(&matrix);
    assert_eq!(graph.g.len(), LEGS);
    assert_eq!(graph.g[0], vec![
        GraphCell { prev_index: 0, distance: 0 },
        GraphCell { prev_index: 0, distance: 3 },
        GraphCell { prev_index: 0, distance: 4 },
    ]);
    assert_eq!(graph.g[1], vec![
        GraphCell { prev_index: 0, distance: 0 },
        GraphCell { prev_index: 0, distance: 3 },
        GraphCell { prev_index: 1, distance: 5 },
    ]);
    assert_eq!(graph.g[5][2], GraphCell { prev_index: 1, distance: 5 });
    assert_eq!(graph.g[4][1], GraphCell { prev_index: 0, distance: 3 });
    assert_eq!(graph.extract_path(2), vec![0, 0, 0, 0, 0, 1, 2]);
    assert_eq!(graph.extract_path(0), vec![0; 7]);
}

#[test]
fn the_latest_of_equal_predecessors_is_chosen() {
    let matrix = vec![vec![0, 1, 1], vec![0, 1], vec![0]];
    let graph = Graph::from_distance_matrix(&matrix);
    assert_eq!(graph.g[0][2], GraphCell { prev_index: 1, distance: 1 });
    assert_eq!(graph.g[0][0], GraphCell { prev_index: 0, distance: 0 });
}

#[test]
fn graph_for_a_finish_penalises_high_starts() {
    let route = vec![fix(0, 0, 2000), fix(3, 0, 900), fix(7, 0, 0), fix(9, 0, 0)];
    let matrix = half_dist_matrix(&route);
    let graph = Graph::for_finish_index(2, &matrix, &route);
    assert_eq!(graph.g.len(), LEGS);
    assert_eq!(graph.g[0].len(), 3);
    assert_eq!(graph.g[0][0], GraphCell { prev_index: 0, distance: -PENALTY });
    assert_eq!(graph.g[0][1], GraphCell { prev_index: 1, distance: 0 });
    assert_eq!(graph.g[0][2], GraphCell { prev_index: 1, distance: 4 });
    assert_eq!(graph.g[1][1], GraphCell { prev_index: 1, distance: 0 });
    assert_eq!(graph.g[5][2], GraphCell { prev_index: 1, distance: 4 });
    let best = graph.find_best_valid_solution(&route);
    assert_eq!(best.path, vec![1, 1, 1, 1, 1, 1, 2]);
    assert_eq!(best.distance, 4);
}

#[test]
fn best_valid_solution_skips_tasks_that_break_the_rule() {
    let route = vec![fix(0, 0, 2000), fix(3, 0, 1500), fix(7, 0, 0)];
    let matrix = half_dist_matrix(&route);
    let graph = Graph::from_distance_matrix(&matrix);
    // The tasks to fix 2 start at fix 0, which is too high.
    assert_eq!(graph.extract_path(2)[0], 0);
    let best = graph.find_best_valid_solution(&route);
    assert_eq!(best.path, vec![0, 0, 0, 0, 0, 0, 1]);
    assert_eq!(best.distance, 3);
}

#[test]
fn a_fix_follows_itself_only_where_nothing_earlier_is_as_good() {
    let matrix = vec![vec![0, 4, 4], vec![0, 0], vec![0]];
    let graph = Graph::from_distance_matrix(&matrix);
    // Two legs to fix 2: 0-0-2, 0-1-2 and 0-2-2 all give 4.
    assert_eq!(graph.g[1][2], GraphCell { prev_index: 1, distance: 4 });
    assert_eq!(graph.g[1][0], GraphCell { prev_index: 0, distance: 0 });
}

#[test]
fn candidates_come_in_ascending_order() {
    let layer = vec![
        GraphCell { prev_index: 0, distance: 9 },
        GraphCell { prev_index: 0, distance: 4 },
        GraphCell { prev_index: 0, distance: 7 },
        GraphCell { prev_index: 0, distance: 9 },
        GraphCell { prev_index: 0, distance: 5 },
    ];
    let list = finish_candidates(&layer, 4);
    assert_eq!(list, vec![
        FinishCandidate { bound: 5, finish_index: 4 },
        FinishCandidate { bound: 7, finish_index: 2 },
        FinishCandidate { bound: 9, finish_index: 0 },
        FinishCandidate { bound: 9, finish_index: 3 },
    ]);
    assert!(finish_candidates(&layer, 9).is_empty());
}

#[test]
fn retain_above_drops_the_low_bounds() {
    let mut list = vec![
        FinishCandidate { bound: 5, finish_index: 4 },
        FinishCandidate { bound: 7, finish_index: 2 },
        FinishCandidate { bound: 9, finish_index: 0 },
    ];
    assert_eq!(retain_above(&mut list, 4), 0);
    assert_eq!(list.len(), 3);
    assert_eq!(retain_above(&mut list, 7), 2);
    assert_eq!(list, vec![FinishCandidate { bound: 9, finish_index: 0 }]);
    assert_eq!(retain_above(&mut list, 9), 1);
    assert!(list.is_empty());
}

#[test]
fn no_path_is_longer_than_the_total_in_its_last_cell() {
    let route = scattered(9, 77, 1000, 100);
    let matrix = half_dist_matrix(&route);
    let graph = Graph::from_distance_matrix(&matrix);
    let n = route.len();
    let mut longest = vec![0i64; n];
    let mut p = [0usize; 7];
    fn walk(matrix: &Vec<Vec<u64>>, n: usize, p: &mut [usize; 7], k: usize, longest: &mut Vec<i64>) {
        if k == 7 {
            let sum = length(matrix, &p[..]);
            assert!(sum >= 0);
            if sum > longest[p[6]] {
                longest[p[6]] = sum;
            }
            return;
        }
        let from = if k == 0 { 0 } else { p[k - 1] };
        for j in from..n {
            p[k] = j;
            walk(matrix, n, p, k + 1, longest);
        }
    }
    walk(&matrix, n, &mut p, 0, &mut longest);
    for j in 0..n {
        assert_eq!(graph.g[5][j].distance, longest[j]);
        assert_eq!(length(&matrix, &graph.extract_path(j)), longest[j]);
    }
}

#[test]
fn validate_looks_at_start_and_finish_only() {
    let route = vec![fix(0, 0, 1500), fix(1, 0, -3000), fix(2, 0, 500), fix(3, 0, 499)];
    assert!(validate(&route, &[0, 1, 2]));
    assert!(!validate(&route, &[0, 1, 3]));
    assert!(validate(&route, &[1, 2, 3]));
    assert!(validate(&route, &[0]));
    assert!(validate(&route, &[3, 0]));
    assert!(!validate(&route, &[0, 1, 1, 1, 1, 1, 1]));
}

#[test]
fn the_graph_for_a_finish_covers_the_fixes_up_to_it() {
    let route = wandering(12, 3);
    let matrix = half_dist_matrix(&route);
    for finish in 0..route.len() {
        let graph = Graph::for_finish_index(finish, &matrix, &route);
        for layer in graph.g.iter() {
            assert_eq!(layer.len(), finish + 1);
        }
        let best = graph.find_best_valid_solution(&route);
        assert!(best.path[6] <= finish);
        assert!(best.distance >= 0);
        assert_eq!(best.distance, length(&matrix, &best.path));
    }
}
