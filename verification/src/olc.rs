//! The OLC Classic task: the longest path of six legs through the fixes of
//! a flight whose finish lies at most 1000 m below its start.

use vstd::prelude::*;
use crate::graph::{
    anchored_start, best_valid_of, ends_valid, free_start, graph_of, is_best_valid,
    lemma_total_bounds_route, lemma_trail_is_route, lemma_trail_repeats_only_start,
    lemma_trail_scores_total, route_score, solves, total, trail, Graph, GraphCell, LEGS,
};
use crate::matrix::{
    distance_matrix, half_dist_matrix, is_route, is_strict, lemma_path_length_bounds,
    path_length, repeats_only_start, well_formed,
};
use crate::point::{keeps_altitude_rule, Point};

verus! {

/// The fixes of a task, by their indices in the flight, start first.
pub type Path = Vec<usize>;

/// A task and what it scores.
#[derive(Clone, Debug)]
pub struct OptimizationResult {
    /// The seven fixes of the task.
    pub path: Path,
    /// The length of the task, in the unit of the distance matrix.
    pub distance: i64,
}

/// What an `OptimizationResult` stands for: a path and a total.
pub struct Task {
    pub path: Seq<usize>,
    pub distance: int,
}

impl View for OptimizationResult {
    type V = Task;

    open spec fn view(&self) -> Task {
        Task { path: self.path@, distance: self.distance as int }
    }
}

/// Why a flight has no task.
#[derive(Clone, Copy, Debug, PartialEq, Eq, Structural)]
pub enum OptimizationError {
    /// The flight has fewer fixes than a task has.
    InsufficientFixes,
    /// All fixes of the flight lie at one position.
    DegenerateInput,
}

/// A task over `n` fixes: seven of them, in the order of the flight.
pub open spec fn is_task(p: Seq<usize>, n: int) -> bool {
    p.len() == LEGS + 1 && is_route(p, n)
}

/// `path` is a task that keeps the altitude rule, `distance` is its length
/// in the matrix `m`, and no task that keeps the rule is longer.
pub open spec fn is_optimal(
    m: Seq<Seq<u64>>,
    points: Seq<Point>,
    path: Seq<usize>,
    distance: int,
) -> bool {
    &&& is_task(path, points.len() as int)
    &&& keeps_altitude_rule(points, path)
    &&& distance == path_length(m, path)
    &&& forall|p: Seq<usize>|
        is_task(p, points.len() as int) && keeps_altitude_rule(points, p)
            ==> #[trigger] path_length(m, p) <= distance
}

/// No task that finishes at fix `j` and keeps the altitude rule is longer
/// than `d`.
pub open spec fn settled(m: Seq<Seq<u64>>, points: Seq<Point>, j: int, d: int) -> bool {
    forall|p: Seq<usize>|
        is_task(p, points.len() as int) && p.last() == j && keeps_altitude_rule(points, p)
            ==> #[trigger] path_length(m, p) <= d
}

/// A finish that may end a task longer than the best one known, with the
/// bound on the length of such a task.
#[derive(Clone, Copy, Debug, PartialEq, Eq, Structural)]
pub struct FinishCandidate {
    /// No task that finishes here is longer than this.
    pub bound: i64,
    /// The fix at which the task would finish.
    pub finish_index: usize,
}

/// The fix `j` is the finish of a candidate in the list.
pub open spec fn listed(c: Seq<FinishCandidate>, j: int) -> bool {
    exists|t: int| 0 <= t < c.len() && (#[trigger] c[t]).finish_index == j
}

/// The order of a candidate list: by bound, and for one bound by fix.
pub open spec fn precedes(a: FinishCandidate, b: FinishCandidate) -> bool {
    a.bound < b.bound || (a.bound == b.bound && a.finish_index < b.finish_index)
}

/// The candidates of a list come in ascending order.
pub open spec fn is_ascending(c: Seq<FinishCandidate>) -> bool {
    forall|a: int, b: int| 0 <= a < b < c.len() ==> precedes(c[a], c[b])
}

/// `c` lists the cells of `layer` whose total is above `threshold`, and no
/// others, in ascending order.
pub open spec fn is_candidate_list(
    c: Seq<FinishCandidate>,
    layer: Seq<GraphCell>,
    threshold: int,
) -> bool {
    &&& forall|t: int|
        0 <= t < c.len() ==> {
            let e = #[trigger] c[t];
            &&& e.finish_index < layer.len()
            &&& e.bound == layer[e.finish_index as int].distance
            &&& e.bound > threshold
        }
    &&& forall|j: int|
        0 <= j < layer.len() && (#[trigger] layer[j]).distance > threshold ==> listed(c, j)
    &&& is_ascending(c)
}

/// The list of the cells of `layer` whose total is above `threshold`.
pub open spec fn candidates_of(layer: Seq<GraphCell>, threshold: int) -> Seq<FinishCandidate> {
    choose|c: Seq<FinishCandidate>| is_candidate_list(c, layer, threshold)
}

/// Two ascending lists of the same candidates are one list.
proof fn lemma_ascending_lists_agree(a: Seq<FinishCandidate>, b: Seq<FinishCandidate>)
    requires
        is_ascending(a),
        is_ascending(b),
        forall|t: int| 0 <= t < a.len() ==> b.contains(#[trigger] a[t]),
        forall|t: int| 0 <= t < b.len() ==> a.contains(#[trigger] b[t]),
    ensures
        a == b,
    decreases a.len(),
{
    if a.len() == 0 {
        if b.len() > 0 {
            assert(a.contains(b[0]));
        }
        assert(a =~= b);
    } else if b.len() == 0 {
        assert(b.contains(a[0]));
    } else {
        let x = a.last();
        let y = b.last();
        assert(b.contains(x));
        assert(a.contains(y));
        let u = choose|u: int| 0 <= u < b.len() && b[u] == x;
        let t = choose|t: int| 0 <= t < a.len() && a[t] == y;
        if u < b.len() - 1 {
            assert(precedes(b[u], b[b.len() - 1]));
            if t < a.len() - 1 {
                assert(precedes(a[t], a[a.len() - 1]));
            }
        }
        assert(x == y);
        let short_a = a.drop_last();
        let short_b = b.drop_last();
        assert forall|i: int| 0 <= i < short_a.len() implies short_b.contains(
            #[trigger] short_a[i],
        ) by {
            assert(b.contains(a[i]));
            let w = choose|w: int| 0 <= w < b.len() && b[w] == a[i];
            assert(precedes(a[i], a[a.len() - 1]));
            assert(short_b[w] == a[i]);
        }
        assert forall|i: int| 0 <= i < short_b.len() implies short_a.contains(
            #[trigger] short_b[i],
        ) by {
            assert(a.contains(b[i]));
            let w = choose|w: int| 0 <= w < a.len() && a[w] == b[i];
            assert(precedes(b[i], b[b.len() - 1]));
            assert(short_a[w] == b[i]);
        }
        lemma_ascending_lists_agree(short_a, short_b);
        assert(a =~= short_a.push(x));
        assert(b =~= short_b.push(y));
    }
}

/// A layer has one candidate list only for a threshold.
pub proof fn lemma_candidates_unique(
    c: Seq<FinishCandidate>,
    layer: Seq<GraphCell>,
    threshold: int,
)
    requires
        is_candidate_list(c, layer, threshold),
    ensures
        c == candidates_of(layer, threshold),
{
    let o = candidates_of(layer, threshold);
    assert forall|t: int| 0 <= t < c.len() implies o.contains(#[trigger] c[t]) by {
        let j = c[t].finish_index as int;
        assert(layer[j].distance > threshold);
        assert(listed(o, j));
        let u = choose|u: int| 0 <= u < o.len() && (#[trigger] o[u]).finish_index == j;
        assert(o[u] == c[t]);
    }
    assert forall|t: int| 0 <= t < o.len() implies c.contains(#[trigger] o[t]) by {
        let j = o[t].finish_index as int;
        assert(layer[j].distance > threshold);
        assert(listed(c, j));
        let u = choose|u: int| 0 <= u < c.len() && (#[trigger] c[u]).finish_index == j;
        assert(c[u] == o[t]);
    }
    lemma_ascending_lists_agree(c, o);
}

/// What the search returns when `best` is the best task known and the
/// finishes of `c` are still to be examined, the last of the list first.
///
/// A candidate whose bound is not above the best length known is passed
/// over. For any other the graph of its finish is searched, and its best
/// task that keeps the rule replaces the best known if it is longer.
pub open spec fn refine(
    m: Seq<Seq<u64>>,
    points: Seq<Point>,
    best: Task,
    c: Seq<FinishCandidate>,
) -> Task
    decreases c.len(),
{
    if c.len() == 0 {
        best
    } else {
        let next = c.last();
        let rest = c.drop_last();
        if next.bound <= best.distance {
            refine(m, points, best, rest)
        } else {
            let found = best_valid_of(
                graph_of(m, anchored_start(points, next.finish_index as int)),
                (next.finish_index + 1) as nat,
                points,
            );
            if found.distance > best.distance {
                refine(m, points, found, rest)
            } else {
                refine(m, points, best, rest)
            }
        }
    }
}

/// The task that the search returns for the matrix `m` and the fixes
/// `points`.
pub open spec fn best_task(m: Seq<Seq<u64>>, points: Seq<Point>) -> Task {
    let g = graph_of(m, free_start(points.len()));
    let first = best_valid_of(g, points.len(), points);
    refine(m, points, first, candidates_of(g[LEGS - 1], first.distance))
}

/// What `optimize` returns for a flight: one value for every sequence of
/// fixes.
pub open spec fn optimum(points: Seq<Point>) -> Result<Task, OptimizationError> {
    if points.len() < LEGS + 1 {
        Err(OptimizationError::InsufficientFixes)
    } else if same_position(points) {
        Err(OptimizationError::DegenerateInput)
    } else {
        Ok(best_task(distance_matrix(points), points))
    }
}

/// The candidates at the head of a list whose bounds are not above the best
/// length known change nothing.
proof fn lemma_low_candidates_are_skipped(
    m: Seq<Seq<u64>>,
    points: Seq<Point>,
    best: Task,
    c: Seq<FinishCandidate>,
    k: int,
)
    requires
        0 <= k <= c.len(),
        forall|t: int| 0 <= t < k ==> (#[trigger] c[t]).bound <= best.distance,
    ensures
        refine(m, points, best, c) == refine(m, points, best, c.skip(k)),
    decreases c.len(),
{
    if c.len() == 0 {
        assert(c.skip(k) =~= c);
    } else if c.len() == k {
        let rest = c.drop_last();
        lemma_low_candidates_are_skipped(m, points, best, rest, k - 1);
        assert(rest.skip(k - 1) =~= c.skip(k));
        assert(c.skip(k).len() == 0);
    } else {
        let next = c.last();
        let rest = c.drop_last();
        assert(c.skip(k).last() == next);
        assert(c.skip(k).drop_last() =~= rest.skip(k));
        if next.bound <= best.distance {
            lemma_low_candidates_are_skipped(m, points, best, rest, k);
        } else {
            let found = best_valid_of(
                graph_of(m, anchored_start(points, next.finish_index as int)),
                (next.finish_index + 1) as nat,
                points,
            );
            if found.distance > best.distance {
                lemma_low_candidates_are_skipped(m, points, found, rest, k);
            } else {
                lemma_low_candidates_are_skipped(m, points, best, rest, k);
            }
        }
    }
}

/// Lists the finishes of a layer whose total is above `threshold`, those
/// with the highest total last.
pub fn finish_candidates(layer: &[GraphCell], threshold: i64) -> (candidates: Vec<
    FinishCandidate,
>)
    ensures
        is_candidate_list(candidates@, layer@, threshold as int),
        candidates@ == candidates_of(layer@, threshold as int),
{
    let n = layer.len();
    let mut candidates: Vec<FinishCandidate> = Vec::new();
    let mut j: usize = 0;
    while j < n
        invariant
            n == layer.len(),
            j <= n,
            is_candidate_list(candidates@, layer@.subrange(0, j as int), threshold as int),
        decreases n - j,
    {
        let ghost before = candidates@;
        if layer[j].distance > threshold {
            let entry = FinishCandidate { bound: layer[j].distance, finish_index: j };
            let mut at: usize = candidates.len();
            while at > 0 && candidates[at - 1].bound > entry.bound
                invariant
                    at <= candidates.len(),
                    forall|t: int| at <= t < candidates.len() ==> candidates[t].bound > entry.bound,
                decreases at,
            {
                at -= 1;
            }
            candidates.insert(at, entry);
            proof {
                let after = candidates@;
                assert(after == before.insert(at as int, entry));
                assert forall|a: int, b: int| 0 <= a < b < after.len() implies precedes(
                    after[a],
                    after[b],
                ) by {
                    if a < at && b > at {
                        assert(precedes(before[a], before[b - 1]));
                    } else if a < at && b == at {
                        if at > 0 {
                            assert(a == at - 1 || precedes(before[a], before[at - 1]));
                        }
                    } else if a < at {
                        assert(precedes(before[a], before[b]));
                    } else if a == at {
                        assert(after[b] == before[b - 1]);
                    } else {
                        assert(precedes(before[a - 1], before[b - 1]));
                    }
                }
                assert forall|i: int|
                    0 <= i < j + 1 && (#[trigger] layer@.subrange(0, j + 1)[i]).distance
                        > threshold implies listed(after, i) by {
                    if i < j {
                        assert(layer@.subrange(0, j as int)[i].distance > threshold);
                        let t = choose|t: int|
                            0 <= t < before.len() && (#[trigger] before[t]).finish_index == i;
                        if t < at {
                            assert(after[t].finish_index == i);
                        } else {
                            assert(after[t + 1].finish_index == i);
                        }
                    } else {
                        assert(after[at as int].finish_index == i);
                    }
                }
            }
        } else {
            proof {
                assert forall|i: int|
                    0 <= i < j + 1 && (#[trigger] layer@.subrange(0, j + 1)[i]).distance
                        > threshold implies listed(before, i) by {
                    assert(layer@.subrange(0, j as int)[i].distance > threshold);
                }
            }
        }
        j += 1;
    }
    proof {
        assert(layer@.subrange(0, n as int) =~= layer@);
        lemma_candidates_unique(candidates@, layer@, threshold as int);
    }
    candidates
}

/// Drops from an ascending list the candidates whose bound is not above
/// `threshold`, and returns how many they were.
pub fn retain_above(candidates: &mut Vec<FinishCandidate>, threshold: i64) -> (dropped: usize)
    requires
        is_ascending(old(candidates)@),
    ensures
        dropped <= old(candidates)@.len(),
        final(candidates)@ == old(candidates)@.subrange(
            dropped as int,
            old(candidates)@.len() as int,
        ),
        forall|t: int| 0 <= t < dropped ==> (#[trigger] old(candidates)@[t]).bound <= threshold,
        forall|t: int|
            dropped <= t < old(candidates)@.len() ==> (#[trigger] old(candidates)@[t]).bound
                > threshold,
{
    let mut cut: usize = 0;
    while cut < candidates.len() && candidates[cut].bound <= threshold
        invariant
            cut <= candidates.len(),
            candidates@ == old(candidates)@,
            forall|t: int| 0 <= t < cut ==> (#[trigger] candidates@[t]).bound <= threshold,
        decreases candidates.len() - cut,
    {
        cut += 1;
    }
    proof {
        assert forall|t: int| cut <= t < candidates.len() implies (#[trigger] candidates@[t]).bound
            > threshold by {
            if cut < t {
                assert(precedes(candidates@[cut as int], candidates@[t]));
            }
        }
    }
    let kept = candidates.split_off(cut);
    *candidates = kept;
    cut
}

/// A path that leaves its first fix with its first leg, and from then on
/// moves on with every leg, moves on with every leg.
pub proof fn lemma_strict_unless_start_repeats(p: Seq<usize>, n: int)
    requires
        is_route(p, n),
        repeats_only_start(p),
        p.len() >= 2,
        p[0] != p[1],
    ensures
        is_strict(p),
{
    assert forall|a: int, b: int| 0 <= a < b < p.len() implies p[a] < p[b] by {
        assert(p[0] <= p[1] <= p[b]);
        assert((#[trigger] p[a]) < (#[trigger] p[b]) || p[b] == p[0]);
    }
}

/// No task that moves on with every leg and keeps the altitude rule is
/// longer than an optimal task.
pub proof fn lemma_optimal_bounds_strict_tasks(
    m: Seq<Seq<u64>>,
    points: Seq<Point>,
    best: Task,
    p: Seq<usize>,
)
    requires
        is_optimal(m, points, best.path, best.distance),
        is_task(p, points.len() as int),
        is_strict(p),
        keeps_altitude_rule(points, p),
    ensures
        path_length(m, p) <= best.distance,
{
}

/// Where no task that repeats a fix is longer than the longest task `q`
/// that moves on with every leg, an optimal task is as long as `q`: the
/// search gives what trying all strictly ascending tasks gives.
pub proof fn lemma_optimal_equals_best_strict_task(
    m: Seq<Seq<u64>>,
    points: Seq<Point>,
    best: Task,
    q: Seq<usize>,
)
    requires
        is_optimal(m, points, best.path, best.distance),
        is_task(q, points.len() as int),
        is_strict(q),
        keeps_altitude_rule(points, q),
        forall|p: Seq<usize>|
            is_task(p, points.len() as int) && keeps_altitude_rule(points, p)
                ==> #[trigger] path_length(m, p) <= path_length(m, q),
    ensures
        best.distance == path_length(m, q),
{
}

/// The fix `j` needs no further search: it is the finish of a candidate in
/// the list, or no task that finishes there and keeps the rule is longer
/// than `d`.
pub open spec fn accounted(
    c: Seq<FinishCandidate>,
    m: Seq<Seq<u64>>,
    points: Seq<Point>,
    j: int,
    d: int,
) -> bool {
    listed(c, j) || settled(m, points, j, d)
}

/// All fixes lie at the position of the first.
pub open spec fn same_position(points: Seq<Point>) -> bool {
    forall|i: int|
        0 <= i < points.len() ==> (#[trigger] points[i]).x == points[0].x && points[i].y
            == points[0].y
}

/// A fix whose bound in the graph of all paths is not above `d` is settled
/// at `d`.
proof fn lemma_bound_settles(
    g: Seq<Seq<GraphCell>>,
    m: Seq<Seq<u64>>,
    points: Seq<Point>,
    j: int,
    d: int,
)
    requires
        solves(g, m, free_start(points.len())),
        0 <= j < points.len(),
        g[LEGS - 1][j].distance <= d,
    ensures
        settled(m, points, j, d),
{
    let start = free_start(points.len());
    assert forall|p: Seq<usize>|
        is_task(p, points.len() as int) && p.last() == j && keeps_altitude_rule(
            points,
            p,
        ) implies #[trigger] path_length(m, p) <= d by {
        lemma_total_bounds_route(g, m, start, p);
        assert(route_score(m, start, p) == path_length(m, p));
        assert(total(g, start, p.len() - 1, p.last() as int) == g[LEGS - 1][j].distance);
    }
}

/// The best task of the graph for the finish `f` that keeps the rule is at
/// least as long as any task that finishes at `f` and keeps the rule.
proof fn lemma_anchor_settles(
    a: Seq<Seq<GraphCell>>,
    m: Seq<Seq<u64>>,
    points: Seq<Point>,
    f: usize,
    found: Seq<usize>,
    distance: int,
)
    requires
        well_formed(m),
        m.len() == points.len(),
        f < points.len(),
        solves(a, m, anchored_start(points, f as int)),
        is_best_valid(a, (f + 1) as nat, points, found, distance),
    ensures
        settled(m, points, f as int, distance),
{
    let start = anchored_start(points, f as int);
    assert forall|p: Seq<usize>|
        is_task(p, points.len() as int) && p.last() == f && keeps_altitude_rule(
            points,
            p,
        ) implies #[trigger] path_length(m, p) <= distance by {
        assert forall|i: int| 0 <= i < p.len() implies (#[trigger] p[i]) < f + 1 by {
            assert(p[i] <= p[p.len() - 1]);
        }
        assert(is_route(p, start.len() as int));
        lemma_total_bounds_route(a, m, start, p);
        assert(start[p[0] as int] == 0);
        lemma_path_length_bounds(m, p);
        let t = trail(a, LEGS as nat, f);
        lemma_trail_is_route(a, start.len(), LEGS as nat, f);
        lemma_trail_scores_total(a, m, start, LEGS as nat, f);
        lemma_path_length_bounds(m, t);
        assert(route_score(m, start, t) >= 0);
        assert(start[t[0] as int] == 0);
        assert(ends_valid(a, points, f));
    }
}

/// A task that the graph for the finish `f` points out, that keeps the
/// rule and whose total is not negative, lost nothing at its start: its
/// total is its length.
proof fn lemma_found_is_task(
    a: Seq<Seq<GraphCell>>,
    m: Seq<Seq<u64>>,
    points: Seq<Point>,
    f: usize,
    found: Seq<usize>,
    distance: int,
)
    requires
        well_formed(m),
        m.len() == points.len(),
        f < points.len(),
        solves(a, m, anchored_start(points, f as int)),
        is_best_valid(a, (f + 1) as nat, points, found, distance),
        distance >= 0,
    ensures
        is_task(found, points.len() as int),
        keeps_altitude_rule(points, found),
        repeats_only_start(found),
        distance == path_length(m, found),
{
    let start = anchored_start(points, f as int);
    let j = found.last();
    lemma_trail_repeats_only_start(a, m, start, LEGS as nat, j);
    lemma_trail_is_route(a, start.len(), LEGS as nat, j);
    lemma_trail_scores_total(a, m, start, LEGS as nat, j);
    lemma_path_length_bounds(m, found);
    assert(found[0] < start.len());
}

/// Finds the longest task through the fixes of `route` that keeps the
/// altitude rule, with the distances of `matrix`.
///
/// The graph of all paths gives the best task that keeps the rule among
/// those that it points out, and for every finish a bound on the tasks that
/// end there. Each finish whose bound is above the best length known is
/// then searched on its own, the one with the highest bound first.
pub fn optimize_with_matrix(route: &[Point], matrix: &[Vec<u64>]) -> (best:
    OptimizationResult)
    requires
        well_formed(matrix.deep_view()),
        matrix.len() == route.len(),
        route.len() >= LEGS + 1,
    ensures
        is_optimal(matrix.deep_view(), route@, best.path@, best.distance as int),
        repeats_only_start(best.path@),
        best@ == best_task(matrix.deep_view(), route@),
{
    let ghost m = matrix.deep_view();
    let ghost n = route.len();
    let ghost goal = best_task(m, route@);
    let graph = Graph::from_distance_matrix(matrix);
    assert(graph.width() == n);
    let mut best = graph.find_best_valid_solution(route);
    assert(graph@[LEGS - 1] == graph.g[LEGS - 1]@);
    let mut candidates = finish_candidates(&graph.g[LEGS - 1], best.distance);
    proof {
        lemma_path_length_bounds(m, best.path@);
        lemma_trail_repeats_only_start(
            graph@,
            m,
            free_start(n as nat),
            LEGS as nat,
            best.path@.last(),
        );
        assert forall|j: int| 0 <= j < n implies #[trigger] accounted(
            candidates@,
            m,
            route@,
            j,
            best.distance as int,
        ) by {
            if graph@[LEGS - 1][j].distance <= best.distance {
                lemma_bound_settles(graph@, m, route@, j, best.distance as int);
            } else {
                assert(graph.g[LEGS - 1]@[j].distance > best.distance);
            }
        }
    }
    while candidates.len() > 0
        invariant
            m == matrix.deep_view(),
            well_formed(m),
            n == route.len(),
            matrix.len() == n,
            solves(graph@, m, free_start(n as nat)),
            is_task(best.path@, n as int),
            keeps_altitude_rule(route@, best.path@),
            repeats_only_start(best.path@),
            best.distance == path_length(m, best.path@),
            best.distance >= 0,
            goal == refine(m, route@, best@, candidates@),
            forall|t: int|
                0 <= t < candidates.len() ==> (#[trigger] candidates[t]).bound > best.distance,
            is_ascending(candidates@),
            forall|t: int|
                0 <= t < candidates.len() ==> {
                    let e = #[trigger] candidates[t];
                    &&& e.finish_index < n
                    &&& e.bound == graph@[LEGS - 1][e.finish_index as int].distance
                },
            forall|j: int|
                0 <= j < n ==> #[trigger] accounted(
                    candidates@,
                    m,
                    route@,
                    j,
                    best.distance as int,
                ),
        decreases candidates.len(),
    {
        let ghost listing = candidates@;
        let ghost was = best.distance;
        let candidate = candidates.pop().unwrap();
        let ghost popped = candidates@;
        let finish = candidate.finish_index;
        let candidate_graph = Graph::for_finish_index(finish, matrix, route);
        assert(candidate_graph.width() == finish + 1);
        let found = candidate_graph.find_best_valid_solution(route);
        proof {
            lemma_anchor_settles(
                candidate_graph@,
                m,
                route@,
                finish,
                found.path@,
                found.distance as int,
            );
        }
        let ghost reach = found.distance;
        let mut dropped: usize = 0;
        if found.distance > best.distance {
            proof {
                lemma_found_is_task(
                    candidate_graph@,
                    m,
                    route@,
                    finish,
                    found.path@,
                    found.distance as int,
                );
            }
            best = found;
            dropped = retain_above(&mut candidates, best.distance);
        }
        proof {
            let now = best.distance as int;
            assert(now >= was && now >= reach);
            assert(candidates@ == popped.subrange(dropped as int, popped.len() as int));
            assert(popped == listing.drop_last());
            assert(candidates@ =~= popped.skip(dropped as int));
            lemma_low_candidates_are_skipped(m, route@, best@, popped, dropped as int);
            assert forall|j: int| 0 <= j < n implies #[trigger] accounted(
                candidates@,
                m,
                route@,
                j,
                now,
            ) by {
                assert(accounted(listing, m, route@, j, was as int));
                if listed(listing, j) {
                    let t = choose|t: int|
                        0 <= t < listing.len() && (#[trigger] listing[t]).finish_index == j;
                    if t == listing.len() - 1 {
                        assert(settled(m, route@, j, reach as int));
                    } else if t < dropped {
                        assert(popped[t] == listing[t]);
                        lemma_bound_settles(graph@, m, route@, j, now);
                    } else {
                        assert(candidates@[t - dropped] == listing[t]);
                    }
                }
            }
        }
    }
    proof {
        assert forall|p: Seq<usize>|
            is_task(p, n as int) && keeps_altitude_rule(route@, p) implies #[trigger] path_length(
            m,
            p,
        ) <= best.distance by {
            assert(accounted(candidates@, m, route@, p.last() as int, best.distance as int));
        }
    }
    best
}

/// Tells whether all fixes lie at one position.
fn at_one_position(route: &[Point]) -> (same: bool)
    ensures
        same == same_position(route@),
{
    let mut i: usize = 1;
    while i < route.len()
        invariant
            forall|t: int|
                0 <= t < i && t < route.len() ==> (#[trigger] route[t]).x == route[0].x
                    && route[t].y == route[0].y,
        decreases route.len() - i,
    {
        if route[i].x != route[0].x || route[i].y != route[0].y {
            return false;
        }
        i += 1;
    }
    true
}

/// Finds the longest task through the fixes of a flight that keeps the
/// altitude rule, by the planar distances between the fixes.
///
/// A flight of fewer than seven fixes has no task, and neither has one
/// whose fixes all lie at one position.
pub fn optimize(route: &[Point]) -> (result: Result<OptimizationResult, OptimizationError>)
    ensures
        match result {
            Ok(best) => {
                &&& route.len() >= LEGS + 1
                &&& !same_position(route@)
                &&& is_optimal(distance_matrix(route@), route@, best.path@, best.distance as int)
                &&& repeats_only_start(best.path@)
            },
            Err(OptimizationError::InsufficientFixes) => route.len() < LEGS + 1,
            Err(OptimizationError::DegenerateInput) => {
                route.len() >= LEGS + 1 && same_position(route@)
            },
        },
        optimum(route@) == match result {
            Ok(best) => Ok::<Task, OptimizationError>(best@),
            Err(error) => Err::<Task, OptimizationError>(error),
        },
{
    if route.len() < LEGS + 1 {
        return Err(OptimizationError::InsufficientFixes);
    }
    if at_one_position(route) {
        return Err(OptimizationError::DegenerateInput);
    }
    let matrix = half_dist_matrix(route);
    Ok(optimize_with_matrix(route, &matrix))
}

} // verus!
