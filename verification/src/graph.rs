//! The layered graph of best partial tasks.
//!
//! Layer `k` of a graph holds, for every fix `j`, the best total over all
//! paths of `k` legs that end at `j`, and the fix before `j` on one such
//! path. A layer is computed from the layer before it; the first from the
//! scores with which a path may start at each fix.
//!
//! A path may stay at a fix for a leg, which adds nothing to its length.
//! The cells prefer a leg from an earlier fix wherever one is as good, so
//! that a path stays nowhere but at its start (`lemma_trail_repeats_only_start`).
//!
//! A graph is fixed by its matrix and start scores (`lemma_solution_unique`).
//! Its totals are the scores of the paths that it points out
//! (`lemma_trail_scores_total`), and no path scores more
//! (`lemma_total_bounds_route`).

use vstd::prelude::*;
use crate::matrix::{is_route, leg, path_length, repeats_only_start, well_formed, MAX_LEG};
use crate::olc::{OptimizationResult, Path, Task};
use crate::point::{altitude_rule, complies, keeps_altitude_rule, validate, Point};

verus! {

/// The number of legs of a task.
pub const LEGS: usize = 6;

/// What a path loses when it starts at a fix from which the finish cannot be
/// reached within the altitude rule. No path is as long as this.
pub const PENALTY: i64 = 0x800_0000_0000;

/// One entry of a layer.
#[derive(Clone, Copy, Debug, PartialEq, Eq, Structural)]
pub struct GraphCell {
    /// The fix before this one on the best path to it.
    pub prev_index: usize,
    /// The total of the best path to this fix.
    pub distance: i64,
}

/// The layers of a graph, the layer of one leg first.
pub struct Graph {
    pub g: Vec<Vec<GraphCell>>,
}

impl View for Graph {
    type V = Seq<Seq<GraphCell>>;

    open spec fn view(&self) -> Seq<Seq<GraphCell>> {
        layers_view(self.g@)
    }
}

/// The cells of some layers.
pub open spec fn layers_view(layers: Seq<Vec<GraphCell>>) -> Seq<Seq<GraphCell>> {
    Seq::new(layers.len(), |k: int| layers[k]@)
}

/// The totals in the cells of a layer.
pub open spec fn totals(layer: Seq<GraphCell>) -> Seq<i64> {
    Seq::new(layer.len(), |i: int| layer[i].distance)
}

/// The scores of a search that may start anywhere: nothing is lost at any
/// of the `n` fixes.
pub open spec fn free_start(n: nat) -> Seq<i64> {
    Seq::new(n, |i: int| 0i64)
}

/// The scores of a search for tasks that finish at the altitude of fix
/// `finish`: a start from which that altitude breaks the rule costs
/// `PENALTY`. Only the fixes up to `finish` can start such a task.
pub open spec fn anchored_start(points: Seq<Point>, finish: int) -> Seq<i64> {
    Seq::new(
        (finish + 1) as nat,
        |i: int|
            if altitude_rule(points[i], points[finish]) {
                0i64
            } else {
                (-PENALTY) as i64
            },
    )
}

/// What a path scores: what it starts with, and its length.
pub open spec fn route_score(m: Seq<Seq<u64>>, start: Seq<i64>, p: Seq<usize>) -> int {
    start[p[0] as int] + path_length(m, p)
}

/// The best total after `legs` legs at fix `j`; before the first leg, the
/// score of a start at `j`.
pub open spec fn total(g: Seq<Seq<GraphCell>>, start: Seq<i64>, legs: int, j: int) -> int {
    if legs <= 0 {
        start[j] as int
    } else {
        g[legs - 1][j].distance as int
    }
}

/// A graph over `n` fixes: one layer for each leg, and no cell that points
/// forward in time.
pub open spec fn is_graph(g: Seq<Seq<GraphCell>>, n: nat) -> bool {
    &&& g.len() == LEGS
    &&& forall|k: int| 0 <= k < LEGS ==> (#[trigger] g[k]).len() == n
    &&& forall|k: int, j: int| 0 <= k < LEGS && 0 <= j < n ==> (#[trigger] g[k][j]).prev_index <= j
}

/// `cell` is the best last leg to fix `j` when `before` holds the cells of
/// the fixes that the leg may come from. No predecessor gives more. Of the
/// earlier fixes that give as much, the latest is chosen; the path stays at
/// `j` for the leg only where that gives more than any earlier fix.
pub open spec fn is_best_over(
    cell: GraphCell,
    before: Seq<GraphCell>,
    m: Seq<Seq<u64>>,
    j: int,
) -> bool {
    &&& cell.prev_index <= j
    &&& cell.distance == before[cell.prev_index as int].distance + leg(
        m,
        cell.prev_index as int,
        j,
    )
    &&& forall|i: int|
        0 <= i <= j ==> before[i].distance + #[trigger] leg(m, i, j) <= cell.distance
    &&& forall|i: int|
        0 <= i < j && (cell.prev_index < i || cell.prev_index == j) ==> before[i].distance
            + #[trigger] leg(m, i, j) < cell.distance
}

/// `cell` is the best last leg to fix `j` from the fixes before `upto`, by
/// the rule of `is_best_over`.
pub open spec fn is_best_among(
    cell: GraphCell,
    before: Seq<GraphCell>,
    m: Seq<Seq<u64>>,
    j: int,
    upto: int,
) -> bool {
    &&& cell.prev_index <= j
    &&& cell.prev_index < upto
    &&& cell.distance == before[cell.prev_index as int].distance + leg(
        m,
        cell.prev_index as int,
        j,
    )
    &&& forall|i: int|
        0 <= i <= j && i < upto ==> before[i].distance + #[trigger] leg(m, i, j) <= cell.distance
    &&& forall|i: int|
        0 <= i < j && i < upto && (cell.prev_index < i || cell.prev_index == j)
            ==> before[i].distance + #[trigger] leg(m, i, j) < cell.distance
}

/// The cell of fix `j` in the layer of `legs` legs is the best last leg to
/// `j`, given the layer before.
pub open spec fn is_best_step(
    g: Seq<Seq<GraphCell>>,
    m: Seq<Seq<u64>>,
    start: Seq<i64>,
    legs: int,
    j: int,
) -> bool {
    let cell = g[legs - 1][j];
    &&& cell.prev_index <= j
    &&& cell.distance == total(g, start, legs - 1, cell.prev_index as int) + leg(
        m,
        cell.prev_index as int,
        j,
    )
    &&& forall|i: int|
        0 <= i <= j ==> total(g, start, legs - 1, i) + #[trigger] leg(m, i, j) <= cell.distance
    &&& forall|i: int|
        0 <= i < j && (cell.prev_index < i || cell.prev_index == j) ==> total(
            g,
            start,
            legs - 1,
            i,
        ) + #[trigger] leg(m, i, j) < cell.distance
}

/// The graph is the one that the recurrence over the layers gives for the
/// matrix `m` and the start scores `start`. Every cell holds the latest of
/// its best earlier predecessors, or its own fix where staying there gives
/// more than any of them.
pub open spec fn solves(g: Seq<Seq<GraphCell>>, m: Seq<Seq<u64>>, start: Seq<i64>) -> bool {
    &&& is_graph(g, start.len())
    &&& start.len() <= m.len()
    &&& forall|legs: int, j: int|
        1 <= legs <= LEGS && 0 <= j < start.len() ==> #[trigger] is_best_step(g, m, start, legs, j)
}

/// The path of `legs` legs to fix `j` that the cells of a graph point out.
pub open spec fn trail(g: Seq<Seq<GraphCell>>, legs: nat, j: usize) -> Seq<usize>
    decreases legs,
{
    if legs == 0 {
        seq![j]
    } else {
        trail(g, (legs - 1) as nat, g[legs - 1][j as int].prev_index).push(j)
    }
}

/// The task that the graph points out to fix `j` keeps the altitude rule.
pub open spec fn ends_valid(g: Seq<Seq<GraphCell>>, points: Seq<Point>, j: usize) -> bool {
    keeps_altitude_rule(points, trail(g, LEGS as nat, j))
}

/// `path` and `distance` are the best of the tasks that a graph over `n`
/// fixes points out and that keep the altitude rule: the task with the
/// highest total in its last cell, and of several such the one that
/// finishes last.
pub open spec fn is_best_valid(
    g: Seq<Seq<GraphCell>>,
    n: nat,
    points: Seq<Point>,
    path: Seq<usize>,
    distance: int,
) -> bool {
    let finish = path.last();
    &&& finish < n
    &&& path == trail(g, LEGS as nat, finish)
    &&& ends_valid(g, points, finish)
    &&& distance == g[LEGS - 1][finish as int].distance
    &&& forall|j: usize|
        j < n && #[trigger] ends_valid(g, points, j) ==> g[LEGS - 1][j as int].distance <= distance
    &&& forall|j: usize|
        finish < j < n && #[trigger] ends_valid(g, points, j) ==> g[LEGS - 1][j as int].distance
            < distance
}

/// The graph that the recurrence gives for a matrix and start scores.
pub open spec fn graph_of(m: Seq<Seq<u64>>, start: Seq<i64>) -> Seq<Seq<GraphCell>> {
    choose|g: Seq<Seq<GraphCell>>| solves(g, m, start)
}

/// The best of the tasks that a graph over `n` fixes points out and that
/// keep the altitude rule.
pub open spec fn best_valid_of(g: Seq<Seq<GraphCell>>, n: nat, points: Seq<Point>) -> Task {
    choose|best: Task| is_best_valid(g, n, points, best.path, best.distance)
}

/// Up to any layer, two graphs that the recurrence gives for one matrix and
/// the same start scores hold the same cells.
proof fn lemma_layers_agree(
    g: Seq<Seq<GraphCell>>,
    h: Seq<Seq<GraphCell>>,
    m: Seq<Seq<u64>>,
    start: Seq<i64>,
    legs: nat,
)
    requires
        solves(g, m, start),
        solves(h, m, start),
        legs <= LEGS,
    ensures
        forall|k: int, j: int| 0 <= k < legs && 0 <= j < start.len() ==> g[k][j] == h[k][j],
    decreases legs,
{
    if legs > 0 {
        lemma_layers_agree(g, h, m, start, (legs - 1) as nat);
        let last = legs - 1;
        assert forall|j: int| 0 <= j < start.len() implies g[last][j] == h[last][j] by {
            let c = g[last][j];
            let d = h[last][j];
            assert(is_best_step(g, m, start, legs as int, j));
            assert(is_best_step(h, m, start, legs as int, j));
            assert forall|i: int| 0 <= i < start.len() implies #[trigger] total(
                g,
                start,
                legs - 1,
                i,
            ) == total(h, start, legs - 1, i) by {
                if legs > 1 {
                    assert(g[legs - 2][i] == h[legs - 2][i]);
                }
            }
            let from_c = c.prev_index as int;
            let from_d = d.prev_index as int;
            assert(total(g, start, legs - 1, from_d) + leg(m, from_d, j) <= c.distance);
            assert(total(h, start, legs - 1, from_c) + leg(m, from_c, j) <= d.distance);
            assert(c.distance == d.distance);
            if from_c != from_d {
                if from_c < from_d {
                    if from_d < j {
                        assert(total(g, start, legs - 1, from_d) + leg(m, from_d, j) < c.distance);
                    } else {
                        assert(total(h, start, legs - 1, from_c) + leg(m, from_c, j) < d.distance);
                    }
                } else {
                    if from_c < j {
                        assert(total(h, start, legs - 1, from_c) + leg(m, from_c, j) < d.distance);
                    } else {
                        assert(total(g, start, legs - 1, from_d) + leg(m, from_d, j) < c.distance);
                    }
                }
            }
        }
    }
}

/// The recurrence gives one graph only for a matrix and start scores.
pub proof fn lemma_solution_unique(g: Seq<Seq<GraphCell>>, m: Seq<Seq<u64>>, start: Seq<i64>)
    requires
        solves(g, m, start),
    ensures
        g == graph_of(m, start),
{
    let h = graph_of(m, start);
    lemma_layers_agree(g, h, m, start, LEGS as nat);
    assert forall|k: int| 0 <= k < LEGS implies g[k] == h[k] by {
        assert(g[k].len() == h[k].len());
        assert(g[k] =~= h[k]);
    }
    assert(g =~= h);
}

/// A graph points out one best task only that keeps the altitude rule.
pub proof fn lemma_best_valid_unique(
    g: Seq<Seq<GraphCell>>,
    n: nat,
    points: Seq<Point>,
    best: Task,
)
    requires
        is_best_valid(g, n, points, best.path, best.distance),
    ensures
        best == best_valid_of(g, n, points),
{
    let other = best_valid_of(g, n, points);
    let f = best.path.last();
    let o = other.path.last();
    assert(ends_valid(g, points, f));
    assert(ends_valid(g, points, o));
    assert(g[LEGS - 1][o as int].distance <= best.distance);
    assert(g[LEGS - 1][f as int].distance <= other.distance);
    if f < o {
        assert(g[LEGS - 1][o as int].distance < best.distance);
    } else if o < f {
        assert(g[LEGS - 1][f as int].distance < other.distance);
    }
}

/// The path that a graph points out to a fix is a path: it has one fix more
/// than legs, ends at the fix, and never goes back in time.
pub proof fn lemma_trail_is_route(g: Seq<Seq<GraphCell>>, n: nat, legs: nat, j: usize)
    requires
        is_graph(g, n),
        legs <= LEGS,
        j < n,
    ensures
        trail(g, legs, j).len() == legs + 1,
        trail(g, legs, j).last() == j,
        is_route(trail(g, legs, j), n as int),
    decreases legs,
{
    if legs > 0 {
        let cell = g[legs - 1][j as int];
        let before = trail(g, (legs - 1) as nat, cell.prev_index);
        lemma_trail_is_route(g, n, (legs - 1) as nat, cell.prev_index);
        let t = trail(g, legs, j);
        assert(t == before.push(j));
        assert forall|a: int, b: int| 0 <= a <= b < t.len() implies t[a] <= t[b] by {
            if b == t.len() - 1 {
                if a < b {
                    assert(before[a] <= before[before.len() - 1]);
                }
            }
        }
    }
}

/// The total in a cell is the score of the path that the graph points out
/// to it.
pub proof fn lemma_trail_scores_total(
    g: Seq<Seq<GraphCell>>,
    m: Seq<Seq<u64>>,
    start: Seq<i64>,
    legs: nat,
    j: usize,
)
    requires
        solves(g, m, start),
        legs <= LEGS,
        j < start.len(),
    ensures
        route_score(m, start, trail(g, legs, j)) == total(g, start, legs as int, j as int),
    decreases legs,
{
    if legs == 0 {
        assert(path_length(m, seq![j]) == 0);
    } else {
        let cell = g[legs - 1][j as int];
        assert(is_best_step(g, m, start, legs as int, j as int));
        let before = trail(g, (legs - 1) as nat, cell.prev_index);
        lemma_trail_is_route(g, start.len(), (legs - 1) as nat, cell.prev_index);
        lemma_trail_scores_total(g, m, start, (legs - 1) as nat, cell.prev_index);
        let t = trail(g, legs, j);
        assert(t == before.push(j));
        assert(t.drop_last() =~= before);
        assert(t[0] == before[0]);
    }
}

/// No path to a fix scores more than the total in the cell of that fix, in
/// the layer of as many legs as the path has.
pub proof fn lemma_total_bounds_route(
    g: Seq<Seq<GraphCell>>,
    m: Seq<Seq<u64>>,
    start: Seq<i64>,
    p: Seq<usize>,
)
    requires
        solves(g, m, start),
        is_route(p, start.len() as int),
        1 <= p.len() <= LEGS + 1,
    ensures
        route_score(m, start, p) <= total(g, start, p.len() - 1, p.last() as int),
    decreases p.len(),
{
    if p.len() > 1 {
        let q = p.drop_last();
        assert(is_route(q, start.len() as int)) by {
            assert forall|a: int| 0 <= a < q.len() implies (#[trigger] q[a]) < start.len() by {
                assert(q[a] == p[a]);
            }
            assert forall|a: int, b: int| 0 <= a <= b < q.len() implies q[a] <= q[b] by {
                assert(q[a] == p[a] && q[b] == p[b]);
            }
        }
        lemma_total_bounds_route(g, m, start, q);
        assert(q[0] == p[0]);
        assert(q.last() == p[p.len() - 2]);
        assert(p[p.len() - 2] <= p[p.len() - 1]);
        assert(is_best_step(g, m, start, p.len() - 1, p.last() as int));
    }
}

/// Where a path stays at a fix for a leg, it has stayed there for the leg
/// before as well.
pub proof fn lemma_stay_goes_back(
    g: Seq<Seq<GraphCell>>,
    m: Seq<Seq<u64>>,
    start: Seq<i64>,
    legs: int,
    j: int,
)
    requires
        solves(g, m, start),
        well_formed(m),
        2 <= legs <= LEGS,
        0 <= j < start.len(),
        g[legs - 1][j].prev_index == j,
    ensures
        g[legs - 2][j].prev_index == j,
{
    let from = g[legs - 2][j].prev_index as int;
    assert(is_best_step(g, m, start, legs, j));
    assert(is_best_step(g, m, start, legs - 1, j));
    if from < j {
        assert(is_best_step(g, m, start, legs - 1, from));
        assert(leg(m, from, from) == 0);
        assert(leg(m, j, j) == 0);
        assert(total(g, start, legs - 2, from) + leg(m, from, from) <= total(
            g,
            start,
            legs - 1,
            from,
        ));
        assert(total(g, start, legs - 1, from) + leg(m, from, j) < g[legs - 1][j].distance);
    }
}

/// A path that stays at a fix for its last leg has never been anywhere
/// else.
pub proof fn lemma_stay_trail(
    g: Seq<Seq<GraphCell>>,
    m: Seq<Seq<u64>>,
    start: Seq<i64>,
    legs: nat,
    j: usize,
)
    requires
        solves(g, m, start),
        well_formed(m),
        1 <= legs <= LEGS,
        j < start.len(),
        g[legs - 1][j as int].prev_index == j,
    ensures
        trail(g, legs, j).len() == legs + 1,
        forall|t: int| 0 <= t <= legs ==> trail(g, legs, j)[t] == j,
    decreases legs,
{
    if legs >= 2 {
        lemma_stay_goes_back(g, m, start, legs as int, j as int);
        lemma_stay_trail(g, m, start, (legs - 1) as nat, j);
    } else {
        assert(trail(g, 0, j) =~= seq![j]);
    }
}

/// The path that a graph points out to a fix repeats no fix but its first.
pub proof fn lemma_trail_repeats_only_start(
    g: Seq<Seq<GraphCell>>,
    m: Seq<Seq<u64>>,
    start: Seq<i64>,
    legs: nat,
    j: usize,
)
    requires
        solves(g, m, start),
        well_formed(m),
        legs <= LEGS,
        j < start.len(),
    ensures
        repeats_only_start(trail(g, legs, j)),
    decreases legs,
{
    if legs > 0 {
        let from = g[legs - 1][j as int].prev_index;
        let t = trail(g, legs, j);
        if from == j {
            lemma_stay_trail(g, m, start, legs, j);
        } else {
            let before = trail(g, (legs - 1) as nat, from);
            lemma_trail_is_route(g, start.len(), (legs - 1) as nat, from);
            lemma_trail_repeats_only_start(g, m, start, (legs - 1) as nat, from);
            assert(t == before.push(j));
            assert forall|a: int, b: int| 0 <= a < b < t.len() implies (#[trigger] t[a]) < (
            #[trigger] t[b]) || t[b] == t[0] by {
                if b == t.len() - 1 {
                    assert(before[a] <= before[before.len() - 1]);
                } else {
                    assert(before[a] < before[b] || before[b] == before[0]);
                }
            }
        }
    }
}

impl Graph {
    /// The number of fixes that the graph covers.
    pub open spec fn width(&self) -> nat {
        self@[0].len()
    }

    /// The graph has its six layers, all over the same fixes, and no cell
    /// points forward in time.
    pub open spec fn wf(&self) -> bool {
        is_graph(self@, self.width())
    }

    /// Computes the layer of `legs` legs from the layer before it.
    ///
    /// The rows of the matrix are read one after the other: row `i` brings
    /// to every fix from `i` on what a last leg from `i` gives.
    fn next_layer(matrix: &[Vec<u64>], before: &[GraphCell], legs: usize) -> (layer: Vec<
        GraphCell,
    >)
        requires
            well_formed(matrix.deep_view()),
            before.len() <= matrix.len(),
            1 <= legs <= LEGS,
            forall|i: int|
                0 <= i < before.len() ==> -PENALTY <= (#[trigger] before[i]).distance <= (legs - 1)
                    * MAX_LEG,
        ensures
            layer.len() == before.len(),
            forall|j: int|
                0 <= j < layer.len() ==> is_best_over(
                    #[trigger] layer[j],
                    before@,
                    matrix.deep_view(),
                    j,
                ),
            forall|j: int|
                0 <= j < layer.len() ==> -PENALTY <= (#[trigger] layer[j]).distance <= legs
                    * MAX_LEG,
    {
        let ghost m = matrix.deep_view();
        let n = before.len();
        let mut layer: Vec<GraphCell> = Vec::with_capacity(n);
        if n == 0 {
            return layer;
        }
        assert(forall|i: int, j: int|
            0 <= i <= j < n ==> #[trigger] leg(m, i, j) == matrix[i][j - i]);
        let first: i64 = before[0].distance;
        let row: &Vec<u64> = &matrix[0];
        let mut j: usize = 0;
        while j < n
            invariant
                m == matrix.deep_view(),
                well_formed(m),
                n == before.len(),
                0 < n <= matrix.len(),
                1 <= legs <= LEGS,
                first == before[0].distance,
                -PENALTY <= first <= (legs - 1) * MAX_LEG,
                *row == matrix[0],
                forall|i: int, t: int|
                    0 <= i <= t < n ==> #[trigger] leg(m, i, t) == matrix[i][t - i],
                j <= n,
                layer.len() == j,
                forall|t: int|
                    0 <= t < j ==> is_best_among(#[trigger] layer[t], before@, m, t, 1),
                forall|t: int|
                    0 <= t < j ==> -PENALTY <= (#[trigger] layer[t]).distance <= legs * MAX_LEG,
            decreases n - j,
        {
            assert(leg(m, 0, j as int) <= MAX_LEG);
            layer.push(GraphCell { prev_index: 0, distance: first + row[j] as i64 });
            j += 1;
        }
        let mut i: usize = 1;
        while i < n
            invariant
                m == matrix.deep_view(),
                well_formed(m),
                n == before.len(),
                0 < n <= matrix.len(),
                1 <= legs <= LEGS,
                forall|t: int|
                    0 <= t < before.len() ==> -PENALTY <= (#[trigger] before[t]).distance <= (legs
                        - 1) * MAX_LEG,
                forall|i: int, t: int|
                    0 <= i <= t < n ==> #[trigger] leg(m, i, t) == matrix[i][t - i],
                1 <= i <= n,
                layer.len() == n,
                forall|t: int|
                    0 <= t < i ==> is_best_over(#[trigger] layer[t], before@, m, t),
                forall|t: int|
                    i <= t < n ==> is_best_among(#[trigger] layer[t], before@, m, t, i as int),
                forall|t: int|
                    0 <= t < n ==> -PENALTY <= (#[trigger] layer[t]).distance <= legs * MAX_LEG,
            decreases n - i,
        {
            let from: i64 = before[i].distance;
            let row: &Vec<u64> = &matrix[i];
            assert(leg(m, i as int, i as int) <= MAX_LEG);
            let stay: i64 = from + row[0] as i64;
            if stay > layer[i].distance {
                layer.set(i, GraphCell { prev_index: i, distance: stay });
            }
            let mut j: usize = i + 1;
            while j < n
                invariant
                    m == matrix.deep_view(),
                    well_formed(m),
                    n == before.len(),
                    0 < n <= matrix.len(),
                    1 <= legs <= LEGS,
                    from == before[i as int].distance,
                    -PENALTY <= from <= (legs - 1) * MAX_LEG,
                    *row == matrix[i as int],
                    forall|i: int, t: int|
                        0 <= i <= t < n ==> #[trigger] leg(m, i, t) == matrix[i][t - i],
                    1 <= i < j <= n,
                    layer.len() == n,
                    forall|t: int|
                        0 <= t <= i ==> is_best_over(#[trigger] layer[t], before@, m, t),
                    forall|t: int|
                        i < t < j ==> is_best_among(#[trigger] layer[t], before@, m, t, i + 1),
                    forall|t: int|
                        j <= t < n ==> is_best_among(#[trigger] layer[t], before@, m, t, i as int),
                    forall|t: int|
                        0 <= t < n ==> -PENALTY <= (#[trigger] layer[t]).distance <= legs
                            * MAX_LEG,
                decreases n - j,
            {
                assert(leg(m, i as int, j as int) <= MAX_LEG);
                let candidate: i64 = from + row[j - i] as i64;
                if candidate >= layer[j].distance {
                    layer.set(j, GraphCell { prev_index: i, distance: candidate });
                }
                j += 1;
            }
            i += 1;
        }
        layer
    }

    /// Computes the six layers that follow the layer `origin` of start
    /// scores.
    fn layers(matrix: &[Vec<u64>], origin: &[GraphCell]) -> (graph: Graph)
        requires
            well_formed(matrix.deep_view()),
            origin.len() <= matrix.len(),
            forall|i: int|
                0 <= i < origin.len() ==> -PENALTY <= (#[trigger] origin[i]).distance <= 0,
        ensures
            solves(graph@, matrix.deep_view(), totals(origin@)),
    {
        let ghost m = matrix.deep_view();
        let ghost start = totals(origin@);
        let n = origin.len();
        let mut g: Vec<Vec<GraphCell>> = Vec::with_capacity(LEGS);
        let first = Self::next_layer(matrix, origin, 1);
        g.push(first);
        assert forall|j: int| 0 <= j < n implies #[trigger] is_best_step(
            layers_view(g@),
            m,
            start,
            1,
            j,
        ) by {
            assert(is_best_over(first[j], origin@, m, j));
        }
        while g.len() < LEGS
            invariant
                m == matrix.deep_view(),
                start == totals(origin@),
                well_formed(m),
                n == origin.len(),
                n <= matrix.len(),
                1 <= g.len() <= LEGS,
                forall|k: int| 0 <= k < g.len() ==> (#[trigger] g[k]).len() == n,
                forall|k: int, j: int|
                    0 <= k < g.len() && 0 <= j < n ==> -PENALTY <= (#[trigger] g[k][j]).distance
                        <= (k + 1) * MAX_LEG,
                forall|legs: int, j: int|
                    1 <= legs <= g.len() && 0 <= j < n ==> #[trigger] is_best_step(
                        layers_view(g@),
                        m,
                        start,
                        legs,
                        j,
                    ),
            decreases LEGS - g.len(),
        {
            let legs = g.len() + 1;
            let ghost old_view = layers_view(g@);
            let layer = Self::next_layer(matrix, &g[g.len() - 1], legs);
            g.push(layer);
            proof {
                let new_view = layers_view(g@);
                assert(new_view =~= old_view.push(layer@));
                assert forall|l: int, j: int|
                    1 <= l <= g.len() && 0 <= j < n implies #[trigger] is_best_step(
                    new_view,
                    m,
                    start,
                    l,
                    j,
                ) by {
                    if l < legs {
                        assert(is_best_step(old_view, m, start, l, j));
                    } else {
                        assert(is_best_over(layer[j], old_view[legs - 2], m, j));
                    }
                }
            }
        }
        let graph = Graph { g };
        proof {
            assert(graph@ == layers_view(g@));
            assert forall|k: int, j: int| 0 <= k < LEGS && 0 <= j < n implies (
            #[trigger] graph@[k][j]).prev_index <= j by {
                assert(is_best_step(graph@, m, start, k + 1, j));
            }
        }
        graph
    }

    /// Builds the graph of the best paths through a matrix, wherever they
    /// start.
    ///
    /// The total in a cell is the length of the path that the graph points
    /// out to it, and no path of as many legs to the same fix is longer.
    /// Where several fixes are equally good before a fix, the cell holds
    /// the latest of them that is earlier than the fix itself.
    pub fn from_distance_matrix(matrix: &[Vec<u64>]) -> (graph: Graph)
        requires
            well_formed(matrix.deep_view()),
        ensures
            graph.wf(),
            graph.width() == matrix.len(),
            solves(graph@, matrix.deep_view(), free_start(matrix.len() as nat)),
            graph@ == graph_of(matrix.deep_view(), free_start(matrix.len() as nat)),
            forall|legs: nat, j: usize|
                1 <= legs <= LEGS && j < matrix.len() ==> path_length(
                    matrix.deep_view(),
                    #[trigger] trail(graph@, legs, j),
                ) == graph@[legs - 1][j as int].distance,
            forall|p: Seq<usize>|
                is_route(p, matrix.len() as int) && 2 <= p.len() <= LEGS + 1
                    ==> #[trigger] path_length(matrix.deep_view(), p) <= graph@[p.len()
                    - 2][p.last() as int].distance,
    {
        let n = matrix.len();
        let mut origin: Vec<GraphCell> = Vec::with_capacity(n);
        let mut i: usize = 0;
        while i < n
            invariant
                i <= n,
                origin.len() == i,
                forall|t: int| 0 <= t < i ==> (#[trigger] origin[t]).distance == 0,
            decreases n - i,
        {
            origin.push(GraphCell { prev_index: i, distance: 0 });
            i += 1;
        }
        let graph = Self::layers(matrix, &origin);
        proof {
            let m = matrix.deep_view();
            let start = free_start(n as nat);
            assert(totals(origin@) =~= start);
            lemma_solution_unique(graph@, m, start);
            assert forall|legs: nat, j: usize| 1 <= legs <= LEGS && j < n implies path_length(
                m,
                #[trigger] trail(graph@, legs, j),
            ) == graph@[legs - 1][j as int].distance by {
                lemma_trail_is_route(graph@, n as nat, legs, j);
                lemma_trail_scores_total(graph@, m, start, legs, j);
            }
            assert forall|p: Seq<usize>|
                is_route(p, n as int) && 2 <= p.len() <= LEGS + 1 implies #[trigger] path_length(
                m,
                p,
            ) <= graph@[p.len() - 2][p.last() as int].distance by {
                lemma_total_bounds_route(graph@, m, start, p);
            }
        }
        graph
    }

    /// Builds the graph of the best paths for tasks that finish at the
    /// altitude of fix `finish_index`, over the fixes up to that one.
    ///
    /// A path that starts where this altitude breaks the rule loses
    /// `PENALTY`: it takes part, and any path that keeps the rule beats it.
    pub fn for_finish_index(finish_index: usize, matrix: &[Vec<u64>], points: &[Point]) -> (graph:
        Graph)
        requires
            well_formed(matrix.deep_view()),
            matrix.len() == points.len(),
            finish_index < points.len(),
        ensures
            graph.wf(),
            graph.width() == finish_index + 1,
            solves(graph@, matrix.deep_view(), anchored_start(points@, finish_index as int)),
            graph@ == graph_of(matrix.deep_view(), anchored_start(points@, finish_index as int)),
            forall|legs: nat, j: usize|
                1 <= legs <= LEGS && j <= finish_index ==> route_score(
                    matrix.deep_view(),
                    anchored_start(points@, finish_index as int),
                    #[trigger] trail(graph@, legs, j),
                ) == graph@[legs - 1][j as int].distance,
            forall|p: Seq<usize>|
                is_route(p, finish_index + 1) && 2 <= p.len() <= LEGS + 1
                    ==> #[trigger] route_score(
                    matrix.deep_view(),
                    anchored_start(points@, finish_index as int),
                    p,
                ) <= graph@[p.len() - 2][p.last() as int].distance,
    {
        let n = finish_index + 1;
        let finish = &points[finish_index];
        let mut origin: Vec<GraphCell> = Vec::with_capacity(n);
        let mut i: usize = 0;
        while i < n
            invariant
                n == finish_index + 1,
                n <= points.len(),
                *finish == points[finish_index as int],
                i <= n,
                origin.len() == i,
                forall|t: int|
                    0 <= t < i ==> (#[trigger] origin[t]).distance == anchored_start(
                        points@,
                        finish_index as int,
                    )[t],
            decreases n - i,
        {
            let score: i64 = if complies(&points[i], finish) {
                0
            } else {
                -PENALTY
            };
            origin.push(GraphCell { prev_index: i, distance: score });
            i += 1;
        }
        let graph = Self::layers(matrix, &origin);
        proof {
            let m = matrix.deep_view();
            let start = anchored_start(points@, finish_index as int);
            assert(totals(origin@) =~= start);
            lemma_solution_unique(graph@, m, start);
            assert forall|legs: nat, j: usize|
                1 <= legs <= LEGS && j <= finish_index implies route_score(
                m,
                start,
                #[trigger] trail(graph@, legs, j),
            ) == graph@[legs - 1][j as int].distance by {
                lemma_trail_scores_total(graph@, m, start, legs, j);
            }
            assert forall|p: Seq<usize>|
                is_route(p, finish_index + 1) && 2 <= p.len() <= LEGS + 1
                    implies #[trigger] route_score(m, start, p) <= graph@[p.len()
                - 2][p.last() as int].distance by {
                lemma_total_bounds_route(graph@, m, start, p);
            }
        }
        graph
    }

    /// Follows the cells back from fix `finish_index` in the last layer, and
    /// returns the task that they point out, start first.
    pub fn extract_path(&self, finish_index: usize) -> (path: Path)
        requires
            self.wf(),
            finish_index < self.width(),
        ensures
            path@ == trail(self@, LEGS as nat, finish_index),
            path@.len() == LEGS + 1,
            is_route(path@, self.width() as int),
            path@.last() == finish_index,
    {
        let ghost full = trail(self@, LEGS as nat, finish_index);
        proof {
            lemma_trail_is_route(self@, self.width(), LEGS as nat, finish_index);
        }
        let mut path: Vec<usize> = Vec::with_capacity(LEGS + 1);
        while path.len() <= LEGS
            invariant
                path.len() <= LEGS + 1,
                forall|t: int| 0 <= t < path.len() ==> path[t] == finish_index,
            decreases LEGS + 1 - path.len(),
        {
            path.push(finish_index);
        }
        let mut k: usize = LEGS;
        assert(full.subrange(0, k + 1) =~= full);
        while k > 0
            invariant
                self.wf(),
                full == trail(self@, LEGS as nat, finish_index),
                full.len() == LEGS + 1,
                path.len() == LEGS + 1,
                k <= LEGS,
                path[k as int] < self.width(),
                forall|t: int| k <= t <= LEGS ==> path[t] == full[t],
                full.subrange(0, k + 1) == trail(self@, k as nat, path[k as int]),
            decreases k,
        {
            let cell = self.g[k - 1][path[k]];
            proof {
                let here = trail(self@, k as nat, path[k as int]);
                let before = trail(self@, (k - 1) as nat, cell.prev_index);
                lemma_trail_is_route(self@, self.width(), (k - 1) as nat, cell.prev_index);
                assert(here == before.push(path[k as int]));
                assert(full.subrange(0, k as int) =~= full.subrange(0, k + 1).drop_last());
                assert(here.drop_last() =~= before);
                assert(full[k - 1] == full.subrange(0, k as int)[k - 1]);
            }
            path.set(k - 1, cell.prev_index);
            k -= 1;
        }
        assert(path@ =~= full);
        path
    }

    /// Finds the best of the tasks that the graph points out and that keep
    /// the altitude rule.
    ///
    /// There always is one: the task that stays at the first fix.
    pub fn find_best_valid_solution(&self, points: &[Point]) -> (best: OptimizationResult)
        requires
            self.wf(),
            1 <= self.width() <= points.len(),
        ensures
            is_best_valid(self@, self.width(), points@, best.path@, best.distance as int),
            best@ == best_valid_of(self@, self.width(), points@),
            best.path@.len() == LEGS + 1,
            is_route(best.path@, self.width() as int),
    {
        let n = self.g[LEGS - 1].len();
        let first = self.extract_path(0);
        assert(first@[0] <= first@[LEGS as int]);
        let mut best = OptimizationResult { path: first, distance: self.g[LEGS - 1][0].distance };
        let mut j: usize = 1;
        while j < n
            invariant
                self.wf(),
                n == self.width(),
                1 <= n <= points.len(),
                1 <= j <= n,
                is_best_valid(self@, j as nat, points@, best.path@, best.distance as int),
                best.path@.len() == LEGS + 1,
                is_route(best.path@, n as int),
            decreases n - j,
        {
            let path = self.extract_path(j);
            let total = self.g[LEGS - 1][j].distance;
            if validate(points, path.as_slice()) && total >= best.distance {
                best = OptimizationResult { path, distance: total };
            }
            j += 1;
        }
        proof {
            lemma_best_valid_unique(self@, self.width(), points@, best@);
        }
        best
    }
}

} // verus!
