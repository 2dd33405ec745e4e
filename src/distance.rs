//! Physical pointer distance: Euclidean pixel lengths in fixed point, sampled segment
//! validity, the waypoint search across monitors, and the distance engine itself.
//!
//! Distances are fixed point: a pixel length is counted in millionths of a pixel, a physical
//! length in millionths of an inch (micro-inches).

use vstd::prelude::*;
use vstd::arithmetic::div_mod::{
    lemma_div_is_ordered, lemma_div_is_ordered_by_denominator, lemma_div_multiples_vanish,
    lemma_fundamental_div_mod, lemma_mod_pos_bound,
};
use crate::monitor::{
    Monitor, MonitorError, first_monitor, lemma_first_monitor_is_containing, pairwise_disjoint, find_monitor_index, lemma_first_monitor_from, manhattan,
    manhattan_distance,
    topology_well_formed,
};

verus! {

/// Fixed-point scale of lengths: one unit is a millionth of a pixel or of an inch.
pub const SCALE: u64 = 1_000_000;

/// Squared Euclidean pixel distance.
pub open spec fn sq_dist(x1: int, y1: int, x2: int, y2: int) -> int {
    (x2 - x1) * (x2 - x1) + (y2 - y1) * (y2 - y1)
}

/// `r` is the integer square root of `n`, rounded down.
pub open spec fn is_floor_sqrt(n: int, r: int) -> bool {
    0 <= r && r * r <= n && n < (r + 1) * (r + 1)
}

/// The integer square root of `n`, rounded down.
pub open spec fn floor_sqrt(n: int) -> int {
    choose|r: int| is_floor_sqrt(n, r)
}

/// Euclidean pixel distance in millionths of a pixel, rounded down.
pub open spec fn euclid_micro(x1: int, y1: int, x2: int, y2: int) -> int {
    floor_sqrt(sq_dist(x1, y1, x2, y2) * (SCALE * SCALE) as int)
}

/// Physical length in micro-inches of a pixel segment drawn at a density of `ppi_milli`
/// thousandths of a pixel per inch, rounded down.
pub open spec fn segment_micro_inches(x1: int, y1: int, x2: int, y2: int, ppi_milli: int) -> int {
    euclid_micro(x1, y1, x2, y2) * 1000 / ppi_milli
}

pub proof fn lemma_floor_sqrt_unique(n: int, a: int, b: int)
    requires
        is_floor_sqrt(n, a),
        is_floor_sqrt(n, b),
    ensures
        a == b,
{
    if a < b {
        assert((a + 1) * (a + 1) <= b * b) by (nonlinear_arith)
            requires
                0 <= a + 1 <= b,
        ;
    } else if b < a {
        assert((b + 1) * (b + 1) <= a * a) by (nonlinear_arith)
            requires
                0 <= b + 1 <= a,
        ;
    }
}

/// A witness is the square root.
pub proof fn lemma_floor_sqrt_of_witness(n: int, r: int)
    requires
        is_floor_sqrt(n, r),
    ensures
        floor_sqrt(n) == r,
{
    lemma_floor_sqrt_unique(n, floor_sqrt(n), r);
}

/// Integer square root, rounded down.
pub fn isqrt(n: u128) -> (r: u64)
    ensures
        is_floor_sqrt(n as int, r as int),
        r == floor_sqrt(n as int),
{
    let mut lo: u128 = 0;
    let mut hi: u128 = 0x1_0000_0000_0000_0000;
    assert(n < hi * hi) by (nonlinear_arith)
        requires
            hi == 0x1_0000_0000_0000_0000u128,
            n <= u128::MAX,
    ;
    while hi - lo > 1
        invariant
            lo < hi <= 0x1_0000_0000_0000_0000u128,
            lo * lo <= n,
            n < hi * hi,
        decreases hi - lo,
    {
        let mid: u128 = lo + (hi - lo) / 2;
        assert(mid * mid <= 0xffff_ffff_ffff_ffffu128 * 0xffff_ffff_ffff_ffffu128) by (nonlinear_arith)
            requires
                mid < 0x1_0000_0000_0000_0000u128,
        ;
        if mid * mid <= n {
            lo = mid;
        } else {
            hi = mid;
        }
    }
    proof {
        lemma_floor_sqrt_of_witness(n as int, lo as int);
    }
    lo as u64
}

/// Square roots of numbers below `2^106` are below `2^53`.
pub proof fn lemma_floor_sqrt_bound(n: int, r: int)
    requires
        is_floor_sqrt(n, r),
        n < 0x400_0000_0000_0000_0000_0000_0000,
    ensures
        r < 0x20_0000_0000_0000,
{
    if r >= 0x20_0000_0000_0000 {
        assert(r * r >= 0x20_0000_0000_0000 * 0x20_0000_0000_0000) by (nonlinear_arith)
            requires
                r >= 0x20_0000_0000_0000,
        ;
    }
}

/// Euclidean pixel distance between two points, in millionths of a pixel, rounded down.
pub fn calculate_distance(x1: i32, y1: i32, x2: i32, y2: i32) -> (r: u64)
    ensures
        r == euclid_micro(x1 as int, y1 as int, x2 as int, y2 as int),
        r < 0x20_0000_0000_0000,
{
    let dx: i64 = x2 as i64 - x1 as i64;
    let dy: i64 = y2 as i64 - y1 as i64;
    let ax: u128 = if dx >= 0 { dx as u128 } else { (-dx) as u128 };
    let ay: u128 = if dy >= 0 { dy as u128 } else { (-dy) as u128 };
    assert((ax as int) * (ax as int) <= 0x1_0000_0000_0000_0000 && (ay as int) * (ay as int)
        <= 0x1_0000_0000_0000_0000) by (nonlinear_arith)
        requires
            ax <= 0x1_0000_0000u128,
            ay <= 0x1_0000_0000u128,
    ;
    let d2: u128 = ax * ax + ay * ay;
    assert((d2 as int) * 1_000_000_000_000 < 0x400_0000_0000_0000_0000_0000_0000) by (nonlinear_arith)
        requires
            d2 <= 0x2_0000_0000_0000_0000u128,
    ;
    let scaled: u128 = d2 * 1_000_000_000_000u128;
    assert(ax * ax + ay * ay == sq_dist(x1 as int, y1 as int, x2 as int, y2 as int)) by (nonlinear_arith)
        requires
            ax == dx || ax == -dx,
            ay == dy || ay == -dy,
            dx == x2 - x1,
            dy == y2 - y1,
    ;
    let r = isqrt(scaled);
    proof {
        lemma_floor_sqrt_bound(scaled as int, r as int);
    }
    r
}

pub open spec fn abs_diff(a: int, b: int) -> int {
    if a >= b {
        a - b
    } else {
        b - a
    }
}

/// Number of unit pixel steps along a segment: the larger of its two extents.
pub open spec fn step_count(x1: int, y1: int, x2: int, y2: int) -> int {
    if abs_diff(x1, x2) >= abs_diff(y1, y2) {
        abs_diff(x1, x2)
    } else {
        abs_diff(y1, y2)
    }
}

/// `n / s` rounded toward zero, for `s > 0`.
pub open spec fn trunc_div(n: int, s: int) -> int {
    if n >= 0 {
        n / s
    } else {
        -((-n) / s)
    }
}

/// Coordinate of the `i`-th of `steps` unit-step samples from `a` to `b`: the exact point
/// `a + (b - a) * i / steps`, truncated toward zero.
pub open spec fn sample_coord(a: int, b: int, i: int, steps: int) -> int {
    trunc_div(a * steps + (b - a) * i, steps)
}

/// Some monitor of the topology contains the point.
pub open spec fn covered(ms: Seq<Monitor>, x: int, y: int) -> bool {
    exists|k: int| 0 <= k < ms.len() && #[trigger] ms[k].contains(x, y)
}

/// The `i`-th unit-step sample of the segment lies on some monitor.
pub open spec fn sample_covered(ms: Seq<Monitor>, x1: int, y1: int, x2: int, y2: int, i: int) -> bool {
    let steps = step_count(x1, y1, x2, y2);
    covered(ms, sample_coord(x1, x2, i, steps), sample_coord(y1, y2, i, steps))
}

/// A straight pointer movement stays on the displays: every point sampled at unit pixel
/// steps from one end to the other (both ends included) lies on some monitor. A movement of
/// no length is always allowed.
pub open spec fn valid_movement(ms: Seq<Monitor>, x1: int, y1: int, x2: int, y2: int) -> bool {
    let steps = step_count(x1, y1, x2, y2);
    steps == 0 || forall|i: int| 0 <= i <= steps ==> #[trigger] sample_covered(ms, x1, y1, x2, y2, i)
}

/// A sample lies between the segment's ends.
proof fn lemma_sample_between(a: int, b: int, i: int, s: int)
    requires
        0 <= i <= s,
        0 < s,
    ensures
        a <= b ==> a <= sample_coord(a, b, i, s) <= b,
        b < a ==> b <= sample_coord(a, b, i, s) <= a,
{
    let lo = if a <= b { a } else { b };
    let hi = if a <= b { b } else { a };
    let n = a * s + (b - a) * i;
    assert(s * lo <= n <= s * hi) by (nonlinear_arith)
        requires
            0 <= i <= s,
            lo == (if a <= b { a } else { b }),
            hi == (if a <= b { b } else { a }),
            n == a * s + (b - a) * i,
    ;
    if n >= 0 {
        lemma_div_is_ordered(s * lo, n, s);
        lemma_div_is_ordered(n, s * hi, s);
    } else {
        assert(s * (-hi) <= -n <= s * (-lo)) by (nonlinear_arith)
            requires
                s * lo <= n <= s * hi,
        ;
        lemma_div_is_ordered(s * (-hi), -n, s);
        lemma_div_is_ordered(-n, s * (-lo), s);
        lemma_div_multiples_vanish(-hi, s);
        lemma_div_multiples_vanish(-lo, s);
    }
    lemma_div_multiples_vanish(lo, s);
    lemma_div_multiples_vanish(hi, s);
}

/// Coordinate of a sample, computed as `sample_coord` says.
fn sample_at(a: i32, b: i32, i: u64, steps: u64) -> (r: i32)
    requires
        i <= steps <= 0x1_0000_0000,
        0 < steps,
    ensures
        r == sample_coord(a as int, b as int, i as int, steps as int),
{
    proof {
        lemma_sample_between(a as int, b as int, i as int, steps as int);
        let (ai, bi, ii, si) = (a as int, b as int, i as int, steps as int);
        assert(-0x8000_0000_0000_0000 <= ai * si <= 0x8000_0000_0000_0000) by (nonlinear_arith)
            requires
                -0x8000_0000 <= ai <= 0x8000_0000,
                0 < si <= 0x1_0000_0000,
        ;
        assert(-0x1_0000_0000_0000_0000 <= (bi - ai) * ii <= 0x1_0000_0000_0000_0000) by (nonlinear_arith)
            requires
                -0x1_0000_0000 <= bi - ai <= 0x1_0000_0000,
                0 <= ii <= 0x1_0000_0000,
        ;
    }
    let n: i128 = (a as i128) * (steps as i128) + ((b as i128) - (a as i128)) * (i as i128);
    if n >= 0 {
        ((n as u128) / (steps as u128)) as i32
    } else {
        let q: u128 = ((-n) as u128) / (steps as u128);
        (-(q as i128)) as i32
    }
}

/// Whether a straight movement from `(x1, y1)` to `(x2, y2)` stays on the monitors.
pub fn is_valid_movement(x1: i32, y1: i32, x2: i32, y2: i32, monitors: &[Monitor]) -> (r: bool)
    requires
        topology_well_formed(monitors@),
    ensures
        r == valid_movement(monitors@, x1 as int, y1 as int, x2 as int, y2 as int),
{
    let dx: i64 = x2 as i64 - x1 as i64;
    let dy: i64 = y2 as i64 - y1 as i64;
    let ax: u64 = if dx >= 0 { dx as u64 } else { (-dx) as u64 };
    let ay: u64 = if dy >= 0 { dy as u64 } else { (-dy) as u64 };
    let steps: u64 = if ax >= ay { ax } else { ay };
    if steps == 0 {
        return true;
    }
    let ghost ms = monitors@;
    let mut i: u64 = 0;
    while i <= steps
        invariant
            0 < steps <= 0x1_0000_0000,
            steps == step_count(x1 as int, y1 as int, x2 as int, y2 as int),
            dx == x2 - x1,
            dy == y2 - y1,
            ms == monitors@,
            topology_well_formed(ms),
            forall|j: int| 0 <= j < i ==> #[trigger] sample_covered(ms, x1 as int, y1 as int, x2 as int, y2 as int, j),
        decreases steps + 1 - i,
    {
        let sx = sample_at(x1, x2, i, steps);
        let sy = sample_at(y1, y2, i, steps);
        let found = find_monitor_index(sx, sy, monitors);
        proof {
            lemma_first_monitor_from(ms, sx as int, sy as int, 0);
        }
        if found.is_none() {
            assert(!sample_covered(ms, x1 as int, y1 as int, x2 as int, y2 as int, i as int));
            return false;
        }
        assert(sample_covered(ms, x1 as int, y1 as int, x2 as int, y2 as int, i as int));
        i = i + 1;
    }
    true
}

/// Transition points of all monitors, in topology order.
pub open spec fn all_edge_points(ms: Seq<Monitor>) -> Seq<(i32, i32)>
    decreases ms.len(),
{
    if ms.len() == 0 {
        Seq::empty()
    } else {
        all_edge_points(ms.drop_last()) + ms.last().edge_points()
    }
}

/// The search graph's nodes: the start, the goal, then every monitor's transition points.
pub open spec fn waypoints(ms: Seq<Monitor>, x1: i32, y1: i32, x2: i32, y2: i32) -> Seq<(i32, i32)> {
    seq![(x1, y1), (x2, y2)] + all_edge_points(ms)
}

fn collect_waypoints(x1: i32, y1: i32, x2: i32, y2: i32, monitors: &[Monitor]) -> (r: Vec<(i32, i32)>)
    requires
        topology_well_formed(monitors@),
    ensures
        r@ == waypoints(monitors@, x1, y1, x2, y2),
{
    let mut points: Vec<(i32, i32)> = Vec::new();
    points.push((x1, y1));
    points.push((x2, y2));
    let mut i: usize = 0;
    while i < monitors.len()
        invariant
            0 <= i <= monitors@.len(),
            topology_well_formed(monitors@),
            points@ == seq![(x1, y1), (x2, y2)] + all_edge_points(monitors@.take(i as int)),
        decreases monitors@.len() - i,
    {
        let mut edges = monitors[i].get_edge_points();
        proof {
            assert(monitors@.take(i + 1).drop_last() =~= monitors@.take(i as int));
        }
        points.append(&mut edges);
        assert(points@ =~= seq![(x1, y1), (x2, y2)] + all_edge_points(monitors@.take(i + 1)));
        i = i + 1;
    }
    assert(monitors@.take(monitors@.len() as int) =~= monitors@);
    points
}

/// A straight move between two waypoints stays on the monitors.
pub open spec fn step_valid(ms: Seq<Monitor>, a: (i32, i32), b: (i32, i32)) -> bool {
    valid_movement(ms, a.0 as int, a.1 as int, b.0 as int, b.1 as int)
}

/// The move from the `k`-th point of a path to the next one is valid.
pub open spec fn hop_valid(ms: Seq<Monitor>, path: Seq<(i32, i32)>, k: int) -> bool {
    step_valid(ms, path[k], path[k + 1])
}

/// A path through the search graph: every point is one of its nodes and every move between
/// consecutive points stays on the monitors.
pub open spec fn is_waypoint_path(ms: Seq<Monitor>, nodes: Seq<(i32, i32)>, path: Seq<(i32, i32)>) -> bool {
    &&& path.len() >= 1
    &&& forall|k: int| 0 <= k < path.len() ==> nodes.contains(#[trigger] path[k])
    &&& forall|k: int| 0 <= k < path.len() - 1 ==> #[trigger] hop_valid(ms, path, k)
}

/// Some path through the waypoints of the topology leads from the start to the goal.
pub open spec fn goal_reachable(ms: Seq<Monitor>, x1: i32, y1: i32, x2: i32, y2: i32) -> bool {
    exists|p: Seq<(i32, i32)>|
        #![trigger is_waypoint_path(ms, waypoints(ms, x1, y1, x2, y2), p)]
        is_waypoint_path(ms, waypoints(ms, x1, y1, x2, y2), p) && p[0] == (x1, y1) && p.last() == (
            x2,
            y2,
        )
}

/// `p` is a path through the graph from its first node, the start, to the point `to`.
pub open spec fn leads_to(ms: Seq<Monitor>, nodes: Seq<(i32, i32)>, p: Seq<(i32, i32)>, to: (i32, i32)) -> bool {
    is_waypoint_path(ms, nodes, p) && p[0] == nodes[0] && p.last() == to
}

/// What the waypoint search returns: when the goal can be reached, a path from the start to
/// the goal through the waypoints of the topology that is least in search cost and, among the
/// paths of least search cost, least in physical length; when it cannot, the bare two-point
/// path. Its interior points are monitor transition points.
pub open spec fn is_search_result(
    ms: Seq<Monitor>,
    x1: i32,
    y1: i32,
    x2: i32,
    y2: i32,
    r: Seq<(i32, i32)>,
) -> bool {
    &&& r.len() >= 2
    &&& r[0] == (x1, y1)
    &&& r.last() == (x2, y2)
    &&& goal_reachable(ms, x1, y1, x2, y2) ==> is_waypoint_path(
        ms,
        waypoints(ms, x1, y1, x2, y2),
        r,
    ) && forall|p: Seq<(i32, i32)>|
        #[trigger] leads_to(ms, waypoints(ms, x1, y1, x2, y2), p, (x2, y2)) ==> lex_le(
            path_cost(r),
            path_micro_inches(ms, r),
            path_cost(p),
            path_micro_inches(ms, p),
        )
    &&& !goal_reachable(ms, x1, y1, x2, y2) ==> r == seq![(x1, y1), (x2, y2)]
    &&& forall|j: int| 0 < j < r.len() - 1 ==> all_edge_points(ms).contains(#[trigger] r[j])
}

/// `(a1, b1)` comes no later than `(a2, b2)` in lexicographic order.
pub open spec fn lex_le(a1: int, b1: int, a2: int, b2: int) -> bool {
    a1 < a2 || (a1 == a2 && b1 <= b2)
}

/// Number of `true` entries.
pub open spec fn count_true(s: Seq<bool>) -> nat
    decreases s.len(),
{
    if s.len() == 0 {
        0
    } else {
        count_true(s.drop_last()) + if s.last() {
            1nat
        } else {
            0nat
        }
    }
}

proof fn lemma_count_true_bound(s: Seq<bool>)
    ensures
        count_true(s) <= s.len(),
        count_true(s) == s.len() ==> forall|i: int| 0 <= i < s.len() ==> #[trigger] s[i],
    decreases s.len(),
{
    if s.len() > 0 {
        lemma_count_true_bound(s.drop_last());
        if count_true(s) == s.len() {
            assert forall|i: int| 0 <= i < s.len() implies #[trigger] s[i] by {
                if i < s.len() - 1 {
                    assert(s[i] == s.drop_last()[i]);
                }
            }
        }
    }
}

proof fn lemma_count_true_set(s: Seq<bool>, i: int)
    requires
        0 <= i < s.len(),
        !s[i],
    ensures
        count_true(s.update(i, true)) == count_true(s) + 1,
    decreases s.len(),
{
    if i < s.len() - 1 {
        lemma_count_true_set(s.drop_last(), i);
        assert(s.update(i, true).drop_last() =~= s.drop_last().update(i, true));
    } else {
        assert(s.update(i, true).drop_last() =~= s.drop_last());
    }
}

/// `ip` is a path of node indices from the start node (index 0) to node `k`, along valid moves.
pub open spec fn index_path_ok(ms: Seq<Monitor>, nodes: Seq<(i32, i32)>, ip: Seq<usize>, k: int) -> bool {
    &&& ip.len() >= 1
    &&& ip[0] == 0
    &&& ip.last() == k
    &&& forall|j: int| 0 <= j < ip.len() ==> #[trigger] ip[j] < nodes.len()
    &&& forall|j: int|
        0 <= j < ip.len() - 1 ==> #[trigger] step_valid(ms, nodes[ip[j] as int], nodes[ip[j + 1] as int])
}

/// Estimated total cost through node `k`: its cost so far plus its Manhattan distance to the
/// goal.
pub open spec fn estimate(g: u128, k: (i32, i32), goal: (i32, i32)) -> int {
    g + manhattan(k.0 as int, k.1 as int, goal.0 as int, goal.1 as int)
}

/// Bound on any cost so far, far from `u128::MAX`.
pub open spec fn cost_bound() -> int {
    0x1_0000_0000_0000_0000_0000_0000_0000
}

/// A node is open when it has been reached and is not yet closed.
pub open spec fn is_open(g: Seq<Option<u128>>, closed: Seq<bool>, k: int) -> bool {
    g[k] is Some && !closed[k]
}

/// The open node to expand next: the lowest estimate, then the shortest physical length so
/// far, then the lowest index. `None` when no node is open.
fn select_open(
    g: &Vec<Option<u128>>,
    gl: &Vec<u128>,
    closed: &Vec<bool>,
    nodes: &Vec<(i32, i32)>,
    goal: (i32, i32),
) -> (r: Option<usize>)
    requires
        g@.len() == closed@.len() == nodes@.len() == gl@.len(),
        forall|k: int| 0 <= k < g@.len() && #[trigger] g@[k] is Some ==> g@[k]->Some_0 <= cost_bound(),
    ensures
        r is None <==> forall|k: int| 0 <= k < g@.len() ==> !#[trigger] is_open(g@, closed@, k),
        r matches Some(c) ==> c < g@.len() && is_open(g@, closed@, c as int) && forall|k: int|
            0 <= k < g@.len() && #[trigger] is_open(g@, closed@, k) ==> lex_le(
                estimate(g@[c as int]->Some_0, nodes@[c as int], goal),
                gl@[c as int] as int,
                estimate(g@[k]->Some_0, nodes@[k], goal),
                gl@[k] as int,
            ),
{
    let mut best: Option<usize> = None;
    let mut best_f: u128 = 0;
    let mut best_l: u128 = 0;
    let mut k: usize = 0;
    while k < g.len()
        invariant
            0 <= k <= g@.len(),
            g@.len() == closed@.len() == nodes@.len() == gl@.len(),
            forall|k: int| 0 <= k < g@.len() && #[trigger] g@[k] is Some ==> g@[k]->Some_0 <= cost_bound(),
            best is None ==> forall|j: int| 0 <= j < k ==> !#[trigger] is_open(g@, closed@, j),
            best matches Some(c) ==> c < k && is_open(g@, closed@, c as int) && best_l == gl@[c as int]
                && best_f == estimate(g@[c as int]->Some_0, nodes@[c as int], goal) && forall|j: int|
                0 <= j < k && #[trigger] is_open(g@, closed@, j) ==> lex_le(
                    best_f as int,
                    best_l as int,
                    estimate(g@[j]->Some_0, nodes@[j], goal),
                    gl@[j] as int,
                ),
        decreases g@.len() - k,
    {
        if !closed[k] {
            if let Some(gk) = g[k] {
                let (nx, ny) = nodes[k];
                let h = manhattan_distance(nx, ny, goal.0, goal.1);
                let fk = gk + h as u128;
                let lk = gl[k];
                let better = match best {
                    None => true,
                    Some(_) => fk < best_f || (fk == best_f && lk < best_l),
                };
                if better {
                    best = Some(k);
                    best_f = fk;
                    best_l = lk;
                }
            }
        }
        k = k + 1;
    }
    best
}

/// A copy of a path of node indices.
fn copy_indices(p: &Vec<usize>) -> (r: Vec<usize>)
    ensures
        r@ == p@,
{
    let mut r: Vec<usize> = Vec::new();
    let mut i: usize = 0;
    while i < p.len()
        invariant
            0 <= i <= p@.len(),
            r@ == p@.take(i as int),
        decreases p@.len() - i,
    {
        r.push(p[i]);
        assert(r@ =~= p@.take(i + 1));
        i = i + 1;
    }
    assert(p@.take(p@.len() as int) =~= p@);
    r
}

/// The points of the graph that a path of node indices visits.
fn index_path_points(nodes: &Vec<(i32, i32)>, ip: &Vec<usize>) -> (r: Vec<(i32, i32)>)
    requires
        forall|j: int| 0 <= j < ip@.len() ==> #[trigger] ip@[j] < nodes@.len(),
    ensures
        r@.len() == ip@.len(),
        forall|j: int| 0 <= j < ip@.len() ==> #[trigger] r@[j] == nodes@[ip@[j] as int],
{
    let mut r: Vec<(i32, i32)> = Vec::new();
    let mut i: usize = 0;
    while i < ip.len()
        invariant
            0 <= i <= ip@.len(),
            forall|j: int| 0 <= j < ip@.len() ==> #[trigger] ip@[j] < nodes@.len(),
            r@.len() == i,
            forall|j: int| 0 <= j < i ==> #[trigger] r@[j] == nodes@[ip@[j] as int],
        decreases ip@.len() - i,
    {
        r.push(nodes[ip[i]]);
        i = i + 1;
    }
    r
}

/// When no node is open and every closed node has reached all its valid neighbours, every
/// point of a path from the start node is the point of a reached node.
proof fn lemma_reached_along(
    ms: Seq<Monitor>,
    nodes: Seq<(i32, i32)>,
    g: Seq<Option<u128>>,
    closed: Seq<bool>,
    p: Seq<(i32, i32)>,
    k: int,
)
    requires
        nodes.len() >= 1,
        g.len() == nodes.len(),
        closed.len() == nodes.len(),
        g[0] is Some,
        forall|u: int| 0 <= u < g.len() ==> !#[trigger] is_open(g, closed, u),
        forall|u: int, v: int|
            0 <= u < nodes.len() && 0 <= v < nodes.len() && closed[u] && #[trigger] step_valid(
                ms,
                nodes[u],
                nodes[v],
            ) ==> g[v] is Some,
        is_waypoint_path(ms, nodes, p),
        p[0] == nodes[0],
        0 <= k < p.len(),
    ensures
        exists|u: int| 0 <= u < nodes.len() && g[u] is Some && #[trigger] nodes[u] == p[k],
    decreases k,
{
    if k == 0 {
        assert(nodes[0] == p[0]);
    } else {
        lemma_reached_along(ms, nodes, g, closed, p, k - 1);
        let u = choose|u: int| 0 <= u < nodes.len() && g[u] is Some && #[trigger] nodes[u] == p[k - 1];
        assert(!is_open(g, closed, u));
        assert(hop_valid(ms, p, k - 1));
        assert(nodes.contains(p[k]));
        let v = choose|v: int| 0 <= v < nodes.len() && nodes[v] == p[k];
        assert(step_valid(ms, nodes[u], nodes[v]));
    }
}

/// Search cost of the move from `a` to `b`: their Manhattan distance.
pub open spec fn hop_cost(a: (i32, i32), b: (i32, i32)) -> int {
    manhattan(a.0 as int, a.1 as int, b.0 as int, b.1 as int)
}

/// Search cost of a path: the sum of its moves' costs.
pub open spec fn path_cost(p: Seq<(i32, i32)>) -> int
    decreases p.len(),
{
    if p.len() < 2 {
        0
    } else {
        path_cost(p.drop_last()) + hop_cost(p[p.len() - 2], p[p.len() - 1])
    }
}

/// The points that a path of node indices visits.
pub open spec fn points_of(nodes: Seq<(i32, i32)>, ip: Seq<usize>) -> Seq<(i32, i32)> {
    Seq::new(ip.len(), |j: int| nodes[ip[j] as int])
}

proof fn lemma_path_cost_bound(p: Seq<(i32, i32)>)
    ensures
        0 <= path_cost(p),
        path_cost(p) <= p.len() * 0x2_0000_0000,
    decreases p.len(),
{
    if p.len() >= 2 {
        lemma_path_cost_bound(p.drop_last());
    }
}

proof fn lemma_points_of_push(nodes: Seq<(i32, i32)>, ip: Seq<usize>, v: usize)
    requires
        ip.len() >= 1,
    ensures
        points_of(nodes, ip.push(v)) == points_of(nodes, ip).push(nodes[v as int]),
        points_of(nodes, ip.push(v)).drop_last() == points_of(nodes, ip),
        path_cost(points_of(nodes, ip.push(v))) == path_cost(points_of(nodes, ip)) + hop_cost(
            nodes[ip.last() as int],
            nodes[v as int],
        ),
        forall|ms: Seq<Monitor>|
            #[trigger] path_micro_inches(ms, points_of(nodes, ip.push(v))) == path_micro_inches(
                ms,
                points_of(nodes, ip),
            ) + hop_micro_inches(ms, nodes[ip.last() as int], nodes[v as int]),
{
    assert(points_of(nodes, ip.push(v)) =~= points_of(nodes, ip).push(nodes[v as int]));
    assert(points_of(nodes, ip.push(v)).drop_last() =~= points_of(nodes, ip));
}

proof fn lemma_cost_split(p: Seq<(i32, i32)>, k: int)
    requires
        0 <= k < p.len(),
    ensures
        path_cost(p) == path_cost(p.take(k + 1)) + path_cost(p.subrange(k, p.len() as int)),
    decreases p.len(),
{
    if k == p.len() - 1 {
        assert(p.take(k + 1) =~= p);
    } else {
        let q = p.drop_last();
        lemma_cost_split(q, k);
        assert(p.take(k + 1) =~= q.take(k + 1));
        let sp = p.subrange(k, p.len() as int);
        assert(sp.drop_last() =~= q.subrange(k, q.len() as int));
        assert(sp[sp.len() - 2] == p[p.len() - 2]);
        assert(sp[sp.len() - 1] == p[p.len() - 1]);
    }
}

proof fn lemma_length_split(ms: Seq<Monitor>, p: Seq<(i32, i32)>, k: int)
    requires
        0 <= k < p.len(),
    ensures
        path_micro_inches(ms, p) == path_micro_inches(ms, p.take(k + 1)) + path_micro_inches(
            ms,
            p.subrange(k, p.len() as int),
        ),
    decreases p.len(),
{
    if k == p.len() - 1 {
        assert(p.take(k + 1) =~= p);
    } else {
        let q = p.drop_last();
        lemma_length_split(ms, q, k);
        assert(p.take(k + 1) =~= q.take(k + 1));
        let sp = p.subrange(k, p.len() as int);
        assert(sp.drop_last() =~= q.subrange(k, q.len() as int));
        assert(sp[sp.len() - 2] == p[p.len() - 2]);
        assert(sp[sp.len() - 1] == p[p.len() - 1]);
    }
}

/// Every natural number has an integer square root.
proof fn lemma_floor_sqrt_exists(n: int)
    requires
        0 <= n,
    ensures
        is_floor_sqrt(n, floor_sqrt(n)),
    decreases n,
{
    if n == 0 {
        assert(is_floor_sqrt(0, 0));
    } else {
        lemma_floor_sqrt_exists(n - 1);
        let r = floor_sqrt(n - 1);
        if (r + 1) * (r + 1) <= n {
            assert((r + 1) * (r + 1) == n);
            assert(n < (r + 2) * (r + 2)) by (nonlinear_arith)
                requires
                    (r + 1) * (r + 1) == n,
                    r >= 0,
            ;
            assert(is_floor_sqrt(n, r + 1));
        } else {
            assert(is_floor_sqrt(n, r));
        }
    }
}

/// Moves have no negative length, and a move of no length has none.
proof fn lemma_hop_length(ms: Seq<Monitor>, a: (i32, i32), b: (i32, i32))
    requires
        topology_well_formed(ms),
    ensures
        hop_micro_inches(ms, a, b) >= 0,
        a == b ==> hop_micro_inches(ms, a, b) == 0,
{
    lemma_first_monitor_from(ms, a.0 as int, a.1 as int, 0);
    if let Some(i) = first_monitor(ms, a.0 as int, a.1 as int) {
        assert(ms[i].well_formed());
        let n = sq_dist(a.0 as int, a.1 as int, b.0 as int, b.1 as int) * (SCALE * SCALE) as int;
        assert(n >= 0) by (nonlinear_arith)
            requires
                n == sq_dist(a.0 as int, a.1 as int, b.0 as int, b.1 as int) * (SCALE * SCALE) as int,
        ;
        lemma_floor_sqrt_exists(n);
        assert(floor_sqrt(n) * 1000 >= 0) by (nonlinear_arith)
            requires
                floor_sqrt(n) >= 0,
        ;
        lemma_div_is_ordered(0, floor_sqrt(n) * 1000, ms[i].ppi_milli as int);
        if a == b {
            assert(n == 0) by (nonlinear_arith)
                requires
                    n == sq_dist(a.0 as int, a.1 as int, b.0 as int, b.1 as int) * (SCALE * SCALE) as int,
                    a == b,
            ;
            lemma_floor_sqrt_of_witness(0, 0);
        }
    }
}

proof fn lemma_path_length_nonneg(ms: Seq<Monitor>, p: Seq<(i32, i32)>)
    requires
        topology_well_formed(ms),
    ensures
        path_micro_inches(ms, p) >= 0,
    decreases p.len(),
{
    if p.len() >= 2 {
        lemma_path_length_nonneg(ms, p.drop_last());
        lemma_hop_length(ms, p[p.len() - 2], p[p.len() - 1]);
    }
}

/// The Manhattan distance to the goal never drops by more than a move costs.
proof fn lemma_heuristic_consistent(q: Seq<(i32, i32)>, goal: (i32, i32))
    requires
        q.len() >= 1,
    ensures
        hop_cost(q[0], goal) <= path_cost(q) + hop_cost(q.last(), goal),
    decreases q.len(),
{
    if q.len() >= 2 {
        let r = q.drop_last();
        lemma_heuristic_consistent(r, goal);
        assert(r[0] == q[0]);
        assert(r.last() == q[q.len() - 2]);
    }
}

/// The points of a path of node indices form a path through the graph.
proof fn lemma_index_path_points(ms: Seq<Monitor>, wp: Seq<(i32, i32)>, ip: Seq<usize>, k: int)
    requires
        index_path_ok(ms, wp, ip, k),
    ensures
        leads_to(ms, wp, points_of(wp, ip), wp[k]),
{
    let r = points_of(wp, ip);
    assert forall|j: int| 0 <= j < r.len() implies wp.contains(#[trigger] r[j]) by {
        assert(wp[ip[j] as int] == r[j]);
    }
    assert forall|j: int| 0 <= j < r.len() - 1 implies #[trigger] hop_valid(ms, r, j) by {
        assert(step_valid(ms, wp[ip[j] as int], wp[ip[j + 1] as int]));
    }
}

/// An index path extended by a valid move is an index path.
proof fn lemma_index_path_extend(ms: Seq<Monitor>, wp: Seq<(i32, i32)>, ip: Seq<usize>, c: int, v: usize)
    requires
        index_path_ok(ms, wp, ip, c),
        v < wp.len(),
        step_valid(ms, wp[c], wp[v as int]),
    ensures
        index_path_ok(ms, wp, ip.push(v), v as int),
{
    let np = ip.push(v);
    assert forall|j: int| 0 <= j < np.len() - 1 implies #[trigger] step_valid(
        ms,
        wp[np[j] as int],
        wp[np[j + 1] as int],
    ) by {
        if j < ip.len() - 1 {
            assert(step_valid(ms, wp[ip[j] as int], wp[ip[j + 1] as int]));
        }
    }
    assert forall|j: int| 0 <= j < np.len() implies #[trigger] np[j] < wp.len() by {
        if j < ip.len() {
            assert(ip[j] < wp.len());
        }
    }
}

/// Some closed node stands on point `x`.
pub open spec fn on_closed(wp: Seq<(i32, i32)>, closed: Seq<bool>, x: (i32, i32)) -> bool {
    exists|u: int| 0 <= u < wp.len() && closed[u] && #[trigger] wp[u] == x
}

/// The search's invariant at the moment it selects an open node `c` of lowest key: no path to
/// `c` comes before `(g[c], gl[c])` in (search cost, physical length) order. Scans the path for
/// the first point that no closed node stands on.
proof fn lemma_selected_is_cheapest(
    ms: Seq<Monitor>,
    wp: Seq<(i32, i32)>,
    g: Seq<Option<u128>>,
    gl: Seq<u128>,
    closed: Seq<bool>,
    goal: (i32, i32),
    c: int,
    p: Seq<(i32, i32)>,
    k: int,
)
    requires
        topology_well_formed(ms),
        g.len() == wp.len(),
        gl.len() == wp.len(),
        closed.len() == wp.len(),
        0 <= c < wp.len(),
        is_open(g, closed, c),
        forall|j: int|
            0 <= j < g.len() && #[trigger] is_open(g, closed, j) ==> lex_le(
                estimate(g[c]->Some_0, wp[c], goal),
                gl[c] as int,
                estimate(g[j]->Some_0, wp[j], goal),
                gl[j] as int,
            ),
        forall|u: int, q: Seq<(i32, i32)>|
            0 <= u < wp.len() && closed[u] && #[trigger] leads_to(ms, wp, q, wp[u]) ==> lex_le(
                g[u]->Some_0 as int,
                gl[u] as int,
                path_cost(q),
                path_micro_inches(ms, q),
            ),
        forall|u: int, v: int|
            0 <= u < wp.len() && 0 <= v < wp.len() && closed[u] && #[trigger] step_valid(ms, wp[u], wp[v])
                ==> g[v] is Some && lex_le(
                g[v]->Some_0 as int,
                gl[v] as int,
                g[u]->Some_0 + hop_cost(wp[u], wp[v]),
                gl[u] + hop_micro_inches(ms, wp[u], wp[v]),
            ),
        leads_to(ms, wp, p, wp[c]),
        1 <= k <= p.len(),
        forall|j: int| 0 <= j < k ==> #[trigger] on_closed(wp, closed, p[j]),
    ensures
        lex_le(g[c]->Some_0 as int, gl[c] as int, path_cost(p), path_micro_inches(ms, p)),
    decreases p.len() - k,
{
    if k == p.len() {
        assert(on_closed(wp, closed, p[p.len() - 1]));
        let u = choose|u: int| 0 <= u < wp.len() && closed[u] && #[trigger] wp[u] == p[p.len() - 1];
        lemma_stay_valid(ms, wp[u], wp[c]);
        lemma_hop_length(ms, wp[u], wp[c]);
        assert(step_valid(ms, wp[u], wp[c]));
        assert(leads_to(ms, wp, p, wp[u]));
    } else if on_closed(wp, closed, p[k]) {
        lemma_selected_is_cheapest(ms, wp, g, gl, closed, goal, c, p, k + 1);
    } else {
        assert(on_closed(wp, closed, p[k - 1]));
        let y = choose|u: int| 0 <= u < wp.len() && closed[u] && #[trigger] wp[u] == p[k - 1];
        let q = p.take(k);
        assert forall|j: int| 0 <= j < q.len() implies wp.contains(#[trigger] q[j]) by {
            assert(q[j] == p[j]);
        }
        assert forall|j: int| 0 <= j < q.len() - 1 implies #[trigger] hop_valid(ms, q, j) by {
            assert(hop_valid(ms, p, j));
        }
        assert(q[0] == p[0]);
        assert(q.last() == p[k - 1]);
        assert(is_waypoint_path(ms, wp, q));
        assert(leads_to(ms, wp, q, wp[y]));
        assert(wp.contains(p[k]));
        let v = choose|v: int| 0 <= v < wp.len() && wp[v] == p[k];
        assert(hop_valid(ms, p, k - 1));
        assert(step_valid(ms, wp[y], wp[v]));
        if closed[v] {
            assert(on_closed(wp, closed, p[k]));
        }
        assert(is_open(g, closed, v));
        let pre = p.take(k + 1);
        assert(pre.drop_last() =~= q);
        lemma_cost_split(p, k);
        lemma_length_split(ms, p, k);
        let suf = p.subrange(k, p.len() as int);
        lemma_heuristic_consistent(suf, goal);
        lemma_path_length_nonneg(ms, suf);
        assert(suf[0] == wp[v]);
        assert(suf.last() == wp[c]);
    }
}

/// A move of no length is valid.
proof fn lemma_stay_valid(ms: Seq<Monitor>, a: (i32, i32), b: (i32, i32))
    requires
        a == b,
    ensures
        step_valid(ms, a, b),
{
}
/// Finds a path of waypoints from `(start_x, start_y)` to `(end_x, end_y)` that stays on the
/// monitors, by an A* search over the start, the goal and every monitor's transition points:
/// a move between two waypoints costs their Manhattan distance and is allowed when it stays on
/// the monitors, and the heuristic is the Manhattan distance to the goal. Paths of equal cost
/// are told apart by their physical length, so a free detour through a transition point on a
/// monitor boundary is taken when it measures each side at its own density for less. The path
/// found comes first in that order among all paths to the goal; when the goal cannot be
/// reached, the result is the bare two-point path.
pub fn find_optimal_path(start_x: i32, start_y: i32, end_x: i32, end_y: i32, monitors: &[Monitor]) -> (r:
    Vec<(i32, i32)>)
    requires
        topology_well_formed(monitors@),
    ensures
        is_search_result(monitors@, start_x, start_y, end_x, end_y, r@),
{
    let ghost ms = monitors@;
    let nodes = collect_waypoints(start_x, start_y, end_x, end_y, monitors);
    let ghost wp = nodes@;
    let n = nodes.len();
    let goal = (end_x, end_y);
    let mut g: Vec<Option<u128>> = Vec::new();
    let mut gl: Vec<u128> = Vec::new();
    let mut closed: Vec<bool> = Vec::new();
    let mut paths: Vec<Vec<usize>> = Vec::new();
    let mut i: usize = 0;
    while i < n
        invariant
            0 <= i <= n,
            n == nodes@.len(),
            g@.len() == i,
            gl@.len() == i,
            closed@.len() == i,
            paths@.len() == i,
            forall|k: int| 0 <= k < i ==> #[trigger] g@[k] is None,
            forall|k: int| 0 <= k < i ==> #[trigger] gl@[k] == 0,
            forall|k: int| 0 <= k < i ==> !#[trigger] closed@[k],
        decreases n - i,
    {
        g.push(None);
        gl.push(0);
        closed.push(false);
        paths.push(Vec::new());
        i = i + 1;
    }
    g[0] = Some(0);
    paths[0] = vec![0];
    assert(index_path_ok(ms, wp, paths@[0]@, 0));
    assert(points_of(wp, paths@[0]@).len() == 1);
    proof {
        lemma_count_true_bound(closed@);
    }
    loop
        invariant
            ms == monitors@,
            topology_well_formed(ms),
            wp == nodes@,
            wp == waypoints(ms, start_x, start_y, end_x, end_y),
            n == wp.len(),
            n >= 2,
            goal == (end_x, end_y),
            g@.len() == n,
            gl@.len() == n,
            closed@.len() == n,
            paths@.len() == n,
            g@[0] is Some,
            paths@[0]@ == seq![0usize],
            !closed@[1],
            forall|k: int| 0 <= k < n && #[trigger] closed@[k] ==> g@[k] is Some,
            forall|k: int|
                0 <= k < n && #[trigger] g@[k] is Some ==> index_path_ok(ms, wp, paths@[k]@, k)
                    && g@[k]->Some_0 == path_cost(points_of(wp, paths@[k]@)) && gl@[k]
                    == path_micro_inches(ms, points_of(wp, paths@[k]@)) && gl@[k] <= paths@[k]@.len()
                    * 0x8000_0000_0000_0000 && paths@[k]@.len() <= count_true(closed@) + 1 && forall|j: int|
                    0 < j < paths@[k]@.len() - 1 ==> #[trigger] paths@[k]@[j] >= 2,
            forall|u: int, v: int|
                0 <= u < n && 0 <= v < n && closed@[u] && #[trigger] step_valid(ms, wp[u], wp[v])
                    ==> g@[v] is Some && lex_le(
                    g@[v]->Some_0 as int,
                    gl@[v] as int,
                    g@[u]->Some_0 + hop_cost(wp[u], wp[v]),
                    gl@[u] + hop_micro_inches(ms, wp[u], wp[v]),
                ),
            forall|u: int, q: Seq<(i32, i32)>|
                0 <= u < n && closed@[u] && #[trigger] leads_to(ms, wp, q, wp[u]) ==> lex_le(
                    g@[u]->Some_0 as int,
                    gl@[u] as int,
                    path_cost(q),
                    path_micro_inches(ms, q),
                ),
            !closed@[0] ==> g@[0] == Some(0u128) && gl@[0] == 0 && forall|k: int|
                0 < k < n ==> #[trigger] g@[k] is None,
            count_true(closed@) <= n,
        decreases n - count_true(closed@),
    {
        proof {
            assert forall|k: int| 0 <= k < g@.len() && #[trigger] g@[k] is Some implies g@[k]->Some_0
                <= cost_bound() by {
                lemma_path_cost_bound(points_of(wp, paths@[k]@));
                let l = paths@[k]@.len() as int;
                assert(l <= n + 1);
                assert(l * 0x2_0000_0000 <= 0x1_0000_0000_0000_0001 * 0x2_0000_0000) by (nonlinear_arith)
                    requires
                        0 <= l <= 0x1_0000_0000_0000_0001,
                ;
            }
        }
        let sel = select_open(&g, &gl, &closed, &nodes, goal);
        match sel {
            None => {
                proof {
                    if goal_reachable(ms, start_x, start_y, end_x, end_y) {
                        let p = choose|p: Seq<(i32, i32)>|
                            #![trigger is_waypoint_path(ms, wp, p)]
                            is_waypoint_path(ms, wp, p) && p[0] == (start_x, start_y) && p.last() == (
                                end_x,
                                end_y,
                            );
                        lemma_reached_along(ms, wp, g@, closed@, p, p.len() - 1);
                        let u = choose|u: int|
                            0 <= u < wp.len() && g@[u] is Some && #[trigger] wp[u] == p[p.len() - 1];
                        assert(!is_open(g@, closed@, u));
                        lemma_stay_valid(ms, wp[u], wp[1]);
                        assert(!is_open(g@, closed@, 1));
                    }
                }
                return vec![(start_x, start_y), (end_x, end_y)];
            },
            Some(c) => {
                proof {
                    assert forall|q: Seq<(i32, i32)>| #[trigger] leads_to(ms, wp, q, wp[c as int]) implies lex_le(
                        g@[c as int]->Some_0 as int,
                        gl@[c as int] as int,
                        path_cost(q),
                        path_micro_inches(ms, q),
                    ) by {
                        lemma_path_cost_bound(q);
                        lemma_path_length_nonneg(ms, q);
                        if closed@[0] {
                            assert(on_closed(wp, closed@, q[0]));
                            lemma_selected_is_cheapest(ms, wp, g@, gl@, closed@, goal, c as int, q, 1);
                        } else {
                            assert(c == 0);
                        }
                    }
                }
                if c == 1 {
                    let r = index_path_points(&nodes, &paths[1]);
                    proof {
                        let ip = paths@[1]@;
                        assert(r@ =~= points_of(wp, ip));
                        lemma_index_path_points(ms, wp, ip, 1);
                        assert forall|j: int| 0 < j < r@.len() - 1 implies all_edge_points(ms).contains(
                            #[trigger] r@[j],
                        ) by {
                            assert(ip[j] >= 2);
                            assert(wp[ip[j] as int] == all_edge_points(ms)[ip[j] - 2]);
                        }
                    }
                    return r;
                }
                let gc = g[c].unwrap();
                let lc = gl[c];
                let base = copy_indices(&paths[c]);
                let (cx, cy) = nodes[c];
                proof {
                    if base@.len() >= 2 {
                        assert(c != 0);
                    }
                    lemma_count_true_bound(closed@);
                }
                let mut v: usize = 0;
                while v < n
                    invariant
                        ms == monitors@,
                        topology_well_formed(ms),
                        wp == nodes@,
                        wp == waypoints(ms, start_x, start_y, end_x, end_y),
                        n == wp.len(),
                        n >= 2,
                        c < n,
                        c != 1,
                        g@.len() == n,
                        gl@.len() == n,
                        closed@.len() == n,
                        paths@.len() == n,
                        0 <= v <= n,
                        g@[0] is Some,
                        paths@[0]@ == seq![0usize],
                        !closed@[1],
                        !closed@[c as int],
                        g@[c as int] == Some(gc),
                        gl@[c as int] == lc,
                        (cx, cy) == wp[c as int],
                        index_path_ok(ms, wp, base@, c as int),
                        gc == path_cost(points_of(wp, base@)),
                        lc == path_micro_inches(ms, points_of(wp, base@)),
                        lc <= base@.len() * 0x8000_0000_0000_0000,
                        gc <= cost_bound(),
                        base@.len() <= count_true(closed@) + 1,
                        base@.len() >= 2 ==> c >= 2,
                        forall|j: int| 0 < j < base@.len() - 1 ==> #[trigger] base@[j] >= 2,
                        count_true(closed@) < n,
                        forall|k: int| 0 <= k < n && #[trigger] closed@[k] ==> g@[k] is Some,
                        forall|k: int|
                            0 <= k < n && #[trigger] g@[k] is Some ==> index_path_ok(ms, wp, paths@[k]@, k)
                                && g@[k]->Some_0 == path_cost(points_of(wp, paths@[k]@)) && gl@[k]
                                == path_micro_inches(ms, points_of(wp, paths@[k]@)) && gl@[k]
                                <= paths@[k]@.len() * 0x8000_0000_0000_0000 && paths@[k]@.len()
                                <= count_true(closed@) + 2 && forall|j: int|
                                0 < j < paths@[k]@.len() - 1 ==> #[trigger] paths@[k]@[j] >= 2,
                        forall|u: int, w: int|
                            0 <= u < n && 0 <= w < n && closed@[u] && #[trigger] step_valid(ms, wp[u], wp[w])
                                ==> g@[w] is Some && lex_le(
                                g@[w]->Some_0 as int,
                                gl@[w] as int,
                                g@[u]->Some_0 + hop_cost(wp[u], wp[w]),
                                gl@[u] + hop_micro_inches(ms, wp[u], wp[w]),
                            ),
                        forall|u: int, q: Seq<(i32, i32)>|
                            0 <= u < n && closed@[u] && #[trigger] leads_to(ms, wp, q, wp[u]) ==> lex_le(
                                g@[u]->Some_0 as int,
                                gl@[u] as int,
                                path_cost(q),
                                path_micro_inches(ms, q),
                            ),
                        forall|q: Seq<(i32, i32)>|
                            #[trigger] leads_to(ms, wp, q, wp[c as int]) ==> lex_le(
                                gc as int,
                                lc as int,
                                path_cost(q),
                                path_micro_inches(ms, q),
                            ),
                        c != 0 ==> closed@[0],
                        forall|w: int|
                            0 <= w < v && #[trigger] step_valid(ms, wp[c as int], wp[w]) ==> g@[w] is Some
                                && lex_le(
                                g@[w]->Some_0 as int,
                                gl@[w] as int,
                                gc + hop_cost(wp[c as int], wp[w]),
                                lc + hop_micro_inches(ms, wp[c as int], wp[w]),
                            ),
                    decreases n - v,
                {
                    if v != c && !closed[v] {
                        let (vx, vy) = nodes[v];
                        if is_valid_movement(cx, cy, vx, vy, monitors) {
                            let tentative = gc + manhattan_distance(cx, cy, vx, vy) as u128;
                            let hop = hop_distance((cx, cy), (vx, vy), monitors);
                            proof {
                                let l = base@.len() as int;
                                assert(l * 0x8000_0000_0000_0000 <= 0x1_0000_0000_0000_0001 * 0x8000_0000_0000_0000)
                                    by (nonlinear_arith)
                                    requires
                                        0 <= l <= 0x1_0000_0000_0000_0001,
                                ;
                            }
                            let tl = lc + hop as u128;
                            let improves = match g[v] {
                                None => true,
                                Some(gv) => tentative < gv || (tentative == gv && tl < gl[v]),
                            };
                            if improves {
                                let mut np = copy_indices(&base);
                                np.push(v);
                                proof {
                                    lemma_points_of_push(wp, base@, v);
                                    lemma_index_path_extend(ms, wp, base@, c as int, v);
                                    assert(np@.len() * 0x8000_0000_0000_0000 == base@.len() * 0x8000_0000_0000_0000
                                        + 0x8000_0000_0000_0000) by (nonlinear_arith)
                                        requires
                                            np@.len() == base@.len() + 1,
                                    ;
                                    assert forall|j: int| 0 < j < np@.len() - 1 implies #[trigger] np@[j] >= 2 by {
                                        if j < base@.len() - 1 {
                                            assert(base@[j] >= 2);
                                        } else {
                                            assert(np@[j] == c);
                                        }
                                    }
                                }
                                g[v] = Some(tentative);
                                gl[v] = tl;
                                paths[v] = np;
                            }
                        }
                    }
                    proof {
                        if v == c {
                            lemma_hop_length(ms, wp[c as int], wp[c as int]);
                        } else if closed@[v as int] && step_valid(ms, wp[c as int], wp[v as int]) {
                            lemma_points_of_push(wp, base@, v);
                            lemma_index_path_extend(ms, wp, base@, c as int, v);
                            lemma_index_path_points(ms, wp, base@.push(v), v as int);
                        }
                    }
                    v = v + 1;
                }
                proof {
                    lemma_count_true_set(closed@, c as int);
                }
                closed[c] = true;
                assert(forall|k: int|
                    0 <= k < n && #[trigger] g@[k] is Some ==> paths@[k]@.len() <= count_true(closed@) + 1);
            },
        }
    }
}

/// Physical length of the move from `a` to `b`, at the density of the monitor that contains
/// `a`; a move that starts off the monitors counts nothing.
pub open spec fn hop_micro_inches(ms: Seq<Monitor>, a: (i32, i32), b: (i32, i32)) -> int {
    match first_monitor(ms, a.0 as int, a.1 as int) {
        Some(i) => segment_micro_inches(a.0 as int, a.1 as int, b.0 as int, b.1 as int, ms[i].ppi_milli as int),
        None => 0,
    }
}

/// Physical length of a path: the sum of its moves' lengths.
pub open spec fn path_micro_inches(ms: Seq<Monitor>, path: Seq<(i32, i32)>) -> int
    decreases path.len(),
{
    if path.len() < 2 {
        0
    } else {
        path_micro_inches(ms, path.drop_last()) + hop_micro_inches(
            ms,
            path[path.len() - 2],
            path[path.len() - 1],
        )
    }
}

/// `v`, or `u64::MAX` where `v` is larger.
pub open spec fn saturate_u64(v: int) -> int {
    if v > u64::MAX {
        u64::MAX as int
    } else {
        v
    }
}

proof fn lemma_segment_bound(e: int, ppi: int)
    requires
        0 <= e < 0x8000_0000_0000_0000,
        ppi >= 1,
    ensures
        0 <= e / ppi < 0x8000_0000_0000_0000,
{
    lemma_div_is_ordered_by_denominator(e, 1, ppi);
    lemma_div_is_ordered(0, e, ppi);
}

/// Length of one move of a path, in micro-inches.
fn hop_distance(a: (i32, i32), b: (i32, i32), monitors: &[Monitor]) -> (r: u64)
    requires
        topology_well_formed(monitors@),
    ensures
        r == hop_micro_inches(monitors@, a, b),
        r < 0x8000_0000_0000_0000,
{
    match find_monitor_index(a.0, a.1, monitors) {
        Some(i) => {
            proof {
                lemma_first_monitor_from(monitors@, a.0 as int, a.1 as int, 0);
                assert(monitors@[i as int].well_formed());
            }
            let e = calculate_distance(a.0, a.1, b.0, b.1) * 1000;
            proof {
                lemma_segment_bound(e as int, monitors@[i as int].ppi_milli as int);
            }
            e / monitors[i].ppi_milli
        },
        None => 0,
    }
}

/// Physical length of a path of pixel points in micro-inches: each move is measured at the
/// density of the monitor that contains its start, moves that start off the monitors count
/// nothing, and the sum saturates at `u64::MAX`.
pub fn path_distance(path: &Vec<(i32, i32)>, monitors: &[Monitor]) -> (r: u64)
    requires
        topology_well_formed(monitors@),
    ensures
        r == saturate_u64(path_micro_inches(monitors@, path@)),
{
    let mut total: u128 = 0;
    let mut i: usize = 1;
    if path.len() < 2 {
        return 0;
    }
    while i < path.len()
        invariant
            1 <= i <= path@.len(),
            topology_well_formed(monitors@),
            total == path_micro_inches(monitors@, path@.take(i as int)),
            total <= (i as int) * 0x8000_0000_0000_0000,
        decreases path@.len() - i,
    {
        let h = hop_distance(path[i - 1], path[i], monitors);
        proof {
            let t = path@.take(i + 1);
            assert(t.drop_last() =~= path@.take(i as int));
            assert(t[t.len() - 2] == path@[i - 1] && t[t.len() - 1] == path@[i as int]);
            let ii = i as int;
            assert(ii * 0x8000_0000_0000_0000 <= 0xffff_ffff_ffff_ffff * 0x8000_0000_0000_0000) by (nonlinear_arith)
                requires
                    ii <= 0xffff_ffff_ffff_ffff,
            ;
        }
        total = total + h as u128;
        i = i + 1;
    }
    assert(path@.take(path@.len() as int) =~= path@);
    if total > u64::MAX as u128 {
        u64::MAX
    } else {
        total as u64
    }
}

/// What the distance engine may answer for a move from `(x1, y1)` to `(x2, y2)`: on an empty
/// topology `NoMonitorsFound`; when an end lies on no monitor `PointOutsideTopology`; when
/// both ends lie first on the same monitor, the Euclidean pixel distance over its density; and
/// otherwise the length of a result of the waypoint search.
pub open spec fn is_distance_result(
    ms: Seq<Monitor>,
    x1: i32,
    y1: i32,
    x2: i32,
    y2: i32,
    r: Result<u64, MonitorError>,
) -> bool {
    if ms.len() == 0 {
        r == Err::<u64, MonitorError>(MonitorError::NoMonitorsFound)
    } else {
        match (first_monitor(ms, x1 as int, y1 as int), first_monitor(ms, x2 as int, y2 as int)) {
            (Some(i), Some(j)) => if i == j {
                r == Ok::<u64, MonitorError>(
                    segment_micro_inches(
                        x1 as int,
                        y1 as int,
                        x2 as int,
                        y2 as int,
                        ms[i].ppi_milli as int,
                    ) as u64,
                )
            } else {
                exists|p: Seq<(i32, i32)>|
                    #[trigger] is_search_result(ms, x1, y1, x2, y2, p) && r == Ok::<u64, MonitorError>(
                        saturate_u64(path_micro_inches(ms, p)) as u64,
                    )
            },
            _ => r == Err::<u64, MonitorError>(MonitorError::PointOutsideTopology),
        }
    }
}

/// Physical distance in micro-inches travelled by the pointer from `(x1, y1)` to `(x2, y2)`.
///
/// On one monitor it is the Euclidean pixel distance over the monitor's density. Across
/// monitors it is the length of the path that `find_optimal_path` returns, each move measured
/// at the density of the monitor under its start: the least physical length among the paths
/// of least search cost. An empty topology is `NoMonitorsFound`; an
/// end that no monitor contains is `PointOutsideTopology`.
pub fn calculate_multi_monitor_distance(x1: i32, y1: i32, x2: i32, y2: i32, monitors: &[Monitor]) -> (r:
    Result<u64, MonitorError>)
    requires
        topology_well_formed(monitors@),
    ensures
        is_distance_result(monitors@, x1, y1, x2, y2, r),
{
    if monitors.len() == 0 {
        return Err(MonitorError::NoMonitorsFound);
    }
    proof {
        lemma_first_monitor_from(monitors@, x1 as int, y1 as int, 0);
        lemma_first_monitor_from(monitors@, x2 as int, y2 as int, 0);
    }
    let i = match find_monitor_index(x1, y1, monitors) {
        Some(i) => i,
        None => return Err(MonitorError::PointOutsideTopology),
    };
    let j = match find_monitor_index(x2, y2, monitors) {
        Some(j) => j,
        None => return Err(MonitorError::PointOutsideTopology),
    };
    if i == j {
        assert(monitors@[i as int].well_formed());
        return Ok(calculate_distance(x1, y1, x2, y2) * 1000 / monitors[i].ppi_milli);
    }
    let path = find_optimal_path(x1, y1, x2, y2, monitors);
    let d = path_distance(&path, monitors);
    assert(is_search_result(monitors@, x1, y1, x2, y2, path@));
    Ok(d)
}

/// Swapping the ends of a segment keeps its length.
pub proof fn lemma_segment_symmetric(x1: int, y1: int, x2: int, y2: int, ppi: int)
    ensures
        segment_micro_inches(x1, y1, x2, y2, ppi) == segment_micro_inches(x2, y2, x1, y1, ppi),
{
    assert(sq_dist(x1, y1, x2, y2) == sq_dist(x2, y2, x1, y1)) by (nonlinear_arith);
}

/// A pointer that stays on a point of the topology travels no distance.
pub proof fn lemma_distance_to_self_is_zero(
    ms: Seq<Monitor>,
    x: i32,
    y: i32,
    r: Result<u64, MonitorError>,
)
    requires
        topology_well_formed(ms),
        covered(ms, x as int, y as int),
        is_distance_result(ms, x, y, x, y, r),
    ensures
        r == Ok::<u64, MonitorError>(0),
{
    lemma_first_monitor_from(ms, x as int, y as int, 0);
    let i = first_monitor(ms, x as int, y as int)->Some_0;
    assert(sq_dist(x as int, y as int, x as int, y as int) == 0);
    lemma_floor_sqrt_of_witness(0, 0);
    assert(ms[i].well_formed());
    assert(0int / (ms[i].ppi_milli as int) == 0);
}

/// Between two points of one monitor, on a topology without overlaps, the distance is the
/// Euclidean pixel distance over that monitor's density, whichever end the move starts from.
pub proof fn lemma_same_monitor_distance(
    ms: Seq<Monitor>,
    k: int,
    x1: i32,
    y1: i32,
    x2: i32,
    y2: i32,
    r: Result<u64, MonitorError>,
    r_back: Result<u64, MonitorError>,
)
    requires
        topology_well_formed(ms),
        pairwise_disjoint(ms),
        0 <= k < ms.len(),
        ms[k].contains(x1 as int, y1 as int),
        ms[k].contains(x2 as int, y2 as int),
        is_distance_result(ms, x1, y1, x2, y2, r),
        is_distance_result(ms, x2, y2, x1, y1, r_back),
    ensures
        r == Ok::<u64, MonitorError>(
            segment_micro_inches(x1 as int, y1 as int, x2 as int, y2 as int, ms[k].ppi_milli as int) as u64,
        ),
        r_back == r,
{
    lemma_first_monitor_is_containing(ms, x1 as int, y1 as int, k);
    lemma_first_monitor_is_containing(ms, x2 as int, y2 as int, k);
    lemma_segment_symmetric(x1 as int, y1 as int, x2 as int, y2 as int, ms[k].ppi_milli as int);
}

/// The distance engine's answer is a function of its arguments: two answers for the same move
/// on the same topology are equal.
pub proof fn lemma_distance_result_unique(
    ms: Seq<Monitor>,
    x1: i32,
    y1: i32,
    x2: i32,
    y2: i32,
    r1: Result<u64, MonitorError>,
    r2: Result<u64, MonitorError>,
)
    requires
        is_distance_result(ms, x1, y1, x2, y2, r1),
        is_distance_result(ms, x1, y1, x2, y2, r2),
    ensures
        r1 == r2,
{
    if ms.len() > 0 {
        if let (Some(i), Some(j)) = (
            first_monitor(ms, x1 as int, y1 as int),
            first_monitor(ms, x2 as int, y2 as int),
        ) {
            if i != j {
                let p1 = choose|p: Seq<(i32, i32)>|
                    #[trigger] is_search_result(ms, x1, y1, x2, y2, p) && r1 == Ok::<u64, MonitorError>(
                        saturate_u64(path_micro_inches(ms, p)) as u64,
                    );
                let p2 = choose|p: Seq<(i32, i32)>|
                    #[trigger] is_search_result(ms, x1, y1, x2, y2, p) && r2 == Ok::<u64, MonitorError>(
                        saturate_u64(path_micro_inches(ms, p)) as u64,
                    );
                if goal_reachable(ms, x1, y1, x2, y2) {
                    let wp = waypoints(ms, x1, y1, x2, y2);
                    assert(leads_to(ms, wp, p1, (x2, y2)));
                    assert(leads_to(ms, wp, p2, (x2, y2)));
                }
            }
        }
    }
}

/// A move is no longer, in fixed-point pixels, than its Manhattan distance.
proof fn lemma_euclid_within_manhattan(a: (i32, i32), b: (i32, i32))
    ensures
        0 <= euclid_micro(a.0 as int, a.1 as int, b.0 as int, b.1 as int) <= hop_cost(a, b) * SCALE,
{
    let dx = b.0 - a.0;
    let dy = b.1 - a.1;
    let m = hop_cost(a, b);
    let n = sq_dist(a.0 as int, a.1 as int, b.0 as int, b.1 as int) * (SCALE * SCALE) as int;
    assert(0 <= n <= (m * SCALE) * (m * SCALE)) by (nonlinear_arith)
        requires
            m == (if dx >= 0 { dx } else { -dx }) + (if dy >= 0 { dy } else { -dy }),
            n == (dx * dx + dy * dy) * 1_000_000_000_000,
            SCALE == 1_000_000,
    ;
    lemma_floor_sqrt_exists(n);
    let r = floor_sqrt(n);
    if r > m * SCALE {
        assert(r * r > (m * SCALE) * (m * SCALE)) by (nonlinear_arith)
            requires
                r > m * SCALE,
                m * SCALE >= 0,
        ;
    }
}

/// On a topology whose monitors share one density of `ppi` thousandths of a pixel per inch, a
/// path's length in micro-inches times that density is at most its search cost in
/// thousandths of micro-pixels.
proof fn lemma_path_length_within_cost(ms: Seq<Monitor>, ppi: int, p: Seq<(i32, i32)>)
    requires
        topology_well_formed(ms),
        forall|k: int| 0 <= k < ms.len() ==> #[trigger] ms[k].ppi_milli == ppi,
    ensures
        path_micro_inches(ms, p) * ppi <= path_cost(p) * SCALE * 1000,
    decreases p.len(),
{
    if p.len() >= 2 {
        lemma_path_length_within_cost(ms, ppi, p.drop_last());
        let a = p[p.len() - 2];
        let b = p[p.len() - 1];
        lemma_first_monitor_from(ms, a.0 as int, a.1 as int, 0);
        lemma_euclid_within_manhattan(a, b);
        lemma_hop_length(ms, a, b);
        if let Some(i) = first_monitor(ms, a.0 as int, a.1 as int) {
            assert(ms[i].well_formed());
            let u = euclid_micro(a.0 as int, a.1 as int, b.0 as int, b.1 as int);
            let e = u * 1000;
            assert(0 <= e <= hop_cost(a, b) * SCALE * 1000) by (nonlinear_arith)
                requires
                    0 <= u <= hop_cost(a, b) * SCALE,
                    e == u * 1000,
            ;
            lemma_fundamental_div_mod(e, ppi);
            lemma_mod_pos_bound(e, ppi);
            assert(hop_micro_inches(ms, a, b) == e / ppi);
            assert((e / ppi) * ppi <= e) by (nonlinear_arith)
                requires
                    e == ppi * (e / ppi) + (e % ppi),
                    0 <= e % ppi,
            ;
        } else {
            assert(hop_cost(a, b) * SCALE * 1000 >= 0) by (nonlinear_arith)
                requires
                    hop_cost(a, b) >= 0,
            ;
        }
        assert(hop_micro_inches(ms, a, b) * ppi <= hop_cost(a, b) * SCALE * 1000);
        assert(path_micro_inches(ms, p) * ppi == path_micro_inches(ms, p.drop_last()) * ppi
            + hop_micro_inches(ms, a, b) * ppi) by (nonlinear_arith)
            requires
                path_micro_inches(ms, p) == path_micro_inches(ms, p.drop_last()) + hop_micro_inches(ms, a, b),
        ;
        assert(path_cost(p) * SCALE * 1000 == path_cost(p.drop_last()) * SCALE * 1000 + hop_cost(a, b)
            * SCALE * 1000) by (nonlinear_arith)
            requires
                path_cost(p) == path_cost(p.drop_last()) + hop_cost(a, b),
        ;
    }
}

/// On a topology whose monitors share one density of `ppi_milli` thousandths of a pixel per
/// inch, a move that stays on the monitors measures at most its Manhattan pixel distance over
/// that density: `d * ppi_milli / 1000 <= (|dx| + |dy|) * 10^6`, with `d` in micro-inches.
pub proof fn lemma_equal_density_distance_bound(
    ms: Seq<Monitor>,
    ppi: int,
    x1: i32,
    y1: i32,
    x2: i32,
    y2: i32,
    r: Result<u64, MonitorError>,
)
    requires
        topology_well_formed(ms),
        forall|k: int| 0 <= k < ms.len() ==> #[trigger] ms[k].ppi_milli == ppi,
        covered(ms, x1 as int, y1 as int),
        covered(ms, x2 as int, y2 as int),
        valid_movement(ms, x1 as int, y1 as int, x2 as int, y2 as int),
        is_distance_result(ms, x1, y1, x2, y2, r),
    ensures
        r is Ok,
        (r->Ok_0 as int) * ppi <= manhattan(x1 as int, y1 as int, x2 as int, y2 as int) * SCALE * 1000,
{
    lemma_first_monitor_from(ms, x1 as int, y1 as int, 0);
    lemma_first_monitor_from(ms, x2 as int, y2 as int, 0);
    let i = first_monitor(ms, x1 as int, y1 as int)->Some_0;
    let j = first_monitor(ms, x2 as int, y2 as int)->Some_0;
    let direct = seq![(x1, y1), (x2, y2)];
    assert(ms[i].well_formed());
    if i == j {
        lemma_euclid_within_manhattan((x1, y1), (x2, y2));
        let u = euclid_micro(x1 as int, y1 as int, x2 as int, y2 as int);
        let e = u * 1000;
        assert(0 <= e <= hop_cost((x1, y1), (x2, y2)) * SCALE * 1000) by (nonlinear_arith)
            requires
                0 <= u <= hop_cost((x1, y1), (x2, y2)) * SCALE,
                e == u * 1000,
        ;
        lemma_fundamental_div_mod(e, ppi);
        lemma_mod_pos_bound(e, ppi);
        lemma_div_is_ordered(0, e, ppi);
        lemma_div_is_ordered_by_denominator(e, 1, ppi);
        assert(hop_cost((x1, y1), (x2, y2)) * SCALE * 1000 < 0x1_0000_0000_0000_0000) by (nonlinear_arith)
            requires
                hop_cost((x1, y1), (x2, y2)) <= 0x2_0000_0000,
                SCALE == 1_000_000,
        ;
        assert((e / ppi) * ppi <= e) by (nonlinear_arith)
            requires
                e == ppi * (e / ppi) + (e % ppi),
                0 <= e % ppi,
        ;
        assert(r == Ok::<u64, MonitorError>((e / ppi) as u64));
        assert(manhattan(x1 as int, y1 as int, x2 as int, y2 as int) == hop_cost((x1, y1), (x2, y2)));
    } else {
        let p = choose|p: Seq<(i32, i32)>|
            #[trigger] is_search_result(ms, x1, y1, x2, y2, p) && r == Ok::<u64, MonitorError>(
                saturate_u64(path_micro_inches(ms, p)) as u64,
            );
        let wp = waypoints(ms, x1, y1, x2, y2);
        assert(wp[0] == (x1, y1) && wp[1] == (x2, y2));
        assert(wp.contains(direct[0]) && wp.contains(direct[1]));
        assert(hop_valid(ms, direct, 0));
        assert(is_waypoint_path(ms, wp, direct));
        assert(leads_to(ms, wp, direct, (x2, y2)));
        assert(direct.drop_last() =~= seq![(x1, y1)]);
        assert(path_cost(seq![(x1, y1)]) == 0);
        assert(path_cost(direct) == manhattan(x1 as int, y1 as int, x2 as int, y2 as int));
        lemma_path_length_within_cost(ms, ppi, p);
        lemma_path_length_nonneg(ms, p);
        assert(path_cost(p) * SCALE * 1000 <= path_cost(direct) * SCALE * 1000) by (nonlinear_arith)
            requires
                path_cost(p) <= path_cost(direct),
        ;
        assert(saturate_u64(path_micro_inches(ms, p)) * ppi <= path_micro_inches(ms, p) * ppi) by (nonlinear_arith)
            requires
                ppi > 0,
                saturate_u64(path_micro_inches(ms, p)) <= path_micro_inches(ms, p),
        ;
        assert(r->Ok_0 as int == saturate_u64(path_micro_inches(ms, p)));
    }
}

/// On an empty topology the distance engine always answers `NoMonitorsFound`.
pub proof fn lemma_empty_topology_fails(
    ms: Seq<Monitor>,
    x1: i32,
    y1: i32,
    x2: i32,
    y2: i32,
    r: Result<u64, MonitorError>,
)
    requires
        ms.len() == 0,
        is_distance_result(ms, x1, y1, x2, y2, r),
    ensures
        r == Err::<u64, MonitorError>(MonitorError::NoMonitorsFound),
{
}

} // verus!
