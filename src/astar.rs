use crate::engine::{distance, sq_dist};
use crate::entity::Tile;
use crate::engine::is_in_map;
use crate::grid::{
    adjacent, grid_shape, in_map, is_walk, leads_back, lemma_index_in_bounds, passable,
    reachable, Point,
};
use vstd::prelude::*;

verus! {

/// Expansions the search may make before it gives up.
pub const MAX_CYCLE: i32 = 4000;

/// The longest grid side the search handles: squared distances on such a
/// grid, plus a step count, fit in an `i32`.
pub const MAX_SIDE: i32 = 30000;

/// A search node: a coordinate with its cost so far (`g`), its score
/// (`f = g + estimate`), its place in the closed list (`id`) and the place
/// of the node it was reached from (`parent`, -1 for the start).
#[derive(Copy, Clone)]
pub struct Node {
    pub id: i32,
    pub x: i32,
    pub y: i32,
    pub f: i32,
    pub g: i32,
    pub parent: i32,
}

/// The neighbour offsets, in the order they are tried.
pub open spec fn step_dx(k: int) -> int {
    if k == 0 || k == 4 || k == 5 {
        1
    } else if k == 1 || k == 6 || k == 7 {
        -1
    } else {
        0
    }
}

/// The row offsets, in the same order.
pub open spec fn step_dy(k: int) -> int {
    if k == 2 || k == 4 || k == 6 {
        1
    } else if k == 3 || k == 5 || k == 7 {
        -1
    } else {
        0
    }
}

/// Where a node stands.
pub open spec fn point_of(n: Node) -> Point {
    Point { x: n.x, y: n.y }
}

spec fn has_point(pts: Seq<Point>, x: int, y: int) -> bool {
    exists|t: int| 0 <= t < pts.len() && pts[t].x == x && pts[t].y == y
}

/// Some node of `nodes` stands at `(x, y)`.
pub open spec fn has_coord(nodes: Seq<Node>, x: int, y: int) -> bool {
    exists|j: int| 0 <= j < nodes.len() && nodes[j].x == x && nodes[j].y == y
}

/// The node the search starts from.
pub open spec fn start_node(start: Point) -> Node {
    Node { id: 0i32, x: start.x, y: start.y, f: 0i32, g: 0i32, parent: -1i32 }
}

/// The passable neighbours of `(x, y)` among the first `k` offsets, in the
/// order tried.
pub open spec fn children_upto(grid: Seq<Tile>, w: int, h: int, x: int, y: int, k: int) -> Seq<
    Point,
>
    decreases k,
{
    if k <= 0 {
        Seq::empty()
    } else {
        let c = children_upto(grid, w, h, x, y, k - 1);
        if passable(grid, w, h, x + step_dx(k - 1), y + step_dy(k - 1)) {
            c.push(Point { x: (x + step_dx(k - 1)) as i32, y: (y + step_dy(k - 1)) as i32 })
        } else {
            c
        }
    }
}

/// The index of the first node with the lowest score among the first `i`.
pub open spec fn best_upto(nodes: Seq<Node>, i: int) -> int
    decreases i,
{
    if i <= 0 {
        0
    } else {
        let b = best_upto(nodes, i - 1);
        if nodes[i - 1].f < nodes[b].f {
            i - 1
        } else {
            b
        }
    }
}

/// The open node made for neighbour `c` of `current`.
pub open spec fn child_node(current: Node, c: Point, goal: Point) -> Node {
    Node {
        id: -1i32,
        x: c.x,
        y: c.y,
        g: (current.g + 1) as i32,
        f: (current.g + 1 + sq_dist(c.x as int, c.y as int, goal.x as int, goal.y as int)) as i32,
        parent: current.id,
    }
}

/// The open list after the first `t` neighbours of `current` are offered:
/// one that is closed, or that the open list already reaches at a lower
/// cost, is skipped; any other is pushed.
pub open spec fn expanded(
    open: Seq<Node>,
    closed: Seq<Node>,
    current: Node,
    children: Seq<Point>,
    goal: Point,
    t: int,
) -> Seq<Node>
    decreases t,
{
    if t <= 0 {
        open
    } else {
        let o = expanded(open, closed, current, children, goal, t - 1);
        let c = children[t - 1];
        if has_coord(closed, c.x as int, c.y as int) {
            o
        } else if exists|j: int|
            0 <= j < o.len() && o[j].x == c.x && o[j].y == c.y && o[j].g < current.g + 1 {
            o
        } else {
            o.push(child_node(current, c, goal))
        }
    }
}

/// One expansion, from open and closed lists with something open: the best
/// open node is closed under the next id; the search has found the goal
/// if that node stands on it, else the node's neighbours are offered.
/// The result is the new open list, closed list, and whether it found the
/// goal.
pub open spec fn advance(
    grid: Seq<Tile>,
    w: int,
    h: int,
    goal: Point,
    open: Seq<Node>,
    closed: Seq<Node>,
) -> (Seq<Node>, Seq<Node>, bool) {
    let b = best_upto(open, open.len() as int);
    let cur = Node { id: closed.len() as i32, ..open[b] };
    let closed2 = closed.push(cur);
    let open2 = open.remove(b);
    if cur.x == goal.x && cur.y == goal.y {
        (open2, closed2, true)
    } else {
        let ch = children_upto(grid, w, h, cur.x as int, cur.y as int, 8);
        (expanded(open2, closed2, cur, ch, goal, ch.len() as int), closed2, false)
    }
}

/// The search after `n` expansions, with no budget: it stands still once
/// it has found the goal or has nothing left open.
pub open spec fn explore(grid: Seq<Tile>, w: int, h: int, start: Point, goal: Point, n: nat) -> (
    Seq<Node>,
    Seq<Node>,
    bool,
)
    decreases n,
{
    if n == 0 {
        (seq![start_node(start)], Seq::empty(), false)
    } else {
        let s = explore(grid, w, h, start, goal, (n - 1) as nat);
        if s.2 || s.0.len() == 0 {
            s
        } else {
            advance(grid, w, h, goal, s.0, s.1)
        }
    }
}

/// The search has neither found the goal nor run out of open nodes within
/// `MAX_CYCLE` expansions, so it gives up.
pub open spec fn budget_exhausted(grid: Seq<Tile>, w: int, h: int, start: Point, goal: Point) -> bool {
    let s = explore(grid, w, h, start, goal, MAX_CYCLE as nat);
    !s.2 && s.0.len() > 0
}

/// The chain of closed nodes from node `i` back through the parents.
pub open spec fn route_from(closed: Seq<Node>, i: int) -> Seq<Point>
    decreases i,
{
    if 0 <= closed[i].parent < i {
        seq![point_of(closed[i])] + route_from(closed, closed[i].parent as int)
    } else {
        seq![point_of(closed[i])]
    }
}

/// The route the search returns: empty when the goal is not passable or
/// the budget runs out, else the chain back from the last closed node.
pub open spec fn astar_route(grid: Seq<Tile>, w: int, h: int, start: Point, goal: Point) -> Seq<
    Point,
> {
    let s = explore(grid, w, h, start, goal, MAX_CYCLE as nat);
    if !passable(grid, w, h, goal.x as int, goal.y as int) || budget_exhausted(
        grid,
        w,
        h,
        start,
        goal,
    ) || s.1.len() == 0 {
        Seq::empty()
    } else {
        route_from(s.1, s.1.len() - 1)
    }
}

fn step(k: usize) -> (r: (i32, i32))
    requires
        k < 8,
    ensures
        r.0 == step_dx(k as int),
        r.1 == step_dy(k as int),
{
    match k {
        0 => (1, 0),
        1 => (-1, 0),
        2 => (0, 1),
        3 => (0, -1),
        4 => (1, 1),
        5 => (1, -1),
        6 => (-1, 1),
        _ => (-1, -1),
    }
}

/// The neighbours of `(x, y)` that the search may enter, in the order tried.
fn passable_children(x: i32, y: i32, level_map: &Vec<Tile>, w: i32, h: i32) -> (c: Vec<Point>)
    requires
        grid_shape(level_map@.len() as int, w as int, h as int),
    ensures
        forall|t: int|
            0 <= t < c@.len() ==> {
                &&& passable(level_map@, w as int, h as int, c@[t].x as int, c@[t].y as int)
                &&& adjacent(c@[t], Point { x, y })
            },
        forall|k: int|
            0 <= k < 8 && passable(
                level_map@,
                w as int,
                h as int,
                x + step_dx(k),
                y + step_dy(k),
            ) ==> has_point(c@, x + step_dx(k), y + step_dy(k)),
        c@ == children_upto(level_map@, w as int, h as int, x as int, y as int, 8),
{
    let mut children: Vec<Point> = Vec::new();
    let n = level_map.len();
    let mut k: usize = 0;
    while k < 8
        invariant
            k <= 8,
            n == level_map@.len(),
            grid_shape(level_map@.len() as int, w as int, h as int),
            forall|t: int|
                0 <= t < children@.len() ==> {
                    &&& passable(
                        level_map@,
                        w as int,
                        h as int,
                        children@[t].x as int,
                        children@[t].y as int,
                    )
                    &&& adjacent(children@[t], Point { x, y })
                },
            forall|k2: int|
                0 <= k2 < k && passable(
                    level_map@,
                    w as int,
                    h as int,
                    x + step_dx(k2),
                    y + step_dy(k2),
                ) ==> has_point(children@, x + step_dx(k2), y + step_dy(k2)),
            children@ == children_upto(level_map@, w as int, h as int, x as int, y as int, k as int),
        decreases 8 - k,
    {
        let d = step(k);
        let nx = x as i64 + d.0 as i64;
        let ny = y as i64 + d.1 as i64;
        if nx >= 0 && nx < w as i64 && ny >= 0 && ny < h as i64 {
            proof {
                lemma_index_in_bounds(nx as int, ny as int, w as int, h as int);
                assert(w * h < 0x4000_0000_0000_0000) by (nonlinear_arith)
                    requires
                        0 <= w < 0x8000_0000,
                        0 <= h < 0x8000_0000,
                ;
            }
            let z = ny * w as i64 + nx;
            assert(z < n);
            let t = &level_map[z as usize];
            if t.crossable && t.visited {
                let ghost before = children@;
                children.push(Point { x: nx as i32, y: ny as i32 });
                assert forall|k2: int|
                    0 <= k2 < k + 1 && passable(
                        level_map@,
                        w as int,
                        h as int,
                        x + step_dx(k2),
                        y + step_dy(k2),
                    ) implies has_point(children@, x + step_dx(k2), y + step_dy(k2)) by {
                    if k2 < k {
                        let t2 = choose|t2: int|
                            0 <= t2 < before.len() && before[t2].x == x + step_dx(k2)
                                && before[t2].y == y + step_dy(k2);
                        assert(children@[t2] == before[t2]);
                    } else {
                        assert(children@[before.len() as int].x == x + step_dx(k2));
                    }
                }
            }
        }
        k = k + 1;
    }
    children
}

/// Whether some node of `nodes` stands at `(x, y)`.
fn contains_coord(nodes: &Vec<Node>, x: i32, y: i32) -> (r: bool)
    ensures
        r == has_coord(nodes@, x as int, y as int),
{
    let mut i: usize = 0;
    while i < nodes.len()
        invariant
            i <= nodes@.len(),
            forall|j: int| 0 <= j < i ==> !(nodes@[j].x == x && nodes@[j].y == y),
        decreases nodes@.len() - i,
    {
        if nodes[i].x == x && nodes[i].y == y {
            return true;
        }
        i = i + 1;
    }
    false
}

/// Whether the open list already reaches `(x, y)` at a cost below `g`.
fn has_cheaper(nodes: &Vec<Node>, x: i32, y: i32, g: i32) -> (r: bool)
    ensures
        r == exists|j: int|
            0 <= j < nodes@.len() && nodes@[j].x == x && nodes@[j].y == y && nodes@[j].g < g,
{
    let mut out = false;
    let mut i: usize = 0;
    while i < nodes.len()
        invariant
            i <= nodes@.len(),
            out == exists|j: int|
                0 <= j < i && nodes@[j].x == x && nodes@[j].y == y && nodes@[j].g < g,
        decreases nodes@.len() - i,
    {
        if nodes[i].x == x && nodes[i].y == y && nodes[i].g < g {
            out = true;
        }
        i = i + 1;
    }
    out
}

/// The index of the first node with the lowest score.
fn best_index(nodes: &Vec<Node>) -> (b: usize)
    requires
        nodes@.len() > 0,
    ensures
        b < nodes@.len(),
        forall|j: int| 0 <= j < nodes@.len() ==> nodes@[b as int].f <= nodes@[j].f,
        forall|j: int| 0 <= j < b ==> nodes@[j].f > nodes@[b as int].f,
        b == best_upto(nodes@, nodes@.len() as int),
{
    let mut best: usize = 0;
    let mut i: usize = 0;
    while i < nodes.len()
        invariant
            i <= nodes@.len(),
            best < nodes@.len(),
            best <= i,
            forall|j: int| 0 <= j < i ==> nodes@[best as int].f <= nodes@[j].f,
            forall|j: int| 0 <= j < best ==> nodes@[j].f > nodes@[best as int].f,
            best == best_upto(nodes@, i as int),
        decreases nodes@.len() - i,
    {
        if nodes[i].f < nodes[best].f {
            best = i;
        }
        i = i + 1;
    }
    best
}

spec fn covered(closed: Seq<Node>, open: Seq<Node>, x: int, y: int) -> bool {
    has_coord(closed, x, y) || has_coord(open, x, y)
}

/// The `k`-th neighbour of `n` is passable.
spec fn neighbour_passable(grid: Seq<Tile>, w: int, h: int, n: Node, k: int) -> bool {
    passable(grid, w, h, n.x + step_dx(k), n.y + step_dy(k))
}

/// `b` keeps `a` as its prefix.
spec fn extends(a: Seq<Node>, b: Seq<Node>) -> bool {
    a.len() <= b.len() && forall|j: int| 0 <= j < a.len() ==> b[j] == a[j]
}

proof fn lemma_has_coord_extends(a: Seq<Node>, b: Seq<Node>, x: int, y: int)
    requires
        extends(a, b),
        has_coord(a, x, y),
    ensures
        has_coord(b, x, y),
{
    let j = choose|j: int| 0 <= j < a.len() && a[j].x == x && a[j].y == y;
    assert(b[j] == a[j]);
}

/// Push each passable neighbour of `current` onto the open list, unless it
/// is closed already or the open list reaches it more cheaply.
fn expand(
    open_list: &mut Vec<Node>,
    closed_list: &Vec<Node>,
    current: Node,
    level_map: &Vec<Tile>,
    w: i32,
    h: i32,
    x_goal: i32,
    y_goal: i32,
)
    requires
        grid_shape(level_map@.len() as int, w as int, h as int),
        w <= MAX_SIDE,
        h <= MAX_SIDE,
        in_map(x_goal as int, y_goal as int, w as int, h as int),
        0 <= current.g < MAX_CYCLE,
    ensures
        extends(old(open_list)@, final(open_list)@),
        forall|j: int|
            old(open_list)@.len() <= j < final(open_list)@.len() ==> {
                let n = #[trigger] final(open_list)@[j];
                &&& n.parent == current.id
                &&& n.g == current.g + 1
                &&& n.f == n.g + sq_dist(n.x as int, n.y as int, x_goal as int, y_goal as int)
                &&& passable(level_map@, w as int, h as int, n.x as int, n.y as int)
                &&& adjacent(point_of(n), point_of(current))
                &&& !has_coord(closed_list@, n.x as int, n.y as int)
            },
        forall|k: int|
            0 <= k < 8 && neighbour_passable(level_map@, w as int, h as int, current, k)
                ==> covered(
                closed_list@,
                final(open_list)@,
                current.x + step_dx(k),
                current.y + step_dy(k),
            ),
        ({
            let ch = children_upto(level_map@, w as int, h as int, current.x as int, current.y as int, 8);
            final(open_list)@ == expanded(
                old(open_list)@,
                closed_list@,
                current,
                ch,
                Point { x: x_goal, y: y_goal },
                ch.len() as int,
            )
        }),
{
    let children = passable_children(current.x, current.y, level_map, w, h);
    let ghost start_open = open_list@;
    let mut t: usize = 0;
    while t < children.len()
        invariant
            t <= children@.len(),
            grid_shape(level_map@.len() as int, w as int, h as int),
            w <= MAX_SIDE,
            h <= MAX_SIDE,
            in_map(x_goal as int, y_goal as int, w as int, h as int),
            0 <= current.g < MAX_CYCLE,
            forall|t2: int|
                0 <= t2 < children@.len() ==> {
                    &&& passable(
                        level_map@,
                        w as int,
                        h as int,
                        children@[t2].x as int,
                        children@[t2].y as int,
                    )
                    &&& adjacent(children@[t2], point_of(current))
                },
            extends(start_open, open_list@),
            forall|j: int|
                start_open.len() <= j < open_list@.len() ==> {
                    let n = #[trigger] open_list@[j];
                    &&& n.parent == current.id
                    &&& n.g == current.g + 1
                    &&& n.f == n.g + sq_dist(n.x as int, n.y as int, x_goal as int, y_goal as int)
                    &&& passable(level_map@, w as int, h as int, n.x as int, n.y as int)
                    &&& adjacent(point_of(n), point_of(current))
                    &&& !has_coord(closed_list@, n.x as int, n.y as int)
                },
            forall|t2: int|
                0 <= t2 < t ==> covered(
                    closed_list@,
                    open_list@,
                    children@[t2].x as int,
                    children@[t2].y as int,
                ),
            open_list@ == expanded(
                start_open,
                closed_list@,
                current,
                children@,
                Point { x: x_goal, y: y_goal },
                t as int,
            ),
        decreases children@.len() - t,
    {
        let c = children[t];
        if !contains_coord(closed_list, c.x, c.y) {
            let g = current.g + 1;
            proof {
                assert(sq_dist(c.x as int, c.y as int, x_goal as int, y_goal as int) <= 1_800_000_000)
                    by (nonlinear_arith)
                    requires
                        0 <= c.x < w <= 30000,
                        0 <= c.y < h <= 30000,
                        0 <= x_goal < w,
                        0 <= y_goal < h,
                ;
            }
            let hv = distance(c.x, c.y, x_goal, y_goal);
            let f = g + hv;
            if !has_cheaper(open_list, c.x, c.y, g) {
                let ghost before = open_list@;
                open_list.push(Node { x: c.x, y: c.y, f: f, g: g, id: -1, parent: current.id });
                proof {
                    assert(extends(before, open_list@));
                    assert forall|t2: int|
                        0 <= t2 < t + 1 implies covered(
                        closed_list@,
                        open_list@,
                        children@[t2].x as int,
                        children@[t2].y as int,
                    ) by {
                        if t2 < t {
                            if has_coord(before, children@[t2].x as int, children@[t2].y as int) {
                                lemma_has_coord_extends(
                                    before,
                                    open_list@,
                                    children@[t2].x as int,
                                    children@[t2].y as int,
                                );
                            }
                        } else {
                            assert(open_list@[before.len() as int].x == c.x);
                        }
                    }
                }
            }
        }
        t = t + 1;
    }
    proof {
        assert forall|k: int|
            0 <= k < 8 && neighbour_passable(level_map@, w as int, h as int, current, k)
                implies covered(
            closed_list@,
            open_list@,
            current.x + step_dx(k),
            current.y + step_dy(k),
        ) by {
            let t2 = choose|t2: int|
                0 <= t2 < children@.len() && children@[t2].x == current.x + step_dx(k)
                    && children@[t2].y == current.y + step_dy(k);
        }
    }
}

/// `n` was reached from a closed node below `bound` that it touches, or it
/// is the start.
spec fn linked(
    grid: Seq<Tile>,
    w: int,
    h: int,
    n: Node,
    closed: Seq<Node>,
    bound: int,
    start: Point,
) -> bool {
    if n.parent == -1 {
        n.x == start.x && n.y == start.y && n.g == 0
    } else {
        &&& 0 <= n.parent < bound
        &&& passable(grid, w, h, n.x as int, n.y as int)
        &&& adjacent(point_of(n), point_of(closed[n.parent as int]))
        &&& n.g == closed[n.parent as int].g + 1
    }
}

/// Each closed node sits at its own id and links back to an earlier one.
spec fn closed_ok(grid: Seq<Tile>, w: int, h: int, closed: Seq<Node>, start: Point) -> bool {
    forall|i: int|
        0 <= i < closed.len() ==> {
            &&& (#[trigger] closed[i]).id == i
            &&& 0 <= closed[i].g <= i
            &&& linked(grid, w, h, closed[i], closed, i, start)
        }
}

/// Each open node links back to a closed node.
spec fn open_ok(
    grid: Seq<Tile>,
    w: int,
    h: int,
    open: Seq<Node>,
    closed: Seq<Node>,
    start: Point,
    goal: Point,
) -> bool {
    forall|j: int|
        0 <= j < open.len() ==> {
            &&& 0 <= (#[trigger] open[j]).g <= closed.len()
            &&& linked(grid, w, h, open[j], closed, closed.len() as int, start)
            &&& open[j].parent != -1 ==> open[j].f == open[j].g + sq_dist(
                open[j].x as int,
                open[j].y as int,
                goal.x as int,
                goal.y as int,
            )
            &&& closed.len() > 0 ==> open[j].parent != -1
            &&& closed.len() == 1 ==> open[j].g == 1
        }
}

/// Every passable neighbour of a closed node is closed or open.
spec fn closed_under(grid: Seq<Tile>, w: int, h: int, closed: Seq<Node>, open: Seq<Node>) -> bool {
    forall|i: int, k: int|
        0 <= i < closed.len() && 0 <= k < 8 && #[trigger] neighbour_passable(
            grid,
            w,
            h,
            closed[i],
            k,
        ) ==> covered(closed, open, closed[i].x + step_dx(k), closed[i].y + step_dy(k))
}

/// No closed node stands on the goal.
spec fn avoids(closed: Seq<Node>, goal: Point) -> bool {
    forall|i: int| 0 <= i < closed.len() ==> !((#[trigger] closed[i]).x == goal.x && closed[i].y == goal.y)
}

/// The place of an offset among the neighbour offsets.
spec fn step_index(dx: int, dy: int) -> int {
    if dx == 1 && dy == 0 {
        0
    } else if dx == -1 && dy == 0 {
        1
    } else if dx == 0 && dy == 1 {
        2
    } else if dx == 0 && dy == -1 {
        3
    } else if dx == 1 && dy == 1 {
        4
    } else if dx == 1 && dy == -1 {
        5
    } else if dx == -1 && dy == 1 {
        6
    } else {
        7
    }
}

proof fn lemma_covered_after_select(
    closed: Seq<Node>,
    open: Seq<Node>,
    b: int,
    cur: Node,
    x: int,
    y: int,
)
    requires
        0 <= b < open.len(),
        cur.x == open[b].x,
        cur.y == open[b].y,
        covered(closed, open, x, y),
    ensures
        covered(closed.push(cur), open.remove(b), x, y),
{
    let cl2 = closed.push(cur);
    let ol2 = open.remove(b);
    if has_coord(closed, x, y) {
        let j = choose|j: int| 0 <= j < closed.len() && closed[j].x == x && closed[j].y == y;
        assert(cl2[j] == closed[j]);
    } else {
        let j = choose|j: int| 0 <= j < open.len() && open[j].x == x && open[j].y == y;
        if j == b {
            assert(cl2[closed.len() as int] == cur);
        } else if j < b {
            assert(ol2[j] == open[j]);
        } else {
            assert(ol2[j - 1] == open[j]);
        }
    }
}

/// No coordinate appears twice in `s`.
pub open spec fn no_repeats(s: Seq<Point>) -> bool {
    forall|i: int, j: int| 0 <= i < j < s.len() ==> s[i] != s[j]
}

/// `n` stands on none of the cells of its parent's chain.
spec fn fresh(closed: Seq<Node>, n: Node) -> bool {
    n.parent == -1 || !route_from(closed, n.parent as int).contains(point_of(n))
}

spec fn all_fresh(closed: Seq<Node>, nodes: Seq<Node>) -> bool {
    forall|j: int| 0 <= j < nodes.len() ==> fresh(closed, #[trigger] nodes[j])
}

/// A chain only reads nodes at or below where it starts.
proof fn lemma_route_from_push(closed: Seq<Node>, x: Node, i: int)
    requires
        0 <= i < closed.len(),
    ensures
        route_from(closed.push(x), i) == route_from(closed, i),
    decreases i,
{
    assert(closed.push(x)[i] == closed[i]);
    if 0 <= closed[i].parent < i {
        lemma_route_from_push(closed, x, closed[i].parent as int);
    }
}

/// Every cell of a chain is the cell of a closed node.
proof fn lemma_route_cells_closed(closed: Seq<Node>, i: int)
    requires
        0 <= i < closed.len(),
    ensures
        forall|k: int|
            0 <= k < route_from(closed, i).len() ==> has_coord(
                closed,
                #[trigger] route_from(closed, i)[k].x as int,
                route_from(closed, i)[k].y as int,
            ),
    decreases i,
{
    let r = route_from(closed, i);
    if 0 <= closed[i].parent < i {
        let p = closed[i].parent as int;
        lemma_route_cells_closed(closed, p);
        assert forall|k: int| 0 <= k < r.len() implies has_coord(
            closed,
            #[trigger] r[k].x as int,
            r[k].y as int,
        ) by {
            if k == 0 {
                assert(closed[i].x == r[0].x);
            } else {
                assert(r[k] == route_from(closed, p)[k - 1]);
            }
        }
    } else {
        assert(closed[i].x == r[0].x);
    }
}

/// A chain of closed nodes leads back to the start over passable,
/// adjacent cells.
proof fn lemma_route_leads_back(
    grid: Seq<Tile>,
    w: int,
    h: int,
    closed: Seq<Node>,
    start: Point,
    i: int,
)
    requires
        closed_ok(grid, w, h, closed, start),
        0 <= i < closed.len(),
    ensures
        leads_back(grid, w, h, route_from(closed, i), start),
    decreases i,
{
    let r = route_from(closed, i);
    let n = closed[i];
    assert(linked(grid, w, h, n, closed, i, start));
    if 0 <= n.parent < i {
        let p = n.parent as int;
        let rp = route_from(closed, p);
        lemma_route_leads_back(grid, w, h, closed, start, p);
        assert forall|k: int| 0 <= k < r.len() - 1 implies {
            &&& #[trigger] adjacent(r[k], r[k + 1])
            &&& passable(grid, w, h, r[k].x as int, r[k].y as int)
        } by {
            if k == 0 {
                assert(r[1] == rp[0]);
            } else {
                assert(r[k] == rp[k - 1]);
                assert(r[k + 1] == rp[k - 1 + 1]);
                assert(adjacent(rp[k - 1], rp[k - 1 + 1]));
            }
        }
        assert(r.last() == rp.last());
    }
}

/// A chain of fresh nodes never comes back to a cell.
proof fn lemma_route_no_repeats(closed: Seq<Node>, i: int)
    requires
        0 <= i < closed.len(),
        all_fresh(closed, closed),
    ensures
        no_repeats(route_from(closed, i)),
    decreases i,
{
    let r = route_from(closed, i);
    assert(fresh(closed, closed[i]));
    if 0 <= closed[i].parent < i {
        let p = closed[i].parent as int;
        let rp = route_from(closed, p);
        lemma_route_no_repeats(closed, p);
        assert forall|a: int, b: int| 0 <= a < b < r.len() implies r[a] != r[b] by {
            assert(r[b] == rp[b - 1]);
            if a == 0 {
                assert(!rp.contains(point_of(closed[i])));
            } else {
                assert(r[a] == rp[a - 1]);
            }
        }
    }
}

/// Once the search has found the goal or has nothing left open, further
/// expansions leave it as it is.
proof fn lemma_explore_settles(
    grid: Seq<Tile>,
    w: int,
    h: int,
    start: Point,
    goal: Point,
    n: nat,
    m: nat,
)
    requires
        n <= m,
        explore(grid, w, h, start, goal, n).2 || explore(grid, w, h, start, goal, n).0.len() == 0,
    ensures
        explore(grid, w, h, start, goal, m) == explore(grid, w, h, start, goal, n),
    decreases m,
{
    if m > n {
        lemma_explore_settles(grid, w, h, start, goal, n, (m - 1) as nat);
    }
}

/// When nothing is left open, every coordinate a walk from a closed
/// coordinate visits is closed too.
proof fn lemma_walk_stays_closed(
    grid: Seq<Tile>,
    w: int,
    h: int,
    closed: Seq<Node>,
    open: Seq<Node>,
    steps: Seq<Point>,
    i: int,
)
    requires
        open.len() == 0,
        closed_under(grid, w, h, closed, open),
        is_walk(grid, w, h, steps),
        0 <= i < steps.len(),
        has_coord(closed, steps[0].x as int, steps[0].y as int),
    ensures
        has_coord(closed, steps[i].x as int, steps[i].y as int),
    decreases i,
{
    if i > 0 {
        lemma_walk_stays_closed(grid, w, h, closed, open, steps, i - 1);
        let a = steps[i - 1];
        let b = steps[i];
        assert(adjacent(steps[i - 1], steps[i - 1 + 1]));
        assert(passable(grid, w, h, steps[i].x as int, steps[i].y as int));
        let m = choose|m: int| 0 <= m < closed.len() && closed[m].x == a.x && closed[m].y == a.y;
        let k = step_index(b.x - a.x, b.y - a.y);
        assert(step_dx(k) == b.x - a.x && step_dy(k) == b.y - a.y);
        assert(neighbour_passable(grid, w, h, closed[m], k));
    }
}

/// Pathfinding with A*: the route found from `(x_entity, y_entity)` to the
/// goal `(x_mouse, y_mouse)`, listed from its last coordinate back to the
/// start. It is exactly the route of the search model (`astar_route`). The
/// route is empty when the goal is off the grid, not crossable or never
/// seen, and otherwise only when the search runs out of expansions. When
/// the search runs out of open nodes first, the route leads to the last node
/// it closed, which is not the goal: the goal cannot be reached then.
pub fn path_finder(
    x_entity: i32,
    y_entity: i32,
    x_mouse: i32,
    y_mouse: i32,
    level_map: &Vec<Tile>,
    w: i32,
    h: i32,
) -> (path: Vec<Point>)
    requires
        grid_shape(level_map@.len() as int, w as int, h as int),
        w <= MAX_SIDE,
        h <= MAX_SIDE,
    ensures
        !passable(level_map@, w as int, h as int, x_mouse as int, y_mouse as int) ==> path@.len()
            == 0,
        leads_back(level_map@, w as int, h as int, path@, Point { x: x_entity, y: y_entity }),
        passable(level_map@, w as int, h as int, x_mouse as int, y_mouse as int) && reachable(
            level_map@,
            w as int,
            h as int,
            Point { x: x_entity, y: y_entity },
            Point { x: x_mouse, y: y_mouse },
        ) ==> path@.len() == 0 || path@[0] == (Point { x: x_mouse, y: y_mouse }),
        passable(level_map@, w as int, h as int, x_mouse as int, y_mouse as int) && x_entity
            == x_mouse && y_entity == y_mouse ==> path@ == seq![Point { x: x_entity, y: y_entity }],
        passable(level_map@, w as int, h as int, x_mouse as int, y_mouse as int) && adjacent(
            Point { x: x_entity, y: y_entity },
            Point { x: x_mouse, y: y_mouse },
        ) ==> path@ == seq![Point { x: x_mouse, y: y_mouse }, Point { x: x_entity, y: y_entity }],
        path@ == astar_route(
            level_map@,
            w as int,
            h as int,
            Point { x: x_entity, y: y_entity },
            Point { x: x_mouse, y: y_mouse },
        ),
        passable(level_map@, w as int, h as int, x_mouse as int, y_mouse as int) && path@.len()
            == 0 ==> budget_exhausted(
            level_map@,
            w as int,
            h as int,
            Point { x: x_entity, y: y_entity },
            Point { x: x_mouse, y: y_mouse },
        ),
        passable(level_map@, w as int, h as int, x_mouse as int, y_mouse as int) && reachable(
            level_map@,
            w as int,
            h as int,
            Point { x: x_entity, y: y_entity },
            Point { x: x_mouse, y: y_mouse },
        ) && !budget_exhausted(
            level_map@,
            w as int,
            h as int,
            Point { x: x_entity, y: y_entity },
            Point { x: x_mouse, y: y_mouse },
        ) ==> path@.len() > 0 && path@[0] == (Point { x: x_mouse, y: y_mouse }),
        path@.len() <= MAX_CYCLE,
        no_repeats(path@),
{
    let ghost grid = level_map@;
    let ghost sp = Point { x: x_entity, y: y_entity };
    let ghost gp = Point { x: x_mouse, y: y_mouse };
    let mut path: Vec<Point> = Vec::new();
    let mut open_list: Vec<Node> = Vec::new();
    let mut closed_list: Vec<Node> = Vec::new();

    // The starting point is the only open node at first.
    let start = Node { x: x_entity, y: y_entity, f: 0, g: 0, id: 0, parent: -1 };
    open_list.push(start);

    let mut id: i32 = 0;

    let mut gate = false;
    if is_in_map(x_mouse, y_mouse, w, h) {
        proof {
            lemma_index_in_bounds(x_mouse as int, y_mouse as int, w as int, h as int);
            assert(w * h < 0x4000_0000_0000_0000) by (nonlinear_arith)
                requires
                    0 <= w < 0x8000_0000,
                    0 <= h < 0x8000_0000,
            ;
        }
        let n = level_map.len();
        let z = y_mouse as i64 * w as i64 + x_mouse as i64;
        assert(z < n);
        gate = level_map[z as usize].crossable && level_map[z as usize].visited;
    }
    assert(gate == passable(grid, w as int, h as int, x_mouse as int, y_mouse as int));

    if gate {
        let mut cycle: i32 = 0;
        while open_list.len() > 0
            invariant_except_break
                cycle == closed_list@.len(),
                id == cycle,
                cycle <= MAX_CYCLE,
                open_ok(grid, w as int, h as int, open_list@, closed_list@, sp, gp),
                closed_under(grid, w as int, h as int, closed_list@, open_list@),
                avoids(closed_list@, gp),
                closed_list@.len() == 0 ==> open_list@ == seq![start],
                sp == gp ==> closed_list@.len() == 0,
                adjacent(sp, gp) ==> closed_list@.len() <= 1,
                adjacent(sp, gp) && closed_list@.len() == 1 ==> has_coord(
                    open_list@,
                    x_mouse as int,
                    y_mouse as int,
                ),
                explore(grid, w as int, h as int, sp, gp, cycle as nat) == (
                    open_list@,
                    closed_list@,
                    false,
                ),
                open_list@.len() == 0 ==> explore(grid, w as int, h as int, sp, gp, MAX_CYCLE as nat)
                    == explore(grid, w as int, h as int, sp, gp, cycle as nat),
                all_fresh(closed_list@, open_list@),
                all_fresh(closed_list@, closed_list@),
            invariant
                grid == level_map@,
                sp == (Point { x: x_entity, y: y_entity }),
                gp == (Point { x: x_mouse, y: y_mouse }),
                start == (Node { x: x_entity, y: y_entity, f: 0i32, g: 0i32, id: 0i32, parent: -1i32 }),
                grid_shape(grid.len() as int, w as int, h as int),
                w <= MAX_SIDE,
                h <= MAX_SIDE,
                passable(grid, w as int, h as int, x_mouse as int, y_mouse as int),
                closed_ok(grid, w as int, h as int, closed_list@, sp),
            ensures
                closed_list@.len() == 0 || (closed_list@.last().x == x_mouse
                    && closed_list@.last().y == y_mouse) || (open_list@.len() == 0 && closed_under(
                    grid,
                    w as int,
                    h as int,
                    closed_list@,
                    open_list@,
                ) && avoids(closed_list@, gp)),
                sp == gp ==> closed_list@.len() == 1,
                adjacent(sp, gp) ==> closed_list@.len() == 2 && closed_list@[1].x == x_mouse
                    && closed_list@[1].y == y_mouse,
                closed_list@.len() <= MAX_CYCLE,
                !budget_exhausted(grid, w as int, h as int, sp, gp) ==> closed_list@.len() > 0,
                all_fresh(closed_list@, closed_list@),
                (closed_list@.len() == 0 && budget_exhausted(grid, w as int, h as int, sp, gp)) || (
                closed_list@ == explore(grid, w as int, h as int, sp, gp, MAX_CYCLE as nat).1
                    && !budget_exhausted(grid, w as int, h as int, sp, gp)),
            decreases MAX_CYCLE - cycle,
        {
            proof {
                if closed_list@.len() > 0 {
                    assert(closed_list@[0].id == 0);
                    assert(!(closed_list@[0].x == gp.x && closed_list@[0].y == gp.y));
                }
                assert(sp == gp ==> closed_list@.len() == 0);
            }
            let ghost before = cycle;
            // Give up after a fixed number of expansions.
            cycle = cycle + 1;
            if cycle > MAX_CYCLE {
                assert(before == MAX_CYCLE);
                closed_list.clear();
                break;
            }

            // Choose the node with the best score and close it.
            let best = best_index(&open_list);
            let ghost cl0 = closed_list@;
            let ghost ol0 = open_list@;
            proof {
                if adjacent(sp, gp) && cl0.len() == 1 {
                    let j = choose|j: int|
                        0 <= j < ol0.len() && ol0[j].x == x_mouse && ol0[j].y == y_mouse;
                    let nb = ol0[best as int];
                    assert(ol0[j].f == 1);
                    assert(nb.f == 1 + sq_dist(nb.x as int, nb.y as int, x_mouse as int, y_mouse as int));
                    assert(nb.x == x_mouse && nb.y == y_mouse) by (nonlinear_arith)
                        requires
                            nb.f <= 1,
                            nb.f == 1 + sq_dist(nb.x as int, nb.y as int, x_mouse as int, y_mouse as int),
                    ;
                }
            }
            let mut current_node = open_list.remove(best);
            current_node.id = id;
            closed_list.push(current_node);
            id = id + 1;
            proof {
                assert(open_list@ == ol0.remove(best as int));
                assert(closed_list@ == cl0.push(current_node));
                assert(0 <= ol0[best as int].g <= cl0.len());
                assert(linked(grid, w as int, h as int, ol0[best as int], cl0, cl0.len() as int, sp));
                assert forall|i: int| 0 <= i < closed_list@.len() implies {
                    &&& (#[trigger] closed_list@[i]).id == i
                    &&& 0 <= closed_list@[i].g <= i
                    &&& linked(grid, w as int, h as int, closed_list@[i], closed_list@, i, sp)
                } by {
                    if i < cl0.len() {
                        assert(closed_list@[i] == cl0[i]);
                        if cl0[i].parent != -1 {
                            assert(closed_list@[cl0[i].parent as int] == cl0[cl0[i].parent as int]);
                        }
                    } else {
                        if current_node.parent != -1 {
                            assert(closed_list@[current_node.parent as int]
                                == cl0[current_node.parent as int]);
                        }
                    }
                }
                assert(closed_ok(grid, w as int, h as int, closed_list@, sp));
            }

            proof {
                assert forall|i: int| 0 <= i < closed_list@.len() implies fresh(
                    closed_list@,
                    #[trigger] closed_list@[i],
                ) by {
                    let n = closed_list@[i];
                    assert(linked(grid, w as int, h as int, n, closed_list@, i, sp));
                    if i < cl0.len() {
                        assert(n == cl0[i]);
                        assert(fresh(cl0, cl0[i]));
                    } else {
                        assert(n == current_node);
                        assert(fresh(cl0, ol0[best as int]));
                    }
                    if n.parent != -1 {
                        lemma_route_from_push(cl0, current_node, n.parent as int);
                    }
                }
                assert(current_node == Node { id: cl0.len() as i32, ..ol0[best as int] });
                assert(explore(grid, w as int, h as int, sp, gp, cycle as nat) == advance(
                    grid,
                    w as int,
                    h as int,
                    gp,
                    ol0,
                    cl0,
                ));
            }

            // Stop when the goal is closed.
            if current_node.x == x_mouse && current_node.y == y_mouse {
                proof {
                    lemma_explore_settles(
                        grid,
                        w as int,
                        h as int,
                        sp,
                        gp,
                        cycle as nat,
                        MAX_CYCLE as nat,
                    );
                }
                break;
            }
            proof {
                assert forall|i: int| 0 <= i < closed_list@.len() implies !(
                (#[trigger] closed_list@[i]).x == gp.x && closed_list@[i].y == gp.y) by {
                    if i < cl0.len() {
                        assert(closed_list@[i] == cl0[i]);
                    } else {
                        assert(closed_list@[i] == current_node);
                    }
                }
            }
            let ghost ol1 = open_list@;
            expand(&mut open_list, &closed_list, current_node, level_map, w, h, x_mouse, y_mouse);
            proof {
                assert forall|j: int| 0 <= j < open_list@.len() implies {
                    &&& 0 <= (#[trigger] open_list@[j]).g <= closed_list@.len()
                    &&& linked(
                        grid,
                        w as int,
                        h as int,
                        open_list@[j],
                        closed_list@,
                        closed_list@.len() as int,
                        sp,
                    )
                    &&& open_list@[j].parent != -1 ==> open_list@[j].f == open_list@[j].g + sq_dist(
                        open_list@[j].x as int,
                        open_list@[j].y as int,
                        gp.x as int,
                        gp.y as int,
                    )
                    &&& closed_list@.len() > 0 ==> open_list@[j].parent != -1
                    &&& closed_list@.len() == 1 ==> open_list@[j].g == 1
                } by {
                    if cl0.len() == 0 {
                        assert(ol1.len() == 0);
                        assert(closed_list@[0] == current_node);
                    }
                    if j < ol1.len() {
                        let jj = if j < best { j } else { j + 1 };
                        assert(open_list@[j] == ol0[jj]);
                        if ol0[jj].parent != -1 {
                            assert(closed_list@[ol0[jj].parent as int] == cl0[ol0[jj].parent
                                as int]);
                        }
                    } else {
                        assert(closed_list@[current_node.id as int] == current_node);
                    }
                }
                assert forall|i: int, k: int|
                    0 <= i < closed_list@.len() && 0 <= k < 8 && #[trigger] neighbour_passable(
                        grid,
                        w as int,
                        h as int,
                        closed_list@[i],
                        k,
                    ) implies covered(
                    closed_list@,
                    open_list@,
                    closed_list@[i].x + step_dx(k),
                    closed_list@[i].y + step_dy(k),
                ) by {
                    if i < cl0.len() {
                        assert(closed_list@[i] == cl0[i]);
                        let x = cl0[i].x + step_dx(k);
                        let y = cl0[i].y + step_dy(k);
                        lemma_covered_after_select(cl0, ol0, best as int, current_node, x, y);
                        if has_coord(ol1, x, y) {
                            lemma_has_coord_extends(ol1, open_list@, x, y);
                        }
                    } else {
                        assert(closed_list@[i] == current_node);
                    }
                }
                if adjacent(sp, gp) && closed_list@.len() == 1 {
                    let k = step_index(gp.x - sp.x, gp.y - sp.y);
                    assert(closed_list@[0] == current_node);
                    assert(neighbour_passable(grid, w as int, h as int, closed_list@[0], k));
                    assert(!has_coord(closed_list@, x_mouse as int, y_mouse as int));
                }
                assert(explore(grid, w as int, h as int, sp, gp, cycle as nat) == (
                    open_list@,
                    closed_list@,
                    false,
                ));
                lemma_route_cells_closed(closed_list@, cl0.len() as int);
                assert forall|j: int| 0 <= j < open_list@.len() implies fresh(
                    closed_list@,
                    #[trigger] open_list@[j],
                ) by {
                    let n = open_list@[j];
                    if j < ol1.len() {
                        let jj = if j < best { j } else { j + 1 };
                        assert(n == ol0[jj]);
                        assert(fresh(cl0, ol0[jj]));
                        assert(linked(grid, w as int, h as int, ol0[jj], cl0, cl0.len() as int, sp));
                        if n.parent != -1 {
                            lemma_route_from_push(cl0, current_node, n.parent as int);
                        }
                    } else {
                        let r = route_from(closed_list@, cl0.len() as int);
                        assert(n.parent == cl0.len());
                        assert(!has_coord(closed_list@, n.x as int, n.y as int));
                        if r.contains(point_of(n)) {
                            let k = choose|k: int| 0 <= k < r.len() && r[k] == point_of(n);
                            assert(has_coord(closed_list@, r[k].x as int, r[k].y as int));
                        }
                    }
                }
                if open_list@.len() == 0 {
                    lemma_explore_settles(
                        grid,
                        w as int,
                        h as int,
                        sp,
                        gp,
                        cycle as nat,
                        MAX_CYCLE as nat,
                    );
                }
            }
        }
    }
    // Follow the parents from the last closed node back to the start.

    if closed_list.len() != 0 {
        let last = closed_list.len() - 1;
        let mut node = closed_list[last];
        path.push(Point { x: node.x, y: node.y });
        proof {
            assert(closed_list@[last as int].id == last);
            let r = route_from(closed_list@, last as int);
            assert(r =~= seq![point_of(node)] + r.drop_first());
            assert(path@ + r.drop_first() =~= r);
        }
        while node.parent != -1
            invariant
                grid == level_map@,
                sp == (Point { x: x_entity, y: y_entity }),
                closed_ok(grid, w as int, h as int, closed_list@, sp),
                0 <= node.id < closed_list@.len(),
                node == closed_list@[node.id as int],
                path@.len() >= 1,
                path@.len() + node.g == closed_list@.last().g + 1,
                path@[0] == point_of(closed_list@.last()),
                path@.last() == point_of(node),
                path@.len() + node.id <= closed_list@.len(),
                path@ + route_from(closed_list@, node.id as int).drop_first() == route_from(
                    closed_list@,
                    closed_list@.len() - 1,
                ),
            decreases node.id,
        {
            proof {
                assert(closed_list@[node.id as int] == node);
            }
            let ghost before = path@;
            let ghost prev = node;
            node = closed_list[node.parent as usize];
            path.push(Point { x: node.x, y: node.y });
            proof {
                assert(closed_list@[prev.id as int] == prev);
                let r_prev = route_from(closed_list@, prev.id as int);
                let r_node = route_from(closed_list@, node.id as int);
                assert(r_prev.drop_first() =~= r_node);
                assert(r_node =~= seq![point_of(node)] + r_node.drop_first());
                assert(path@ + r_node.drop_first() =~= before + r_prev.drop_first());
            }
        }
        proof {
            assert(closed_list@[node.id as int] == node);
            assert(path@ == route_from(closed_list@, closed_list@.len() - 1)) by {
                assert(route_from(closed_list@, node.id as int).drop_first() =~= Seq::<Point>::empty());
                assert(path@ =~= route_from(closed_list@, closed_list@.len() - 1));
            }
            lemma_route_leads_back(grid, w as int, h as int, closed_list@, sp, last as int);
            lemma_route_no_repeats(closed_list@, last as int);
        }
    }
    proof {
        if gate && reachable(grid, w as int, h as int, sp, gp) && path@.len() > 0 && path@[0] != gp {
            let steps = choose|steps: Seq<Point>|
                {
                    &&& steps.len() >= 1
                    &&& steps[0] == sp
                    &&& steps.last() == gp
                    &&& #[trigger] is_walk(grid, w as int, h as int, steps)
                };
            assert(closed_list@[0].id == 0);
            assert(has_coord(closed_list@, sp.x as int, sp.y as int));
            lemma_walk_stays_closed(
                grid,
                w as int,
                h as int,
                closed_list@,
                open_list@,
                steps,
                steps.len() - 1,
            );
            let m = choose|m: int|
                0 <= m < closed_list@.len() && closed_list@[m].x == gp.x && closed_list@[m].y
                    == gp.y;
            assert(!(closed_list@[m].x == gp.x && closed_list@[m].y == gp.y));
        }
        if gate && sp == gp {
            assert(closed_list@[0].id == 0);
            assert(path@ =~= seq![sp]);
        }
        if gate && adjacent(sp, gp) {
            assert(closed_list@[0].id == 0);
            assert(closed_list@[1].id == 1);
            assert(path@ =~= seq![gp, sp]);
        }
    }
    path
}

/// A route that leads back from the goal to the start, read from the start,
/// is a walk to the goal: it begins at the start, ends at the goal, every
/// step goes to an adjacent coordinate and every coordinate after the start
/// is passable. So the goal of a non-empty route is reachable.
pub proof fn lemma_route_forward(
    grid: Seq<Tile>,
    w: int,
    h: int,
    route: Seq<Point>,
    start: Point,
    goal: Point,
)
    requires
        leads_back(grid, w, h, route, start),
        route.len() > 0,
        route[0] == goal,
    ensures
        route.reverse().len() == route.len(),
        route.reverse()[0] == start,
        route.reverse().last() == goal,
        is_walk(grid, w, h, route.reverse()),
        reachable(grid, w, h, start, goal),
{
    let fwd = route.reverse();
    let n = route.len() as int;
    assert forall|i: int| 0 <= i < fwd.len() - 1 implies #[trigger] adjacent(fwd[i], fwd[i + 1]) by {
        assert(fwd[i] == route[n - 1 - i]);
        assert(fwd[i + 1] == route[n - 2 - i]);
        assert(adjacent(route[n - 2 - i], route[n - 2 - i + 1]));
    }
    assert forall|i: int| 1 <= i < fwd.len() implies #[trigger] passable(
        grid,
        w,
        h,
        fwd[i].x as int,
        fwd[i].y as int,
    ) by {
        assert(fwd[i] == route[n - 1 - i]);
        assert(adjacent(route[n - 1 - i], route[n - 1 - i + 1]));
    }
    assert(is_walk(grid, w, h, fwd));
}

} // verus!
