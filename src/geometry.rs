//! Grid cells, the cost of moving between them, and the octile distance.
use vstd::prelude::*;

verus! {

/// A cell of the grid: `x` counts rows, `y` counts columns.
#[derive(Clone, Copy, Debug, PartialEq, Eq, Hash, Structural)]
pub struct Node {
    pub x: i32,
    pub y: i32,
}

/// Cost of an orthogonal move.
pub const STRAIGHT_COST: i64 = 10;

/// Cost of a diagonal move.
pub const DIAGONAL_COST: i64 = 14;

pub open spec fn abs_diff(a: int, b: int) -> int {
    if a >= b {
        a - b
    } else {
        b - a
    }
}

/// Octile distance between two cells: diagonal moves cost 14, straight ones 10.
pub open spec fn octile(a: Node, b: Node) -> int {
    let dx = abs_diff(a.x as int, b.x as int);
    let dy = abs_diff(a.y as int, b.y as int);
    if dx > dy {
        14 * dy + 10 * (dx - dy)
    } else {
        14 * dx + 10 * (dy - dx)
    }
}

/// Two distinct cells that touch by a side or a corner.
pub open spec fn adjacent(a: Node, b: Node) -> bool {
    a != b && abs_diff(a.x as int, b.x as int) <= 1 && abs_diff(a.y as int, b.y as int) <= 1
}

/// Cost of one move between adjacent cells.
pub open spec fn step_cost(a: Node, b: Node) -> int {
    if a.x != b.x && a.y != b.y {
        14
    } else {
        10
    }
}

/// A cell inside a grid of `rows` by `cols` cells.
pub open spec fn in_extent(n: Node, rows: int, cols: int) -> bool {
    0 <= n.x < rows && 0 <= n.y < cols
}

/// Sum of the step costs along a sequence of cells.
pub open spec fn route_cost(p: Seq<Node>) -> int
    decreases p.len(),
{
    if p.len() <= 1 {
        0
    } else {
        step_cost(p[0], p[1]) + route_cost(p.drop_first())
    }
}

/// Each cell of `p` touches the next one.
pub open spec fn is_chain(p: Seq<Node>) -> bool {
    forall|i: int| 0 <= i < p.len() - 1 ==> #[trigger] adjacent(p[i], p[i + 1])
}

/// The cell (`x`, `y`) alone when it lies in a grid of `rows` by `cols`
/// cells, nothing otherwise.
pub open spec fn cell_if_inside(x: int, y: int, rows: int, cols: int) -> Seq<Node> {
    if 0 <= x < rows && 0 <= y < cols {
        seq![Node { x: x as i32, y: y as i32 }]
    } else {
        seq![]
    }
}

/// The cells adjacent to `n` inside a grid of `rows` by `cols` cells, by row
/// offset -1, 0, 1 and within it by column offset -1, 0, 1.
pub open spec fn neighbor_seq(n: Node, rows: int, cols: int) -> Seq<Node> {
    let (x, y) = (n.x as int, n.y as int);
    cell_if_inside(x - 1, y - 1, rows, cols) + cell_if_inside(x - 1, y, rows, cols)
        + cell_if_inside(x - 1, y + 1, rows, cols) + cell_if_inside(x, y - 1, rows, cols)
        + cell_if_inside(x, y + 1, rows, cols) + cell_if_inside(x + 1, y - 1, rows, cols)
        + cell_if_inside(x + 1, y, rows, cols) + cell_if_inside(x + 1, y + 1, rows, cols)
}

impl Node {
    pub fn new(x: i32, y: i32) -> (r: Node)
        ensures
            r.x == x,
            r.y == y,
    {
        Node { x, y }
    }

    /// Octile distance to `to_location`, the search's heuristic: 14 for each
    /// diagonal step and 10 for each straight step of a shortest unobstructed
    /// route.
    pub fn get_distance(&self, to_location: &Node) -> (r: i64)
        ensures
            r == octile(*self, *to_location),
            r >= 0,
    {
        let x: i64 = if self.x >= to_location.x {
            self.x as i64 - to_location.x as i64
        } else {
            to_location.x as i64 - self.x as i64
        };
        let y: i64 = if self.y >= to_location.y {
            self.y as i64 - to_location.y as i64
        } else {
            to_location.y as i64 - self.y as i64
        };
        if x > y {
            DIAGONAL_COST * y + STRAIGHT_COST * (x - y)
        } else {
            DIAGONAL_COST * x + STRAIGHT_COST * (y - x)
        }
    }

    /// The cells adjacent to this one that lie in a grid of `rows` by `cols`
    /// cells, row offset first, each offset running from -1 to 1.
    pub fn get_neighbors(&self, rows: i32, cols: i32) -> (r: Vec<Node>)
        ensures
            r@ == neighbor_seq(*self, rows as int, cols as int),
            r.len() <= 8,
            forall|i: int|
                0 <= i < r.len() ==> in_extent(#[trigger] r[i], rows as int, cols as int)
                    && adjacent(*self, r[i]),
            forall|m: Node|
                in_extent(m, rows as int, cols as int) && adjacent(*self, m) ==> r@.contains(m),
    {
        let ghost (x, y, rs, cs) = (self.x as int, self.y as int, rows as int, cols as int);
        let mut temp: Vec<Node> = Vec::new();
        let ghost mut acc: Seq<Node> = seq![];
        push_if_inside(&mut temp, self.x as i64 - 1, self.y as i64 - 1, rows, cols);
        proof {
            acc = acc + cell_if_inside(x - 1, y - 1, rs, cs);
            assert(temp@ =~= acc);
        }
        push_if_inside(&mut temp, self.x as i64 - 1, self.y as i64, rows, cols);
        proof {
            acc = acc + cell_if_inside(x - 1, y, rs, cs);
            assert(temp@ =~= acc);
        }
        push_if_inside(&mut temp, self.x as i64 - 1, self.y as i64 + 1, rows, cols);
        proof {
            acc = acc + cell_if_inside(x - 1, y + 1, rs, cs);
            assert(temp@ =~= acc);
        }
        push_if_inside(&mut temp, self.x as i64, self.y as i64 - 1, rows, cols);
        proof {
            acc = acc + cell_if_inside(x, y - 1, rs, cs);
            assert(temp@ =~= acc);
        }
        push_if_inside(&mut temp, self.x as i64, self.y as i64 + 1, rows, cols);
        proof {
            acc = acc + cell_if_inside(x, y + 1, rs, cs);
            assert(temp@ =~= acc);
        }
        push_if_inside(&mut temp, self.x as i64 + 1, self.y as i64 - 1, rows, cols);
        proof {
            acc = acc + cell_if_inside(x + 1, y - 1, rs, cs);
            assert(temp@ =~= acc);
        }
        push_if_inside(&mut temp, self.x as i64 + 1, self.y as i64, rows, cols);
        proof {
            acc = acc + cell_if_inside(x + 1, y, rs, cs);
            assert(temp@ =~= acc);
        }
        push_if_inside(&mut temp, self.x as i64 + 1, self.y as i64 + 1, rows, cols);
        proof {
            acc = acc + cell_if_inside(x + 1, y + 1, rs, cs);
            assert(temp@ =~= acc);
        }
        proof {
            assert(acc =~= neighbor_seq(*self, rows as int, cols as int));
            lemma_neighbor_seq(*self, rows as int, cols as int);
        }
        temp
    }
}

/// Appends the cell (`x`, `y`) to `v` when it lies in the grid.
fn push_if_inside(v: &mut Vec<Node>, x: i64, y: i64, rows: i32, cols: i32)
    ensures
        final(v)@ == old(v)@ + cell_if_inside(x as int, y as int, rows as int, cols as int),
{
    if 0 <= x && x < rows as i64 && 0 <= y && y < cols as i64 {
        v.push(Node { x: x as i32, y: y as i32 });
        assert(v@ =~= old(v)@ + cell_if_inside(x as int, y as int, rows as int, cols as int));
    } else {
        assert(v@ =~= old(v)@ + cell_if_inside(x as int, y as int, rows as int, cols as int));
    }
}

proof fn lemma_concat_contains(a: Seq<Node>, b: Seq<Node>, m: Node)
    ensures
        (a + b).contains(m) <==> a.contains(m) || b.contains(m),
{
    if a.contains(m) {
        let i = choose|i: int| 0 <= i < a.len() && a[i] == m;
        assert((a + b)[i] == m);
    }
    if b.contains(m) {
        let i = choose|i: int| 0 <= i < b.len() && b[i] == m;
        assert((a + b)[a.len() + i] == m);
    }
    if (a + b).contains(m) {
        let i = choose|i: int| 0 <= i < (a + b).len() && (a + b)[i] == m;
        if i < a.len() {
            assert(a[i] == m);
        } else {
            assert(b[i - a.len()] == m);
        }
    }
}

proof fn lemma_cell_if_inside(n: Node, dx: int, dy: int, rows: int, cols: int)
    requires
        -1 <= dx <= 1,
        -1 <= dy <= 1,
        dx != 0 || dy != 0,
        rows <= i32::MAX,
        cols <= i32::MAX,
    ensures
        forall|e: Node|
            #[trigger] cell_if_inside(n.x + dx, n.y + dy, rows, cols).contains(e) ==> in_extent(
                e,
                rows,
                cols,
            ) && adjacent(n, e),
{
    assert forall|e: Node| #[trigger]
        cell_if_inside(n.x + dx, n.y + dy, rows, cols).contains(e) implies in_extent(e, rows, cols)
        && adjacent(n, e) by {
        let c = cell_if_inside(n.x + dx, n.y + dy, rows, cols);
        let k = choose|k: int| 0 <= k < c.len() && c[k] == e;
        assert(c.len() == 1 && k == 0);
        assert(e.x == n.x + dx && e.y == n.y + dy);
    }
}

/// The neighbour sequence holds at most eight cells, exactly the cells of the
/// grid adjacent to `n`.
pub proof fn lemma_neighbor_seq(n: Node, rows: int, cols: int)
    requires
        rows <= i32::MAX,
        cols <= i32::MAX,
    ensures
        neighbor_seq(n, rows, cols).len() <= 8,
        forall|i: int|
            0 <= i < neighbor_seq(n, rows, cols).len() ==> in_extent(
                #[trigger] neighbor_seq(n, rows, cols)[i],
                rows,
                cols,
            ) && adjacent(n, neighbor_seq(n, rows, cols)[i]),
        forall|m: Node|
            in_extent(m, rows, cols) && adjacent(n, m) ==> neighbor_seq(n, rows, cols).contains(m),
{
    let (x, y) = (n.x as int, n.y as int);
    let c1 = cell_if_inside(x - 1, y - 1, rows, cols);
    let c2 = cell_if_inside(x - 1, y, rows, cols);
    let c3 = cell_if_inside(x - 1, y + 1, rows, cols);
    let c4 = cell_if_inside(x, y - 1, rows, cols);
    let c5 = cell_if_inside(x, y + 1, rows, cols);
    let c6 = cell_if_inside(x + 1, y - 1, rows, cols);
    let c7 = cell_if_inside(x + 1, y, rows, cols);
    let c8 = cell_if_inside(x + 1, y + 1, rows, cols);
    let s = neighbor_seq(n, rows, cols);
    assert(s == c1 + c2 + c3 + c4 + c5 + c6 + c7 + c8);
    assert forall|m: Node| #[trigger] s.contains(m) <==> c1.contains(m) || c2.contains(m) || c3.contains(m)
        || c4.contains(m) || c5.contains(m) || c6.contains(m) || c7.contains(m) || c8.contains(
        m,
    ) by {
        lemma_concat_contains(c1, c2, m);
        lemma_concat_contains(c1 + c2, c3, m);
        lemma_concat_contains(c1 + c2 + c3, c4, m);
        lemma_concat_contains(c1 + c2 + c3 + c4, c5, m);
        lemma_concat_contains(c1 + c2 + c3 + c4 + c5, c6, m);
        lemma_concat_contains(c1 + c2 + c3 + c4 + c5 + c6, c7, m);
        lemma_concat_contains(c1 + c2 + c3 + c4 + c5 + c6 + c7, c8, m);
    }
    assert forall|i: int| 0 <= i < s.len() implies in_extent(#[trigger] s[i], rows, cols) && adjacent(
        n,
        s[i],
    ) by {
        assert(s.contains(s[i]));
        lemma_cell_if_inside(n, -1, -1, rows, cols);
        lemma_cell_if_inside(n, -1, 0, rows, cols);
        lemma_cell_if_inside(n, -1, 1, rows, cols);
        lemma_cell_if_inside(n, 0, -1, rows, cols);
        lemma_cell_if_inside(n, 0, 1, rows, cols);
        lemma_cell_if_inside(n, 1, -1, rows, cols);
        lemma_cell_if_inside(n, 1, 0, rows, cols);
        lemma_cell_if_inside(n, 1, 1, rows, cols);
    }
    assert forall|m: Node| in_extent(m, rows, cols) && adjacent(n, m) implies s.contains(m) by {
        let dx = m.x - n.x;
        let dy = m.y - n.y;
        assert(-1 <= dx <= 1 && -1 <= dy <= 1);
        assert(c1.contains(m) || c2.contains(m) || c3.contains(m) || c4.contains(m) || c5.contains(m)
            || c6.contains(m) || c7.contains(m) || c8.contains(m)) by {
            if dx == -1 && dy == -1 {
                assert(c1[0] == m);
            } else if dx == -1 && dy == 0 {
                assert(c2[0] == m);
            } else if dx == -1 && dy == 1 {
                assert(c3[0] == m);
            } else if dx == 0 && dy == -1 {
                assert(c4[0] == m);
            } else if dx == 0 && dy == 1 {
                assert(c5[0] == m);
            } else if dx == 1 && dy == -1 {
                assert(c6[0] == m);
            } else if dx == 1 && dy == 0 {
                assert(c7[0] == m);
            } else {
                assert(c8[0] == m);
            }
        }
    }
}

/// Clamps a coordinate into `0..bound`; `bound` must be positive.
pub fn clamp_index(v: i32, bound: i32) -> (r: i32)
    requires
        bound >= 1,
    ensures
        0 <= r < bound,
        0 <= v < bound ==> r == v,
        v < 0 ==> r == 0,
        v >= bound ==> r == bound - 1,
{
    if v >= bound {
        bound - 1
    } else if v <= 0 {
        0
    } else {
        v
    }
}

/// One move changes the octile distance to a fixed cell by at most its cost.
pub proof fn lemma_octile_step(a: Node, b: Node, goal: Node)
    requires
        adjacent(a, b),
    ensures
        octile(a, goal) <= step_cost(a, b) + octile(b, goal),
{
}

/// Walking a chain from its first cell changes the octile distance to any
/// cell `t` by at most the chain's cost.
pub proof fn lemma_chain_estimate(p: Seq<Node>, t: Node)
    requires
        p.len() >= 1,
        is_chain(p),
    ensures
        octile(p[0], t) <= route_cost(p) + octile(p[p.len() - 1], t),
        octile(p[p.len() - 1], t) <= route_cost(p) + octile(p[0], t),
    decreases p.len(),
{
    if p.len() > 1 {
        let rest = p.drop_first();
        assert forall|i: int| 0 <= i < rest.len() - 1 implies #[trigger] adjacent(rest[i], rest[i + 1]) by {
            let j = i + 1;
            assert(adjacent(p[j], p[j + 1]));
            assert(rest[i] == p[j] && rest[i + 1] == p[j + 1]);
        }
        lemma_chain_estimate(rest, t);
        let z: int = 0;
        assert(adjacent(p[z], p[z + 1]));
        lemma_octile_step(p[0], p[1], t);
        lemma_octile_step(p[1], p[0], t);
    }
}

/// The octile distance between the two ends of a chain of adjacent cells is a
/// lower bound on the chain's cost: no route is cheaper than the heuristic.
pub proof fn lemma_route_cost_lower_bound(p: Seq<Node>)
    requires
        p.len() >= 1,
        is_chain(p),
    ensures
        route_cost(p) >= octile(p[0], p[p.len() - 1]),
{
    lemma_chain_estimate(p, p[p.len() - 1]);
}

/// The cost of a sequence is the cost up to its cell `j` plus the cost from
/// there on.
pub proof fn lemma_route_cost_split(p: Seq<Node>, j: int)
    requires
        0 <= j < p.len(),
    ensures
        route_cost(p) == route_cost(p.subrange(0, j + 1)) + route_cost(p.subrange(j, p.len() as int)),
    decreases j,
{
    if j == 0 {
        assert(p.subrange(0, p.len() as int) =~= p);
    } else {
        let rest = p.drop_first();
        lemma_route_cost_split(rest, j - 1);
        assert(rest.subrange(j - 1, rest.len() as int) =~= p.subrange(j, p.len() as int));
        assert(p.subrange(0, j + 1).drop_first() =~= rest.subrange(0, j));
    }
}

/// Appending a cell adds the cost of the step to it.
pub proof fn lemma_route_cost_push(s: Seq<Node>, n: Node)
    requires
        s.len() >= 1,
    ensures
        route_cost(s.push(n)) == route_cost(s) + step_cost(s[s.len() - 1], n),
    decreases s.len(),
{
    if s.len() > 1 {
        assert(s.push(n).drop_first() =~= s.drop_first().push(n));
        lemma_route_cost_push(s.drop_first(), n);
        assert(s.push(n)[0] == s[0] && s.push(n)[1] == s[1]);
        assert(s.drop_first()[s.drop_first().len() - 1] == s[s.len() - 1]);
    } else {
        assert(s.push(n).drop_first() =~= seq![n]);
        assert(route_cost(seq![n]) == 0);
        assert(route_cost(s) == 0);
    }
}

/// One step from `v` toward `target`.
pub open spec fn toward(v: int, target: int) -> int {
    if v < target {
        v + 1
    } else if v > target {
        v - 1
    } else {
        v
    }
}

/// The cell next to `a` on the way to `b`: diagonal while both coordinates
/// differ, straight afterwards.
pub open spec fn next_toward(a: Node, b: Node) -> Node {
    Node { x: toward(a.x as int, b.x as int) as i32, y: toward(a.y as int, b.y as int) as i32 }
}

/// The route from `a` to `b` that moves diagonally while both coordinates
/// differ and straight afterwards.
pub open spec fn direct_route(a: Node, b: Node) -> Seq<Node>
    decreases abs_diff(a.x as int, b.x as int) + abs_diff(a.y as int, b.y as int),
{
    if a == b {
        seq![a]
    } else {
        seq![a] + direct_route(next_toward(a, b), b)
    }
}

/// The direct route joins its ends through adjacent cells that stay within
/// their bounding box, at the cost of the octile distance.
pub proof fn lemma_direct_route(a: Node, b: Node)
    ensures
        direct_route(a, b).len() >= 1,
        direct_route(a, b)[0] == a,
        direct_route(a, b)[direct_route(a, b).len() - 1] == b,
        is_chain(direct_route(a, b)),
        route_cost(direct_route(a, b)) == octile(a, b),
        forall|i: int|
            0 <= i < direct_route(a, b).len() ==> {
                let n = #[trigger] direct_route(a, b)[i];
                &&& (a.x <= n.x <= b.x || b.x <= n.x <= a.x)
                &&& (a.y <= n.y <= b.y || b.y <= n.y <= a.y)
            },
    decreases abs_diff(a.x as int, b.x as int) + abs_diff(a.y as int, b.y as int),
{
    if a != b {
        let c = next_toward(a, b);
        lemma_direct_route(c, b);
        let rest = direct_route(c, b);
        let p = direct_route(a, b);
        assert(p == seq![a] + rest);
        assert(p.drop_first() =~= rest);
        assert(adjacent(a, c));
        assert forall|i: int| 0 <= i < p.len() - 1 implies #[trigger] adjacent(p[i], p[i + 1]) by {
            if i > 0 {
                let k = i - 1;
                assert(adjacent(rest[k], rest[k + 1]));
            }
        }
        assert forall|i: int| 0 <= i < p.len() implies {
            let n = #[trigger] p[i];
            &&& (a.x <= n.x <= b.x || b.x <= n.x <= a.x)
            &&& (a.y <= n.y <= b.y || b.y <= n.y <= a.y)
        } by {
            if i > 0 {
                assert(p[i] == rest[i - 1]);
            }
        }
    }
}

} // verus!
