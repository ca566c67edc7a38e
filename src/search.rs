//! A* search over the occupancy grid.
//!
//! The open list is a vector of (priority, cell) entries, the priority being
//! the cost from the start plus the octile estimate to the goal. The entry of
//! lowest priority leaves first; among equal priorities the one inserted first
//! leaves first. The neighbours of a cell are examined in `neighbor_seq` order.
//! `Warehouse::astar` states the whole search as a spec function, step by
//! step, and `find_path` is proved to return exactly its result. A cell whose neighbours have been examined is closed, and
//! later entries for it are dropped: with the octile estimate, which never
//! decreases by more than a step's cost, a cell is closed with the cost of a
//! shortest route to it, so such an entry cannot improve any cost.
use vstd::prelude::*;
use vstd::set_lib::{lemma_int_range, lemma_len_subset, set_int_range};

use crate::geometry::{
    adjacent, lemma_neighbor_seq, neighbor_seq, direct_route, lemma_chain_estimate, lemma_direct_route, lemma_route_cost_lower_bound,
    lemma_route_cost_push, lemma_route_cost_split, octile, route_cost, step_cost, Node,
};
use crate::warehouse::Warehouse;

verus! {

/// The search's state: the cost recorded for each cell slot, the predecessor
/// recorded for it, whether it is closed, and the open list.
pub type SearchState = (Seq<Option<u128>>, Seq<Option<Node>>, Seq<bool>, Seq<(u128, Node)>);

/// Position of the first entry of lowest priority among the first `k`
/// entries of `open`.
pub open spec fn first_min(open: Seq<(u128, Node)>, k: int) -> int
    decreases k,
{
    if k <= 1 {
        0
    } else {
        let b = first_min(open, k - 1);
        if open[k - 1].0 < open[b].0 {
            k - 1
        } else {
            b
        }
    }
}

/// The sequence holding the last cell of `p` alone costs nothing.
proof fn lemma_last_cell_cost(p: Seq<Node>)
    requires
        p.len() >= 1,
    ensures
        route_cost(p.subrange(p.len() - 1, p.len() as int)) == 0,
{
    assert(p.subrange(p.len() - 1, p.len() as int).len() == 1);
}

/// A vector of `n` copies of `v`.
fn filled<T: Copy>(v: T, n: usize) -> (r: Vec<T>)
    ensures
        r@ == Seq::new(n as nat, |i: int| v),
{
    let mut out: Vec<T> = Vec::new();
    let mut i: usize = 0;
    while i < n
        invariant
            0 <= i <= n,
            out@ =~= Seq::new(i as nat, |k: int| v),
        decreases n - i,
    {
        out.push(v);
        i += 1;
    }
    out
}

/// Position of the first entry of lowest priority.
fn min_entry(open: &Vec<(u128, Node)>) -> (j: usize)
    requires
        open.len() > 0,
    ensures
        j == first_min(open@, open.len() as int),
        j < open.len(),
        forall|k: int| 0 <= k < open.len() ==> open@[j as int].0 <= #[trigger] open@[k].0,
        forall|k: int| 0 <= k < j ==> open@[j as int].0 < #[trigger] open@[k].0,
{
    let mut best: usize = 0;
    let mut k: usize = 1;
    while k < open.len()
        invariant
            0 <= best < k <= open.len(),
            best == first_min(open@, k as int),
            forall|m: int| 0 <= m < k ==> open@[best as int].0 <= #[trigger] open@[m].0,
            forall|m: int| 0 <= m < best ==> open@[best as int].0 < #[trigger] open@[m].0,
        decreases open.len() - k,
    {
        if open[k].0 < open[best].0 {
            best = k;
        }
        k += 1;
    }
    best
}

/// The open list holds an entry for `n` with priority `f`.
pub open spec fn in_open_at(open: Seq<(u128, Node)>, n: Node, f: int) -> bool {
    exists|j: int| 0 <= j < open.len() && open[j].1 == n && open[j].0 == f
}

proof fn lemma_in_open_remove(open: Seq<(u128, Node)>, j: int, n: Node, f: int)
    requires
        0 <= j < open.len(),
        in_open_at(open, n, f),
        open[j].1 != n,
    ensures
        in_open_at(open.remove(j), n, f),
{
    let k = choose|k: int| 0 <= k < open.len() && open[k].1 == n && open[k].0 == f;
    if k < j {
        assert(open.remove(j)[k] == open[k]);
    } else {
        assert(open.remove(j)[k - 1] == open[k]);
    }
}

proof fn lemma_in_open_push(open: Seq<(u128, Node)>, e: (u128, Node), n: Node, f: int)
    requires
        in_open_at(open, n, f) || (e.1 == n && e.0 == f),
    ensures
        in_open_at(open.push(e), n, f),
{
    if e.1 == n && e.0 == f {
        assert(open.push(e)[open.len() as int] == e);
    } else {
        let k = choose|k: int| 0 <= k < open.len() && open[k].1 == n && open[k].0 == f;
        assert(open.push(e)[k] == open[k]);
    }
}

impl Warehouse {
    /// Position of a cell in the search's per-cell vectors: row by row.
    pub open spec fn index_of(&self, n: Node) -> int {
        n.x * self.col_count() + n.y
    }

    proof fn lemma_index_in_range(&self, n: Node)
        requires
            self.wf(),
            self.in_grid(n),
        ensures
            0 <= n.x * self.col_count(),
            n.x * self.col_count() <= self.index_of(n),
            self.index_of(n) < self.row_count() * self.col_count(),
    {
        self.lemma_extent();
        let x = n.x as int;
        let y = n.y as int;
        let r = self.row_count();
        let c = self.col_count();
        assert(0 <= x * c) by (nonlinear_arith)
            requires
                0 <= x,
                0 <= c,
        ;
        assert(x * c + y < r * c) by (nonlinear_arith)
            requires
                0 <= x < r,
                0 <= y < c,
        ;
    }

    /// Distinct cells of the grid have distinct slots, all below the cell count.
    spec fn index_ok(&self) -> bool {
        &&& forall|n: Node|
            self.in_grid(n) ==> 0 <= #[trigger] self.index_of(n) < self.row_count()
                * self.col_count()
        &&& forall|a: Node, b: Node|
            self.in_grid(a) && self.in_grid(b) && #[trigger] self.index_of(a)
                == #[trigger] self.index_of(b) ==> a == b
        &&& set_int_range(0, self.row_count() * self.col_count()).finite()
    }

    proof fn lemma_index_injective(&self)
        requires
            self.wf(),
        ensures
            self.index_ok(),
    {
        self.lemma_extent();
        lemma_int_range(0, self.row_count() * self.col_count());
        assert forall|n: Node| self.in_grid(n) implies 0 <= #[trigger] self.index_of(n)
            < self.row_count() * self.col_count() by {
            self.lemma_index_in_range(n);
        }
        let c = self.col_count();
        assert forall|a: Node, b: Node|
            self.in_grid(a) && self.in_grid(b) && #[trigger] self.index_of(a)
                == #[trigger] self.index_of(b) implies a == b by {
            let ax = a.x as int;
            let ay = a.y as int;
            let bx = b.x as int;
            let by = b.y as int;
            if ax < bx {
                assert(ax * c + ay < bx * c + by) by (nonlinear_arith)
                    requires
                        ax < bx,
                        0 <= ay < c,
                        0 <= by,
                ;
            } else if bx < ax {
                assert(bx * c + by < ax * c + ay) by (nonlinear_arith)
                    requires
                        bx < ax,
                        0 <= by < c,
                        0 <= ay,
                ;
            }
        }
    }

    /// The slot of a cell of the grid in the search's per-cell vectors.
    fn cell_slot(&self, n: Node) -> (r: usize)
        requires
            self.wf(),
            self.in_grid(n),
        ensures
            r == self.index_of(n),
            r < self.row_count() * self.col_count(),
    {
        proof {
            self.lemma_index_in_range(n);
            self.lemma_extent();
        }
        (n.x as usize) * (self.cols() as usize) + (n.y as usize)
    }

    /// One neighbour `nb` of `current` examined: a free cell not yet closed
    /// whose recorded cost, if any, is above the cost `gc` of `current` plus
    /// the step gets that cost, `current` as predecessor, and an entry at the
    /// end of the open list with the cost plus the estimate as priority.
    pub open spec fn relax_spec(
        &self,
        goal: Node,
        st: SearchState,
        current: Node,
        gc: u128,
        nb: Node,
    ) -> SearchState {
        let i = self.index_of(nb);
        let t = gc + octile(current, nb);
        if !self.is_free(nb) || st.2[i] || (st.0[i] is Some && t >= st.0[i]->0) {
            st
        } else {
            (
                st.0.update(i, Some(t as u128)),
                st.1.update(i, Some(current)),
                st.2,
                st.3.push(((t + octile(nb, goal)) as u128, nb)),
            )
        }
    }

    /// The first `k` cells of `nbs` examined in order.
    pub open spec fn expand_spec(
        &self,
        goal: Node,
        st: SearchState,
        current: Node,
        gc: u128,
        nbs: Seq<Node>,
        k: int,
    ) -> SearchState
        decreases k,
    {
        if k <= 0 {
            st
        } else {
            self.relax_spec(
                goal,
                self.expand_spec(goal, st, current, gc, nbs, k - 1),
                current,
                gc,
                nbs[k - 1],
            )
        }
    }

    /// One step of the search that does not reach the goal: the first entry
    /// of lowest priority leaves the open list; unless its cell is closed, the
    /// cell is closed and its neighbours are examined in `neighbor_seq` order.
    pub open spec fn advance(&self, goal: Node, st: SearchState) -> SearchState {
        let j = first_min(st.3, st.3.len() as int);
        let c = st.3[j].1;
        let ci = self.index_of(c);
        if st.2[ci] {
            (st.0, st.1, st.2, st.3.remove(j))
        } else {
            let nbs = neighbor_seq(c, self.row_count(), self.col_count());
            self.expand_spec(
                goal,
                (st.0, st.1, st.2.update(ci, true), st.3.remove(j)),
                c,
                st.0[ci]->0,
                nbs,
                nbs.len() as int,
            )
        }
    }

    /// The cells met following recorded predecessors from `n`, `n` first.
    pub open spec fn trace_spec(
        &self,
        g: Seq<Option<u128>>,
        came: Seq<Option<Node>>,
        n: Node,
    ) -> Seq<Node>
        decreases g[self.index_of(n)]->0,
    {
        match came[self.index_of(n)] {
            Some(p) => if g[self.index_of(n)] is Some && g[self.index_of(p)] is Some && g[self.index_of(
                p,
            )]->0 < g[self.index_of(n)]->0 {
                seq![n] + self.trace_spec(g, came, p)
            } else {
                seq![n]
            },
            None => seq![n],
        }
    }

    /// The search run for at most `fuel` steps from `st`: the route traced
    /// back from the goal once the goal's entry is the first of lowest
    /// priority, `None` once the open list is empty.
    pub open spec fn run(&self, goal: Node, st: SearchState, fuel: nat) -> Option<Seq<Node>>
        decreases fuel,
    {
        if st.3.len() == 0 {
            None
        } else if st.3[first_min(st.3, st.3.len() as int)].1 == goal {
            Some(self.trace_spec(st.0, st.1, goal))
        } else if fuel == 0 {
            None
        } else {
            self.run(goal, self.advance(goal, st), (fuel - 1) as nat)
        }
    }

    /// The state before the first step: only `start` has a cost, 0, and the
    /// open list holds its entry alone.
    pub open spec fn initial_state(&self, start: Node, goal: Node) -> SearchState {
        let n = (self.row_count() * self.col_count()) as nat;
        (
            Seq::new(n, |i: int| None::<u128>).update(self.index_of(start), Some(0u128)),
            Seq::new(n, |i: int| None::<Node>),
            Seq::new(n, |i: int| false),
            seq![(octile(start, goal) as u128, start)],
        )
    }

    /// The route that A* search finds from `start` to `goal`, listed from the
    /// goal back to the start. Every cell is closed at most once, so the search
    /// ends within nine steps per cell plus one.
    pub open spec fn astar(&self, start: Node, goal: Node) -> Option<Seq<Node>> {
        self.run(
            goal,
            self.initial_state(start, goal),
            (9 * self.row_count() * self.col_count() + 1) as nat,
        )
    }

    /// `p` was recorded as the cell before `n` on the best route found to `n`.
    spec fn pred_ok(&self, g: Seq<Option<u128>>, n: Node, p: Node) -> bool {
        &&& self.in_grid(p)
        &&& adjacent(p, n)
        &&& self.is_free(n)
        &&& g[self.index_of(p)] is Some
        &&& g[self.index_of(n)] is Some
        &&& g[self.index_of(p)]->0 + step_cost(p, n) <= g[self.index_of(n)]->0
    }


    /// The costs and predecessors recorded so far lead back to `start`.
    spec fn links_ok(
        &self,
        start: Node,
        g: Seq<Option<u128>>,
        came: Seq<Option<Node>>,
    ) -> bool {
        &&& g.len() == self.row_count() * self.col_count()
        &&& came.len() == self.row_count() * self.col_count()
        &&& self.in_grid(start)
        &&& g[self.index_of(start)] == Some(0u128)
        &&& forall|n: Node|
            #![trigger self.index_of(n)]
            self.in_grid(n) && came[self.index_of(n)] is Some ==> self.pred_ok(
                g,
                n,
                came[self.index_of(n)]->0,
            )
        &&& forall|n: Node|
            #![trigger self.index_of(n)]
            self.in_grid(n) && g[self.index_of(n)] is Some && came[self.index_of(n)] is None
                ==> n == start
    }

    /// Every free cell adjacent to `n` has a recorded cost, at most the cost of
    /// `n` plus the step unless that cell is closed.
    spec fn expanded(&self, g: Seq<Option<u128>>, closed: Seq<bool>, n: Node) -> bool {
        &&& g[self.index_of(n)] is Some
        &&& forall|m: Node|
            #![trigger self.index_of(m)]
            self.is_free(m) && adjacent(n, m) ==> g[self.index_of(m)] is Some && (closed[self.index_of(
                m,
            )] || g[self.index_of(m)]->0 <= g[self.index_of(n)]->0 + step_cost(n, m))
    }

    /// The cost recorded for `n` is that of a shortest route from `start`.
    spec fn settled(&self, start: Node, g: Seq<Option<u128>>, n: Node) -> bool {
        forall|p: Seq<Node>|
            #[trigger] self.is_route_back(p, start, n) ==> g[self.index_of(n)]->0 <= route_cost(p)
    }

    spec fn closed_ok_except(
        &self,
        start: Node,
        g: Seq<Option<u128>>,
        closed: Seq<bool>,
        c: Node,
    ) -> bool {
        forall|n: Node|
            #![trigger self.index_of(n)]
            self.in_grid(n) && closed[self.index_of(n)] && n != c ==> self.expanded(g, closed, n)
                && self.settled(start, g, n)
    }

    /// What holds of the search state between two steps, but for the closed
    /// cells' neighbourhoods.
    spec fn frontier_ok(
        &self,
        start: Node,
        goal: Node,
        g: Seq<Option<u128>>,
        came: Seq<Option<Node>>,
        closed: Seq<bool>,
        open: Seq<(u128, Node)>,
        cs: Set<int>,
    ) -> bool {
        &&& self.links_ok(start, g, came)
        &&& closed.len() == self.row_count() * self.col_count()
        &&& self.in_grid(goal)
        &&& !closed[self.index_of(goal)]
        &&& forall|n: Node|
            #![trigger self.index_of(n)]
            self.in_grid(n) && g[self.index_of(n)] is Some && !closed[self.index_of(n)]
                ==> in_open_at(open, n, g[self.index_of(n)]->0 + octile(n, goal))
        &&& forall|j: int|
            0 <= j < open.len() ==> self.in_grid(#[trigger] open[j].1) && g[self.index_of(
                open[j].1,
            )] is Some && open[j].0 >= g[self.index_of(open[j].1)]->0 + octile(open[j].1, goal)
        &&& forall|i: int|
            0 <= i < self.row_count() * self.col_count() ==> (#[trigger] closed[i] <==> cs.contains(
                i,
            ))
        &&& cs.subset_of(set_int_range(0, self.row_count() * self.col_count()))
        &&& cs.finite()
        &&& cs.len() <= self.row_count() * self.col_count()
        &&& forall|n: Node|
            #![trigger self.index_of(n)]
            self.in_grid(n) && g[self.index_of(n)] is Some ==> g[self.index_of(n)]->0 <= 14
                * cs.len()
    }

    /// The search state while the neighbours of `current` are examined.
    #[verifier::opaque]
    spec fn relax_ok(
        &self,
        start: Node,
        goal: Node,
        g: Seq<Option<u128>>,
        came: Seq<Option<Node>>,
        closed: Seq<bool>,
        open: Seq<(u128, Node)>,
        cs: Set<int>,
        current: Node,
        gc: u128,
    ) -> bool {
        &&& self.frontier_ok(start, goal, g, came, closed, open, cs)
        &&& self.closed_ok_except(start, g, closed, current)
        &&& self.in_grid(current)
        &&& current != goal
        &&& closed[self.index_of(current)]
        &&& g[self.index_of(current)] == Some(gc)
        &&& self.settled(start, g, current)
        &&& gc + 14 <= 14 * cs.len()
    }

    /// Follows the recorded predecessors from `goal` back to `start`; the
    /// route costs at most what was recorded for `goal`.
    fn trace_back(
        &self,
        came: &Vec<Option<Node>>,
        Ghost(g): Ghost<Seq<Option<u128>>>,
        start: Node,
        goal: Node,
    ) -> (r: Vec<Node>)
        requires
            self.wf(),
            self.links_ok(start, g, came@),
            self.in_grid(goal),
            g[self.index_of(goal)] is Some,
        ensures
            self.is_route_back(r@, start, goal),
            route_cost(r@) <= g[self.index_of(goal)]->0,
            r@ == self.trace_spec(g, came@, goal),
    {
        let mut path: Vec<Node> = Vec::new();
        let mut current = goal;
        let mut pred = came[self.cell_slot(goal)];
        while pred.is_some()
            invariant
                self.wf(),
                self.links_ok(start, g, came@),
                self.in_grid(current),
                g[self.index_of(current)] is Some,
                pred == came@[self.index_of(current)],
                path@ + self.trace_spec(g, came@, current) == self.trace_spec(g, came@, goal),
                self.is_route_back(path@.push(current), current, goal),
                route_cost(path@.push(current)) + g[self.index_of(current)]->0 <= g[self.index_of(
                    goal,
                )]->0,
            decreases g[self.index_of(current)]->0,
        {
            let p = pred.unwrap();
            let ghost before = path@.push(current);
            let ghost path0 = path@;
            path.push(current);
            proof {
                assert(self.pred_ok(g, current, p));
                assert(self.trace_spec(g, came@, current) == seq![current] + self.trace_spec(g, came@, p));
                assert(path0 + self.trace_spec(g, came@, current) =~= path@ + self.trace_spec(g, came@, p));
                assert(adjacent(current, p));
                let q = path@.push(p);
                assert(q == before.push(p));
                lemma_route_cost_push(before, p);
                assert forall|i: int| 0 <= i < q.len() - 1 implies #[trigger] adjacent(
                    q[i],
                    q[i + 1],
                ) by {
                    if i < q.len() - 2 {
                        assert(adjacent(before[i], before[i + 1]));
                    }
                }
                assert forall|i: int| 0 <= i < q.len() - 1 implies self.is_free(#[trigger] q[i]) by {
                    if i < q.len() - 2 {
                        assert(self.is_free(before[i]));
                    }
                }
                assert forall|i: int| 0 <= i < q.len() implies self.in_grid(#[trigger] q[i]) by {
                    if i < q.len() - 1 {
                        assert(self.in_grid(before[i]));
                    }
                }
            }
            current = p;
            pred = came[self.cell_slot(current)];
        }
        proof {
            assert(self.trace_spec(g, came@, current) == seq![current]);
        }
        let ghost path0 = path@;
        path.push(current);
        assert(path@ =~= path0 + seq![current]);
        path
    }

    /// The part of a route back that starts at its cell `i` is a route back
    /// from that cell.
    proof fn lemma_route_suffix(&self, p: Seq<Node>, start: Node, goal: Node, i: int)
        requires
            self.is_route_back(p, start, goal),
            0 <= i < p.len(),
        ensures
            self.is_route_back(p.subrange(i, p.len() as int), start, p[i]),
    {
        let q = p.subrange(i, p.len() as int);
        assert forall|k: int| 0 <= k < q.len() - 1 implies #[trigger] adjacent(q[k], q[k + 1]) by {
            let m = k + i;
            assert(adjacent(p[m], p[m + 1]));
        }
        assert forall|k: int| 0 <= k < q.len() - 1 implies self.is_free(#[trigger] q[k]) by {
            assert(self.is_free(p[k + i]));
        }
        assert forall|k: int| 0 <= k < q.len() implies self.in_grid(#[trigger] q[k]) by {
            assert(self.in_grid(p[k + i]));
        }
    }

    /// The cell `c` of the first entry of lowest priority, not yet closed,
    /// already has the cost of a shortest route: walking any route back from
    /// the start, the first cell that is not closed has an entry whose
    /// priority, by the estimate's consistency, is at most the route's cost
    /// plus the estimate at `c`.
    #[verifier::rlimit(40)]
    proof fn lemma_settle_walk(
        &self,
        start: Node,
        goal: Node,
        g: Seq<Option<u128>>,
        came: Seq<Option<Node>>,
        closed: Seq<bool>,
        open: Seq<(u128, Node)>,
        cs: Set<int>,
        j: int,
        p: Seq<Node>,
        i: int,
    )
        requires
            self.wf(),
            self.index_ok(),
            self.frontier_ok(start, goal, g, came, closed, open, cs),
            self.closed_ok_except(start, g, closed, goal),
            0 <= j < open.len(),
            forall|k: int| 0 <= k < open.len() ==> open[j].0 <= #[trigger] open[k].0,
            !closed[self.index_of(open[j].1)],
            self.is_route_back(p, start, open[j].1),
            0 <= i < p.len(),
            g[self.index_of(p[i])] is Some,
            g[self.index_of(p[i])]->0 <= route_cost(p.subrange(i, p.len() as int)),
        ensures
            g[self.index_of(open[j].1)]->0 <= route_cost(p),
        decreases i,
    {
        let c = open[j].1;
        let n = p[i];
        assert(self.in_grid(n));
        if !closed[self.index_of(n)] {
            if i == 0 {
                assert(p.subrange(0, p.len() as int) =~= p);
            } else {
                let f = g[self.index_of(n)]->0 + octile(n, goal);
                assert(in_open_at(open, n, f));
                let k = choose|k: int| 0 <= k < open.len() && open[k].1 == n && open[k].0 == f;
                assert(open[j].0 <= open[k].0);
                let front = p.subrange(0, i + 1);
                assert forall|m: int| 0 <= m < front.len() - 1 implies #[trigger] adjacent(
                    front[m],
                    front[m + 1],
                ) by {
                    assert(adjacent(p[m], p[m + 1]));
                }
                lemma_chain_estimate(front, goal);
                lemma_route_cost_split(p, i);
            }
        } else {
            assert(i > 0);
            let m = p[i - 1];
            let h = i - 1;
            assert(adjacent(p[h], p[h + 1]));
            assert(self.is_free(m));
            assert(adjacent(n, m));
            assert(n != goal);
            assert(self.expanded(g, closed, n));
            let tail = p.subrange(i - 1, p.len() as int);
            assert(tail.drop_first() =~= p.subrange(i, p.len() as int));
            assert(route_cost(tail) == step_cost(m, n) + route_cost(p.subrange(i, p.len() as int)));
            if closed[self.index_of(m)] {
                self.lemma_route_suffix(p, start, open[j].1, i - 1);
                assert(self.settled(start, g, m));
                assert(self.is_route_back(tail, start, m));
            }
            self.lemma_settle_walk(start, goal, g, came, closed, open, cs, j, p, i - 1);
        }
    }

    #[verifier::rlimit(40)]
    proof fn lemma_settle(
        &self,
        start: Node,
        goal: Node,
        g: Seq<Option<u128>>,
        came: Seq<Option<Node>>,
        closed: Seq<bool>,
        open: Seq<(u128, Node)>,
        cs: Set<int>,
        j: int,
    )
        requires
            self.wf(),
            self.index_ok(),
            self.frontier_ok(start, goal, g, came, closed, open, cs),
            self.closed_ok_except(start, g, closed, goal),
            0 <= j < open.len(),
            forall|k: int| 0 <= k < open.len() ==> open[j].0 <= #[trigger] open[k].0,
            !closed[self.index_of(open[j].1)],
        ensures
            self.settled(start, g, open[j].1),
    {
        assert forall|p: Seq<Node>| #[trigger] self.is_route_back(p, start, open[j].1) implies g[self.index_of(
            open[j].1,
        )]->0 <= route_cost(p) by {
            let last = p.len() - 1;
            lemma_last_cell_cost(p);
            self.lemma_settle_walk(start, goal, g, came, closed, open, cs, j, p, last);
        }
    }

    /// Removing the entry at `j` keeps every other cell on the open list.
    proof fn lemma_pop(
        &self,
        start: Node,
        goal: Node,
        g: Seq<Option<u128>>,
        came: Seq<Option<Node>>,
        closed: Seq<bool>,
        before: Seq<(u128, Node)>,
        cs: Set<int>,
        j: int,
    )
        requires
            self.wf(),
            self.index_ok(),
            self.frontier_ok(start, goal, g, came, closed, before, cs),
            self.closed_ok_except(start, g, closed, goal),
            0 <= j < before.len(),
            forall|k: int| 0 <= k < before.len() ==> before[j].0 <= #[trigger] before[k].0,
        ensures
            self.in_grid(before[j].1),
            g[self.index_of(before[j].1)] is Some,
            !closed[self.index_of(before[j].1)] ==> self.settled(start, g, before[j].1),
            closed[self.index_of(before[j].1)] ==> self.frontier_ok(
                start,
                goal,
                g,
                came,
                closed,
                before.remove(j),
                cs,
            ),
            !closed[self.index_of(before[j].1)] && before[j].1 != goal ==> self.relax_ok(
                start,
                goal,
                g,
                came,
                closed.update(self.index_of(before[j].1), true),
                before.remove(j),
                cs.insert(self.index_of(before[j].1)),
                before[j].1,
                g[self.index_of(before[j].1)]->0,
            ),
    {
        let open = before.remove(j);
        let current = before[j].1;
        let ci = self.index_of(current);
        if !closed[ci] {
            self.lemma_settle(start, goal, g, came, closed, before, cs, j);
        }
        assert forall|n: Node|
            #![trigger self.index_of(n)]
            self.in_grid(n) && g[self.index_of(n)] is Some && !closed[self.index_of(n)] && n
                != current implies in_open_at(open, n, g[self.index_of(n)]->0 + octile(n, goal)) by {
            lemma_in_open_remove(before, j, n, g[self.index_of(n)]->0 + octile(n, goal));
        }
        assert forall|k: int| 0 <= k < open.len() implies self.in_grid(#[trigger] open[k].1)
            && g[self.index_of(open[k].1)] is Some && open[k].0 >= g[self.index_of(open[k].1)]->0
            + octile(open[k].1, goal) by {
            if k < j {
                assert(open[k] == before[k]);
            } else {
                assert(open[k] == before[k + 1]);
            }
        }
        reveal(Warehouse::relax_ok);
        if !closed[ci] && current != goal {
            let closed2 = closed.update(ci, true);
            let cs2 = cs.insert(ci);
            lemma_int_range(0, self.row_count() * self.col_count());
            lemma_len_subset(cs2, set_int_range(0, self.row_count() * self.col_count()));
            assert(!cs.contains(ci));
            assert(cs2.len() == cs.len() + 1);
            assert forall|i: int| 0 <= i < self.row_count() * self.col_count() implies (
            #[trigger] closed2[i] <==> cs2.contains(i)) by {
                if i != ci {
                    assert(closed2[i] == closed[i]);
                }
            }
            assert forall|n: Node|
                #![trigger self.index_of(n)]
                self.in_grid(n) && g[self.index_of(n)] is Some && !closed2[self.index_of(n)]
                    implies in_open_at(open, n, g[self.index_of(n)]->0 + octile(n, goal)) by {
                if n == current {
                    assert(closed2[ci]);
                }
            }
            assert forall|n: Node|
                #![trigger self.index_of(n)]
                self.in_grid(n) && closed2[self.index_of(n)] && n != current implies self.expanded(
                    g,
                    closed2,
                    n,
                ) && self.settled(start, g, n) by {
                assert(closed[self.index_of(n)]);
                assert(self.expanded(g, closed, n));
                assert forall|m: Node|
                    #![trigger self.index_of(m)]
                    self.is_free(m) && adjacent(n, m) implies g[self.index_of(m)] is Some && (
                    closed2[self.index_of(m)] || g[self.index_of(m)]->0 <= g[self.index_of(n)]->0
                        + step_cost(n, m)) by {
                    if closed[self.index_of(m)] {
                        assert(closed2[self.index_of(m)]);
                    }
                }
            }
            assert(0 <= ci < self.row_count() * self.col_count());
            assert(!closed2[self.index_of(goal)]);
            assert(cs2.subset_of(set_int_range(0, self.row_count() * self.col_count())));
            assert forall|n: Node|
                #![trigger self.index_of(n)]
                self.in_grid(n) && g[self.index_of(n)] is Some implies g[self.index_of(n)]->0 <= 14
                    * cs2.len() by {
                assert(g[self.index_of(n)]->0 <= 14 * cs.len());
            }
            assert(self.frontier_ok(start, goal, g, came, closed2, open, cs2));
        }
    }

    /// Examines one neighbour `nb` of the cell being expanded: a free cell not
    /// yet closed whose cost improves through `current` records `current` as
    /// its predecessor and goes on the open list.
    fn relax(
        &self,
        start: Node,
        goal: Node,
        current: Node,
        gc: u128,
        nb: Node,
        g: &mut Vec<Option<u128>>,
        came: &mut Vec<Option<Node>>,
        open: &mut Vec<(u128, Node)>,
        closed: &Vec<bool>,
        Ghost(cs): Ghost<Set<int>>,
    )
        requires
            self.wf(),
            self.index_ok(),
            self.relax_ok(start, goal, old(g)@, old(came)@, closed@, old(open)@, cs, current, gc),
            self.in_grid(nb),
            adjacent(current, nb),
        ensures
            self.relax_ok(start, goal, final(g)@, final(came)@, closed@, final(open)@, cs, current, gc),
            final(open)@.len() <= old(open)@.len() + 1,
            forall|m: Node|
                #![trigger self.index_of(m)]
                self.in_grid(m) && old(g)@[self.index_of(m)] is Some ==> final(g)@[self.index_of(m)] is Some
                    && final(g)@[self.index_of(m)]->0 <= old(g)@[self.index_of(m)]->0,
            self.is_free(nb) ==> final(g)@[self.index_of(nb)] is Some && (closed@[self.index_of(nb)]
                || final(g)@[self.index_of(nb)]->0 <= gc + step_cost(current, nb)),
            (final(g)@, final(came)@, closed@, final(open)@) == self.relax_spec(
                goal,
                (old(g)@, old(came)@, closed@, old(open)@),
                current,
                gc,
                nb,
            ),
    {
        reveal(Warehouse::relax_ok);
        let nb_slot = self.cell_slot(nb);
        let free = match self.is_occupied(nb) {
            Ok(occupied) => !occupied,
            Err(_) => false,
        };
        let step = current.get_distance(&nb);
        proof {
            assert(step == octile(current, nb) && step <= 14);
            assert(step == step_cost(current, nb));
        }
        if !free || closed[nb_slot] {
            return;
        }
        proof {
            self.lemma_extent();
            assert(cs.len() <= usize::MAX);
        }
        let tentative: u128 = gc + step as u128;
        let better = match g[nb_slot] {
            None => true,
            Some(known) => tentative < known,
        };
        if !better {
            return;
        }
        let ghost g0 = g@;
        let ghost came0 = came@;
        let ghost open0 = open@;
        came.set(nb_slot, Some(current));
        g.set(nb_slot, Some(tentative));
        let estimate = nb.get_distance(&goal);
        let e = (tentative + estimate as u128, nb);
        open.push(e);
        proof {
            assert(self.index_of(nb) != self.index_of(current));
            assert(self.pred_ok(g@, nb, current));
            assert forall|n: Node|
                #![trigger self.index_of(n)]
                self.in_grid(n) && came@[self.index_of(n)] is Some implies self.pred_ok(
                    g@,
                    n,
                    came@[self.index_of(n)]->0,
                ) by {
                if n != nb {
                    assert(self.pred_ok(g0, n, came0[self.index_of(n)]->0));
                }
            }
            assert forall|n: Node|
                #![trigger self.index_of(n)]
                self.in_grid(n) && g@[self.index_of(n)] is Some && !closed@[self.index_of(n)]
                    implies in_open_at(open@, n, g@[self.index_of(n)]->0 + octile(n, goal)) by {
                if n != nb {
                    assert(in_open_at(open0, n, g0[self.index_of(n)]->0 + octile(n, goal)));
                }
                lemma_in_open_push(open0, e, n, g@[self.index_of(n)]->0 + octile(n, goal));
            }
            assert forall|k: int| 0 <= k < open@.len() implies self.in_grid(#[trigger] open@[k].1)
                && g@[self.index_of(open@[k].1)] is Some && open@[k].0 >= g@[self.index_of(
                open@[k].1,
            )]->0 + octile(open@[k].1, goal) by {
                if k < open0.len() {
                    assert(open@[k] == open0[k]);
                }
            }
            assert forall|n: Node|
                #![trigger self.index_of(n)]
                self.in_grid(n) && closed@[self.index_of(n)] && n != current implies self.expanded(
                    g@,
                    closed@,
                    n,
                ) && self.settled(start, g@, n) by {
                assert(self.expanded(g0, closed@, n));
                assert(self.settled(start, g0, n));
            }
            assert(self.settled(start, g0, current));
        }
    }

    /// Examines every neighbour of `current`, which has just been closed.
    fn expand(
        &self,
        start: Node,
        goal: Node,
        current: Node,
        gc: u128,
        g: &mut Vec<Option<u128>>,
        came: &mut Vec<Option<Node>>,
        open: &mut Vec<(u128, Node)>,
        closed: &Vec<bool>,
        Ghost(cs): Ghost<Set<int>>,
    )
        requires
            self.wf(),
            self.index_ok(),
            self.relax_ok(start, goal, old(g)@, old(came)@, closed@, old(open)@, cs, current, gc),
        ensures
            self.relax_ok(start, goal, final(g)@, final(came)@, closed@, final(open)@, cs, current, gc),
            final(open)@.len() <= old(open)@.len() + 8,
            self.expanded(final(g)@, closed@, current),
            (final(g)@, final(came)@, closed@, final(open)@) == self.expand_spec(
                goal,
                (old(g)@, old(came)@, closed@, old(open)@),
                current,
                gc,
                neighbor_seq(current, self.row_count(), self.col_count()),
                neighbor_seq(current, self.row_count(), self.col_count()).len() as int,
            ),
    {
        proof {
            reveal(Warehouse::relax_ok);
        }
        let neighbors = current.get_neighbors(self.rows(), self.cols());
        let ghost open_base = open@.len();
        let ghost st0: SearchState = (g@, came@, closed@, open@);
        let mut i: usize = 0;
        while i < neighbors.len()
            invariant
                self.wf(),
                self.index_ok(),
                self.relax_ok(start, goal, g@, came@, closed@, open@, cs, current, gc),
                0 <= i <= neighbors.len(),
                neighbors.len() <= 8,
                neighbors@ == neighbor_seq(current, self.row_count(), self.col_count()),
                (g@, came@, closed@, open@) == self.expand_spec(goal, st0, current, gc, neighbors@, i as int),
                open@.len() <= open_base + i,
                forall|k: int|
                    0 <= k < neighbors.len() ==> self.in_grid(#[trigger] neighbors@[k])
                        && adjacent(current, neighbors@[k]),
                forall|k: int|
                    0 <= k < i && self.is_free(#[trigger] neighbors@[k]) ==> g@[self.index_of(
                        neighbors@[k],
                    )] is Some && (closed@[self.index_of(neighbors@[k])] || g@[self.index_of(
                        neighbors@[k],
                    )]->0 <= gc + step_cost(current, neighbors@[k])),
            decreases neighbors.len() - i,
        {
            let ghost g0 = g@;
            self.relax(start, goal, current, gc, neighbors[i], g, came, open, closed, Ghost(cs));
            proof {
                assert forall|k: int|
                    0 <= k < i + 1 && self.is_free(#[trigger] neighbors@[k]) implies g@[self.index_of(
                        neighbors@[k],
                    )] is Some && (closed@[self.index_of(neighbors@[k])] || g@[self.index_of(
                        neighbors@[k],
                    )]->0 <= gc + step_cost(current, neighbors@[k])) by {
                    if k < i {
                        assert(g0[self.index_of(neighbors@[k])] is Some);
                    }
                }
            }
            i += 1;
        }
        proof {
            reveal(Warehouse::relax_ok);
            assert forall|m: Node|
                #![trigger self.index_of(m)]
                self.is_free(m) && adjacent(current, m) implies g@[self.index_of(m)] is Some && (
                closed@[self.index_of(m)] || g@[self.index_of(m)]->0 <= g@[self.index_of(current)]->0
                    + step_cost(current, m)) by {
                assert(neighbors@.contains(m));
                let k = choose|k: int| 0 <= k < neighbors.len() && neighbors@[k] == m;
                assert(self.is_free(neighbors@[k]));
            }
            assert(self.expanded(g@, closed@, current));
        }
    }

    /// Once the open list is empty, every cell that a route from `start` can
    /// reach has been given a cost.
    proof fn lemma_route_marked(
        &self,
        start: Node,
        goal: Node,
        g: Seq<Option<u128>>,
        came: Seq<Option<Node>>,
        closed: Seq<bool>,
        open: Seq<(u128, Node)>,
        cs: Set<int>,
        p: Seq<Node>,
        i: int,
    )
        requires
            self.wf(),
            self.frontier_ok(start, goal, g, came, closed, open, cs),
            self.closed_ok_except(start, g, closed, goal),
            open.len() == 0,
            self.is_route_back(p, start, goal),
            0 <= i < p.len(),
        ensures
            g[self.index_of(p[i])] is Some,
        decreases p.len() - i,
    {
        if i < p.len() - 1 {
            self.lemma_route_marked(start, goal, g, came, closed, open, cs, p, i + 1);
            let n = p[i + 1];
            assert(self.in_grid(n));
            assert(closed[self.index_of(n)]);
            assert(adjacent(p[i], p[i + 1]));
            assert(self.is_free(p[i]));
            assert(adjacent(n, p[i]));
            assert(self.expanded(g, closed, n));
        }
    }

    /// A* search from `start` to `goal`. The result is `astar(start, goal)`:
    /// the route found is a shortest one, listed from the goal back to the
    /// start, both included, and it is `None` exactly when no walkable route
    /// joins the two cells. The start cell need not be free.
    pub fn find_path(&self, start: Node, goal: Node) -> (r: Option<Vec<Node>>)
        requires
            self.wf(),
            self.in_grid(start),
            self.in_grid(goal),
        ensures
            r is Some <==> self.reachable(start, goal),
            r matches Some(p) ==> self.is_shortest_route_back(p@, start, goal),
            r is None <==> self.astar(start, goal) is None,
            r matches Some(p) ==> self.astar(start, goal) == Some(p@),
    {
        proof {
            self.lemma_extent();
            self.lemma_index_injective();
            lemma_int_range(0, self.row_count() * self.col_count());
        }
        let n_cells: usize = (self.rows() as usize) * (self.cols() as usize);
        let mut g: Vec<Option<u128>> = filled(None, n_cells);
        let mut came: Vec<Option<Node>> = filled(None, n_cells);
        let mut closed: Vec<bool> = filled(false, n_cells);
        let mut open: Vec<(u128, Node)> = Vec::new();
        let ghost mut cs: Set<int> = Set::empty();
        let start_slot = self.cell_slot(start);
        g.set(start_slot, Some(0));
        open.push((start.get_distance(&goal) as u128, start));
        let ghost mut fuel: nat = (9 * self.row_count() * self.col_count() + 1) as nat;
        proof {
            assert((g@, came@, closed@, open@) =~~= self.initial_state(start, goal));
            assert(cs.len() == 0);
            let (r, c) = (self.row_count(), self.col_count());
            assert(9 * r * c == (r * c) * 9) by (nonlinear_arith);
            assert(open@[0].1 == start);
            assert(in_open_at(open@, start, 0 + octile(start, goal)));
            assert forall|n: Node|
                #![trigger self.index_of(n)]
                self.in_grid(n) && g@[self.index_of(n)] is Some implies n == start by {
                if n != start {
                    assert(self.index_of(n) != self.index_of(start));
                }
            }
        }
        while open.len() > 0
            invariant
                self.wf(),
                self.index_ok(),
                n_cells == self.row_count() * self.col_count(),
                self.frontier_ok(start, goal, g@, came@, closed@, open@, cs),
                self.closed_ok_except(start, g@, closed@, goal),
                self.run(goal, (g@, came@, closed@, open@), fuel) == self.astar(start, goal),
                (n_cells - cs.len()) * 9 + open.len() <= fuel,
            decreases (n_cells - cs.len()) * 9 + open.len(),
        {
            let j = min_entry(&open);
            let ghost before = open@;
            let ghost st: SearchState = (g@, came@, closed@, open@);
            proof {
                self.lemma_pop(start, goal, g@, came@, closed@, before, cs, j as int);
            }
            let entry = open.remove(j);
            let current = entry.1;
            proof {
                if current != goal {
                    assert(fuel > 0);
                    assert(self.run(goal, st, fuel) == self.run(goal, self.advance(goal, st), (fuel - 1) as nat));
                    fuel = (fuel - 1) as nat;
                }
            }
            if current == goal {
                let path = self.trace_back(&came, Ghost(g@), start, goal);
                return Some(path);
            }
            let cur_slot = self.cell_slot(current);
            if closed[cur_slot] {
                assert((g@, came@, closed@, open@) == self.advance(goal, st));
                continue;
            }
            let ghost cs_before = cs;
            closed.set(cur_slot, true);
            proof {
                cs = cs.insert(cur_slot as int);
            }
            let gc: u128 = g[cur_slot].unwrap();
            self.expand(start, goal, current, gc, &mut g, &mut came, &mut open, &closed, Ghost(cs));
            proof {
                assert((g@, came@, closed@, open@) == self.advance(goal, st));
                reveal(Warehouse::relax_ok);
                lemma_len_subset(cs, set_int_range(0, self.row_count() * self.col_count()));
                assert(!cs_before.contains(cur_slot as int));
                assert forall|n: Node|
                    #![trigger self.index_of(n)]
                    self.in_grid(n) && closed@[self.index_of(n)] && n != goal implies self.expanded(
                        g@,
                        closed@,
                        n,
                    ) && self.settled(start, g@, n) by {
                    if n != current {
                        assert(self.closed_ok_except(start, g@, closed@, current));
                    }
                }
            }
        }
        proof {
            if self.reachable(start, goal) {
                let p = choose|p: Seq<Node>| self.is_route_back(p, start, goal);
                self.lemma_route_marked(start, goal, g@, came@, closed@, open@, cs, p, 0);
            }
        }
        None
    }

    /// No walkable route costs less than the octile distance between its two
    /// ends, the estimate that guides the search.
    pub proof fn lemma_route_cost_at_least_heuristic(&self, p: Seq<Node>, start: Node, goal: Node)
        requires
            self.is_route_back(p, start, goal),
        ensures
            route_cost(p) >= octile(goal, start),
    {
        lemma_route_cost_lower_bound(p);
    }

    /// A goal whose adjacent cells in the grid are all occupied cannot be
    /// reached from a start cell elsewhere that does not touch it.
    pub proof fn lemma_enclosed_goal_unreachable(&self, start: Node, goal: Node)
        requires
            start != goal,
            !adjacent(goal, start),
            forall|m: Node| self.in_grid(m) && adjacent(goal, m) ==> #[trigger] self.occupied(m),
        ensures
            !self.reachable(start, goal),
    {
        if self.reachable(start, goal) {
            let p = choose|p: Seq<Node>| self.is_route_back(p, start, goal);
            assert(p.len() >= 2);
            let z: int = 0;
            assert(adjacent(p[z], p[z + 1]));
            assert(self.in_grid(p[1]));
            if p.len() > 2 {
                assert(self.is_free(p[1]));
            }
        }
    }

    /// On a grid without racks, a shortest route between two cells costs
    /// exactly the octile distance between them.
    pub proof fn lemma_open_grid_shortest_cost(&self, p: Seq<Node>, start: Node, goal: Node)
        requires
            self.in_grid(start),
            self.in_grid(goal),
            forall|n: Node| self.in_grid(n) ==> !#[trigger] self.occupied(n),
            self.is_shortest_route_back(p, start, goal),
        ensures
            route_cost(p) == octile(goal, start),
    {
        lemma_route_cost_lower_bound(p);
        lemma_direct_route(goal, start);
        let q = direct_route(goal, start);
        assert forall|i: int| 0 <= i < q.len() implies self.in_grid(#[trigger] q[i]) by {
            let n = q[i];
            assert((goal.x <= n.x <= start.x || start.x <= n.x <= goal.x) && (goal.y <= n.y
                <= start.y || start.y <= n.y <= goal.y));
        }
        assert forall|i: int| 0 <= i < q.len() - 1 implies self.is_free(#[trigger] q[i]) by {
            assert(self.in_grid(q[i]));
        }
        assert(self.is_route_back(q, start, goal));
    }
}

} // verus!
