//! The index-based search engine: frontier and closed sets are dense boolean
//! arrays and the route table a dense array of optional predecessors, all
//! addressed by the row-major linear cell index and allocated eagerly for the
//! whole grid.  The score tables are the shared ordered list.  `calc` is
//! proved to return exactly the model's result for the engine's grid data.
use crate::lemmas;
use crate::model;
use crate::model::{CellM, SearchState};
use crate::rng;
use crate::score::ScoreTable;
use vstd::pervasive::VecAdditionalExecFns;
use vstd::prelude::*;

verus! {

broadcast use vstd::seq_lib::group_seq_properties, vstd::seq_lib::seq_to_set_is_finite;

/// A grid cell: an integer coordinate pair.
#[derive(Debug, PartialEq, Eq, Structural, Clone, Copy)]
pub struct Node {
    x: i64,
    y: i64,
}

impl View for Node {
    type V = CellM;

    closed spec fn view(&self) -> CellM {
        (self.x as int, self.y as int)
    }
}

impl Node {
    pub fn new(x: i64, y: i64) -> (r: Node)
        ensures
            r@ == (x as int, y as int),
    {
        return Node { x, y };
    }

    /// The horizontal coordinate.
    pub fn x(&self) -> (r: i64)
        ensures
            r == self@.0,
    {
        return self.x;
    }

    /// The vertical coordinate.
    pub fn y(&self) -> (r: i64)
        ensures
            r == self@.1,
    {
        return self.y;
    }
}

/// Grid dimensions.
#[derive(Debug, PartialEq, Eq, Structural, Clone, Copy)]
pub struct Size {
    w: i64,
    h: i64,
}

impl View for Size {
    type V = (int, int);

    closed spec fn view(&self) -> (int, int) {
        (self.w as int, self.h as int)
    }
}

impl Size {
    pub fn new(w: i64, h: i64) -> (r: Size)
        ensures
            r@ == (w as int, h as int),
    {
        return Size { w, h };
    }
}

/// The cells a dense boolean membership array marks.
pub open spec fn marks(v: Seq<bool>, w: int, h: int) -> Set<CellM> {
    Set::new(|c: CellM| model::in_bounds(w, h, c) && v[model::lin_idx(w, c)])
}

/// The predecessor recorded for a cell, when one is.
pub open spec fn route_at(v: Seq<Option<Node>>, w: int, c: CellM) -> CellM {
    match v[model::lin_idx(w, c)] {
        Some(n) => n@,
        None => (0, 0),
    }
}

/// The predecessor map a dense route array holds.
pub open spec fn routes(v: Seq<Option<Node>>, w: int, h: int) -> Map<CellM, CellM> {
    Map::new(
        |c: CellM| model::in_bounds(w, h, c) && (v[model::lin_idx(w, c)] is Some),
        |c: CellM| route_at(v, w, c),
    )
}

/// Flipping one cell's mark inserts or removes exactly that cell.
proof fn lemma_marks_update(v: Seq<bool>, w: int, h: int, c: CellM, b: bool)
    requires
        v.len() == w * h,
        model::in_bounds(w, h, c),
    ensures
        marks(v.update(model::lin_idx(w, c), b), w, h) == if b {
            marks(v, w, h).insert(c)
        } else {
            marks(v, w, h).remove(c)
        },
{
    lemmas::lemma_lidx(w, h, c, c);
    let v2 = v.update(model::lin_idx(w, c), b);
    assert forall|d: CellM| #[trigger] marks(v2, w, h).contains(d) == (if b {
        marks(v, w, h).insert(c)
    } else {
        marks(v, w, h).remove(c)
    }).contains(d) by {
        if model::in_bounds(w, h, d) {
            lemmas::lemma_lidx(w, h, d, c);
        }
    }
    if b {
        assert(marks(v2, w, h) =~= marks(v, w, h).insert(c));
    } else {
        assert(marks(v2, w, h) =~= marks(v, w, h).remove(c));
    }
}

/// Recording one cell's predecessor inserts exactly that entry.
proof fn lemma_routes_update(v: Seq<Option<Node>>, w: int, h: int, c: CellM, n: Node)
    requires
        v.len() == w * h,
        model::in_bounds(w, h, c),
    ensures
        routes(v.update(model::lin_idx(w, c), Some(n)), w, h) == routes(v, w, h).insert(c, n@),
{
    lemmas::lemma_lidx(w, h, c, c);
    let v2 = v.update(model::lin_idx(w, c), Some(n));
    assert forall|d: CellM| #[trigger] routes(v2, w, h).dom().contains(d) == routes(
        v,
        w,
        h,
    ).insert(c, n@).dom().contains(d) by {
        if model::in_bounds(w, h, d) {
            lemmas::lemma_lidx(w, h, d, c);
        }
    }
    assert forall|d: CellM| routes(v2, w, h).dom().contains(d) implies #[trigger] routes(
        v2,
        w,
        h,
    )[d] == routes(v, w, h).insert(c, n@)[d] by {
        if model::in_bounds(w, h, d) {
            lemmas::lemma_lidx(w, h, d, c);
        }
    }
    assert(routes(v2, w, h) =~= routes(v, w, h).insert(c, n@));
}

/// A membership array for the whole grid, initially empty.
fn set_new(len: usize) -> (r: Vec<bool>)
    ensures
        r@.len() == len,
        forall|i: int| 0 <= i < len ==> !(#[trigger] r@[i]),
{
    let mut v: Vec<bool> = Vec::new();
    let mut n: usize = 0;
    while n < len
        invariant
            0 <= n <= len,
            v@.len() == n,
            forall|i: int| 0 <= i < n ==> !(#[trigger] v@[i]),
        decreases len - n,
    {
        v.push(false);
        n = n + 1;
    }
    return v;
}

/// A route array for the whole grid, initially without predecessors.
fn map_new(len: usize) -> (r: Vec<Option<Node>>)
    ensures
        r@.len() == len,
        forall|i: int| 0 <= i < len ==> (#[trigger] r@[i]) is None,
{
    let mut v: Vec<Option<Node>> = Vec::new();
    let mut n: usize = 0;
    while n < len
        invariant
            0 <= n <= len,
            v@.len() == n,
            forall|i: int| 0 <= i < n ==> (#[trigger] v@[i]) is None,
        decreases len - n,
    {
        v.push(None);
        n = n + 1;
    }
    return v;
}

/// The index-based engine: grid data plus a terrain cost table fixed at
/// construction.
pub struct AStar {
    size: Size,
    grid: Vec<i64>,
    start: Node,
    end: Node,
}

impl AStar {
    pub closed spec fn width(&self) -> int {
        self.size.w as int
    }

    pub closed spec fn height(&self) -> int {
        self.size.h as int
    }

    pub closed spec fn costs(&self) -> Seq<int> {
        model::grid_view(self.grid@)
    }

    pub closed spec fn start_cell(&self) -> CellM {
        self.start@
    }

    pub closed spec fn end_cell(&self) -> CellM {
        self.end@
    }

    /// A well-formed engine: positive dimensions small enough that no score
    /// computation can overflow, a full cost table with costs in [0, 100),
    /// and start and goal in bounds.
    pub closed spec fn wf(&self) -> bool {
        &&& 1 <= self.size.w <= 0x10000000
        &&& 1 <= self.size.h <= 0x10000000
        &&& self.size.w * self.size.h <= usize::MAX
        &&& self.grid@.len() == self.size.w * self.size.h
        &&& (forall|i: int| 0 <= i < self.grid@.len() ==> 0 <= #[trigger] self.grid@[i] < 100)
        &&& model::in_bounds(self.width(), self.height(), self.start@)
        &&& model::in_bounds(self.width(), self.height(), self.end@)
    }

    /// Build an engine over a freshly sampled terrain table: one independent
    /// uniform cost in [0, 100) per cell.
    #[verifier::loop_isolation(false)]
    pub fn new(size: Size, start: Node, end: Node) -> (r: AStar)
        requires
            1 <= size@.0 <= 0x10000000,
            1 <= size@.1 <= 0x10000000,
            size@.0 * size@.1 <= usize::MAX,
            model::in_bounds(size@.0, size@.1, start@),
            model::in_bounds(size@.0, size@.1, end@),
        ensures
            r.wf(),
            r.width() == size@.0,
            r.height() == size@.1,
            r.start_cell() == start@,
            r.end_cell() == end@,
            r.costs().len() == size@.0 * size@.1,
    {
        let mut grid: Vec<i64> = Vec::new();
        let mut rng = rng::new_rng();
        proof {
            assert(size.w * size.h <= 0x100000000000000) by (nonlinear_arith)
                requires
                    1 <= size.w <= 0x10000000,
                    1 <= size.h <= 0x10000000,
            ;
        }
        let length: i64 = size.w * size.h;
        let mut n: i64 = 0;
        while n < length
            invariant
                0 <= n <= length,
                grid@.len() == n,
                forall|i: int| 0 <= i < grid@.len() ==> 0 <= #[trigger] grid@[i] < 100,
            decreases length - n,
        {
            grid.push(rng::sample_cost(&mut rng));
            n = n + 1;
        }
        return AStar { size, grid, start, end };
    }

    /// Build an engine over a caller-supplied terrain cost table, for
    /// reproducible searches.
    pub fn with_costs(size: Size, costs: Vec<i64>, start: Node, end: Node) -> (r: AStar)
        requires
            1 <= size@.0 <= 0x10000000,
            1 <= size@.1 <= 0x10000000,
            size@.0 * size@.1 <= usize::MAX,
            costs@.len() == size@.0 * size@.1,
            forall|i: int| 0 <= i < costs@.len() ==> 0 <= #[trigger] costs@[i] < 100,
            model::in_bounds(size@.0, size@.1, start@),
            model::in_bounds(size@.0, size@.1, end@),
        ensures
            r.wf(),
            r.width() == size@.0,
            r.height() == size@.1,
            r.start_cell() == start@,
            r.end_cell() == end@,
            r.costs() == model::grid_view(costs@),
    {
        return AStar { size, grid: costs, start, end };
    }

    /// Row-major linear index of a cell.
    fn node_idx(&self, node: &Node) -> (r: i64)
        requires
            self.wf(),
            model::in_bounds(self.width(), self.height(), node@),
        ensures
            r == model::lin_idx(self.width(), node@),
            0 <= r < self.width() * self.height(),
    {
        proof {
            lemmas::lemma_lidx(self.width(), self.height(), node@, node@);
            assert(0 <= self.size.w * node.y && self.size.w * node.y <= 0x100000000000000)
                by (nonlinear_arith)
                requires
                    0 <= node.y < self.size.h,
                    1 <= self.size.w <= 0x10000000,
                    self.size.h <= 0x10000000,
            ;
        }
        return self.size.w * node.y + node.x;
    }

    /// The heuristic estimate between two cells: Manhattan distance plus
    /// both endpoints' terrain costs.
    fn estimate_cost(&self, node1: &Node, node2: &Node) -> (r: i64)
        requires
            self.wf(),
            model::in_bounds(self.width(), self.height(), node1@),
            model::in_bounds(self.width(), self.height(), node2@),
        ensures
            r == model::estimate(self.costs(), self.width(), node1@, node2@),
            0 <= r < 0x40000000,
    {
        let dx: i64 = if node1.x >= node2.x {
            node1.x - node2.x
        } else {
            node2.x - node1.x
        };
        let dy: i64 = if node1.y >= node2.y {
            node1.y - node2.y
        } else {
            node2.y - node1.y
        };
        let i1: i64 = self.node_idx(node1);
        let i2: i64 = self.node_idx(node2);
        proof {
            assert(self.costs()[i1 as int] == self.grid@[i1 as int] as int);
            assert(self.costs()[i2 as int] == self.grid@[i2 as int] as int);
        }
        return dx + dy + self.grid[i1 as usize] + self.grid[i2 as usize];
    }

    /// The Moore neighbourhood of a cell clipped to the grid, in the
    /// traversal order the model fixes.
    fn get_neighbors(&self, node: Node) -> (r: Vec<Node>)
        requires
            self.wf(),
            model::in_bounds(self.width(), self.height(), node@),
        ensures
            path_view(r@) == model::neighbor_list(self.width(), self.height(), node@),
    {
        let ghost wv: int = self.width();
        let ghost hv: int = self.height();
        let ghost c: CellM = node@;
        let mut nodes: Vec<Node> = Vec::new();
        if node.x - 1 >= 0 && node.x - 1 < self.size.w && node.y - 1 >= 0 && node.y - 1
            < self.size.h {
            nodes.push(Node { x: node.x - 1, y: node.y - 1 });
        }
        proof {
            assert(path_view(nodes@) =~= model::cand(wv, hv, c, -1, -1));
        }
        if node.x - 1 >= 0 && node.x - 1 < self.size.w && node.y >= 0 && node.y < self.size.h {
            nodes.push(Node { x: node.x - 1, y: node.y });
        }
        proof {
            assert(path_view(nodes@) =~= model::cand(wv, hv, c, -1, -1) + model::cand(
                wv,
                hv,
                c,
                -1,
                0,
            ));
        }
        if node.x - 1 >= 0 && node.x - 1 < self.size.w && node.y + 1 >= 0 && node.y + 1
            < self.size.h {
            nodes.push(Node { x: node.x - 1, y: node.y + 1 });
        }
        proof {
            assert(path_view(nodes@) =~= model::cand(wv, hv, c, -1, -1) + model::cand(
                wv,
                hv,
                c,
                -1,
                0,
            ) + model::cand(wv, hv, c, -1, 1));
        }
        if node.x >= 0 && node.x < self.size.w && node.y - 1 >= 0 && node.y - 1 < self.size.h {
            nodes.push(Node { x: node.x, y: node.y - 1 });
        }
        proof {
            assert(path_view(nodes@) =~= model::cand(wv, hv, c, -1, -1) + model::cand(
                wv,
                hv,
                c,
                -1,
                0,
            ) + model::cand(wv, hv, c, -1, 1) + model::cand(wv, hv, c, 0, -1));
        }
        if node.x >= 0 && node.x < self.size.w && node.y + 1 >= 0 && node.y + 1 < self.size.h {
            nodes.push(Node { x: node.x, y: node.y + 1 });
        }
        proof {
            assert(path_view(nodes@) =~= model::cand(wv, hv, c, -1, -1) + model::cand(
                wv,
                hv,
                c,
                -1,
                0,
            ) + model::cand(wv, hv, c, -1, 1) + model::cand(wv, hv, c, 0, -1) + model::cand(
                wv,
                hv,
                c,
                0,
                1,
            ));
        }
        if node.x + 1 >= 0 && node.x + 1 < self.size.w && node.y - 1 >= 0 && node.y - 1
            < self.size.h {
            nodes.push(Node { x: node.x + 1, y: node.y - 1 });
        }
        proof {
            assert(path_view(nodes@) =~= model::cand(wv, hv, c, -1, -1) + model::cand(
                wv,
                hv,
                c,
                -1,
                0,
            ) + model::cand(wv, hv, c, -1, 1) + model::cand(wv, hv, c, 0, -1) + model::cand(
                wv,
                hv,
                c,
                0,
                1,
            ) + model::cand(wv, hv, c, 1, -1));
        }
        if node.x + 1 >= 0 && node.x + 1 < self.size.w && node.y >= 0 && node.y < self.size.h {
            nodes.push(Node { x: node.x + 1, y: node.y });
        }
        proof {
            assert(path_view(nodes@) =~= model::cand(wv, hv, c, -1, -1) + model::cand(
                wv,
                hv,
                c,
                -1,
                0,
            ) + model::cand(wv, hv, c, -1, 1) + model::cand(wv, hv, c, 0, -1) + model::cand(
                wv,
                hv,
                c,
                0,
                1,
            ) + model::cand(wv, hv, c, 1, -1) + model::cand(wv, hv, c, 1, 0));
        }
        if node.x + 1 >= 0 && node.x + 1 < self.size.w && node.y + 1 >= 0 && node.y + 1
            < self.size.h {
            nodes.push(Node { x: node.x + 1, y: node.y + 1 });
        }
        proof {
            assert(path_view(nodes@) =~= model::neighbor_list(wv, hv, c));
        }
        return nodes;
    }

    /// The first f-score entry whose cell is still in the frontier, falling
    /// back to the structurally first entry.
    #[verifier::loop_isolation(false)]
    fn get_lowest(&self, set_nodes: &Vec<bool>, map_scores: &ScoreTable) -> (r: Node)
        requires
            self.wf(),
            set_nodes@.len() == self.width() * self.height(),
            map_scores@.len() > 0,
            forall|j: int|
                0 <= j < map_scores@.len() ==> model::in_bounds(
                    self.width(),
                    self.height(),
                    (#[trigger] map_scores@[j]).0,
                ),
            marks(set_nodes@, self.width(), self.height()).contains(map_scores@[0].0),
        ensures
            r@ == map_scores@[0].0,
    {
        let n: usize = map_scores.len();
        let mut i: usize = 0;
        while i < n
            invariant
                0 <= i <= n,
                forall|j: int|
                    0 <= j < i ==> !marks(set_nodes@, self.width(), self.height()).contains(
                        (#[trigger] map_scores@[j]).0,
                    ),
            decreases n - i,
        {
            let e: ((i64, i64), i64) = map_scores.entry_at(i);
            let node = Node { x: (e.0).0, y: (e.0).1 };
            let idx: i64 = self.node_idx(&node);
            if set_nodes[idx as usize] {
                proof {
                    assert(marks(set_nodes@, self.width(), self.height()).contains(node@));
                }
                return node;
            }
            proof {
                assert(!marks(set_nodes@, self.width(), self.height()).contains(node@));
            }
            i = i + 1;
        }
        proof {
            assert(false);
        }
        let e0: ((i64, i64), i64) = map_scores.entry_at(0);
        return Node { x: (e0.0).0, y: (e0.0).1 };
    }

    /// Does the route table record a predecessor for this cell?
    fn map_contains(&self, map_route: &Vec<Option<Node>>, node: &Node) -> (r: bool)
        requires
            self.wf(),
            map_route@.len() == self.width() * self.height(),
            model::in_bounds(self.width(), self.height(), node@),
        ensures
            r == (map_route@[model::lin_idx(self.width(), node@)] is Some),
    {
        let i: i64 = self.node_idx(node);
        return map_route[i as usize].is_some();
    }

    /// The recorded predecessor of a cell.
    fn map_get(&self, map_route: &Vec<Option<Node>>, node: &Node) -> (r: Node)
        requires
            self.wf(),
            map_route@.len() == self.width() * self.height(),
            model::in_bounds(self.width(), self.height(), node@),
            map_route@[model::lin_idx(self.width(), node@)] is Some,
        ensures
            r@ == route_at(map_route@, self.width(), node@),
    {
        let i: i64 = self.node_idx(node);
        return match map_route[i as usize] {
            Some(n) => n,
            None => {
                proof {
                    assert(false);
                }
                *node
            },
        };
    }

    /// Follow the route table from a cell back to the start.
    #[verifier::loop_isolation(false)]
    fn reconstruct(
        &self,
        map_route: Vec<Option<Node>>,
        node: Node,
        Ghost(st): Ghost<SearchState>,
    ) -> (r: Vec<Node>)
        requires
            self.wf(),
            map_route@.len() == self.width() * self.height(),
            routes(map_route@, self.width(), self.height()) == st.route,
            model::inv(self.width(), self.height(), self.start_cell(), self.end_cell(), st),
            model::opened(st).contains(node@),
            model::in_bounds(self.width(), self.height(), node@),
        ensures
            path_view(r@) == model::walk(
                st.route,
                node@,
                (self.width() * self.height()) as nat,
            ),
    {
        let ghost wv: int = self.width();
        let ghost hv: int = self.height();
        let ghost fuel0: nat = (wv * hv) as nat;
        proof {
            lemmas::lemma_closed_bound(wv, hv, self.end_cell(), st.closed);
            lemmas::lemma_rank_basic(st.closed, node@);
        }
        let mut total_path: Vec<Node> = Vec::new();
        let mut current: Node = node;
        total_path.push(current);
        proof {
            assert(path_view(total_path@) =~= seq![node@]);
            assert(path_view(total_path@).drop_last() =~= Seq::<CellM>::empty());
            assert(model::walk(st.route, node@, fuel0) =~= path_view(total_path@).drop_last()
                + model::walk(st.route, node@, (fuel0 - 0) as nat));
        }
        while self.map_contains(&map_route, &current)
            invariant
                total_path@.len() >= 1,
                path_view(total_path@).last() == current@,
                model::opened(st).contains(current@),
                model::in_bounds(wv, hv, current@),
                fuel0 - (total_path@.len() - 1) >= model::rank_of(st.closed, current@) + 1,
                model::walk(st.route, node@, fuel0) == path_view(total_path@).drop_last()
                    + model::walk(
                    st.route,
                    current@,
                    (fuel0 - (total_path@.len() - 1)) as nat,
                ),
            decreases model::rank_of(st.closed, current@),
        {
            let ghost rest: nat = (fuel0 - (total_path@.len() - 1)) as nat;
            proof {
                assert(st.route.dom().contains(current@));
            }
            let nxt: Node = self.map_get(&map_route, &current);
            let ghost prev: CellM = current@;
            proof {
                assert(st.route.dom().contains(prev));
                assert(st.route[prev] == route_at(map_route@, wv, prev));
                assert(st.route[prev] == nxt@);
                assert(model::closed_set(st).contains(st.route[prev]));
                let i = choose|i: int| 0 <= i < st.closed.len() && st.closed[i] == st.route[prev];
                assert(model::in_bounds(wv, hv, st.closed[i]));
                lemmas::lemma_rank_basic(st.closed, st.route[prev]);
            }
            current = nxt;
            total_path.push(current);
            proof {
                assert(model::walk(st.route, prev, rest) == seq![prev] + model::walk(
                    st.route,
                    current@,
                    (rest - 1) as nat,
                ));
                assert(path_view(total_path@).last() == current@);
                assert(path_view(total_path@).drop_last() =~= path_view(
                    total_path@,
                ).drop_last().drop_last() + seq![prev]);
                assert(path_view(total_path@).drop_last() + model::walk(
                    st.route,
                    current@,
                    (rest - 1) as nat,
                ) =~= (path_view(total_path@).drop_last().drop_last() + seq![prev]) + model::walk(
                    st.route,
                    current@,
                    (rest - 1) as nat,
                ));
                assert((path_view(total_path@).drop_last().drop_last() + seq![prev]) + model::walk(
                    st.route,
                    current@,
                    (rest - 1) as nat,
                ) =~= path_view(total_path@).drop_last().drop_last() + (seq![prev] + model::walk(
                    st.route,
                    current@,
                    (rest - 1) as nat,
                )));
            }
        }
        proof {
            assert(!st.route.dom().contains(current@));
            assert(model::walk(
                st.route,
                current@,
                (fuel0 - (total_path@.len() - 1)) as nat,
            ) =~= seq![current@]);
            assert(path_view(total_path@).drop_last() + seq![current@] =~= path_view(total_path@));
        }
        return total_path;
    }

    /// Run the search: returns the path from the goal back to the start, or
    /// nothing if the frontier empties first.  The result is exactly what
    /// the model computes from the engine's grid data, so equal grids give
    /// equal paths, whichever engine runs them.
    #[verifier::loop_isolation(false)]
    pub fn calc(&self) -> (r: Option<Vec<Node>>)
        requires
            self.wf(),
        ensures
            ({
                let res = model::astar_result(
                    self.width(),
                    self.height(),
                    self.costs(),
                    self.start_cell(),
                    self.end_cell(),
                );
                match r {
                    Some(v) => res == Some(path_view(v@)),
                    None => res is None,
                }
            }),
    {
        let ghost wv: int = self.width();
        let ghost hv: int = self.height();
        let ghost gv: Seq<int> = self.costs();
        let ghost sv: CellM = self.start_cell();
        let ghost ev: CellM = self.end_cell();
        proof {
            assert(wv * hv >= 1) by (nonlinear_arith)
                requires
                    1 <= wv,
                    1 <= hv,
            ;
            assert(self.size.w * self.size.h <= 0x100000000000000) by (nonlinear_arith)
                requires
                    1 <= self.size.w <= 0x10000000,
                    1 <= self.size.h <= 0x10000000,
            ;
        }
        let length: usize = (self.size.w * self.size.h) as usize;
        let mut set_open: Vec<bool> = set_new(length);
        let mut set_closed: Vec<bool> = set_new(length);
        let mut map_route: Vec<Option<Node>> = map_new(length);
        let mut map_gscore: ScoreTable = ScoreTable::new();
        let mut map_fscore: ScoreTable = ScoreTable::new();

        let si: i64 = self.node_idx(&self.start);
        let ghost open0: Seq<bool> = set_open@;
        set_open.set(si as usize, true);
        map_gscore.insert_score((self.start.x, self.start.y), 0);
        let est0: i64 = self.estimate_cost(&self.start, &self.end);
        map_fscore.insert_score((self.start.x, self.start.y), est0);

        let ghost mut st = model::init_state(wv, gv, sv, ev);
        let ghost total = model::astar_result(wv, hv, gv, sv, ev);
        proof {
            lemmas::lemma_init(wv, hv, gv, sv, ev);
            assert(marks(open0, wv, hv) =~= Set::<CellM>::empty()) by {
                assert forall|d: CellM| !(#[trigger] marks(open0, wv, hv).contains(d)) by {
                    if model::in_bounds(wv, hv, d) {
                        lemmas::lemma_lidx(wv, hv, d, d);
                    }
                }
            }
            lemma_marks_update(open0, wv, hv, sv, true);
            assert(set_open@ == open0.update(model::lin_idx(wv, sv), true));
            assert(marks(set_open@, wv, hv) =~= st.open_cells);
            assert(marks(set_closed@, wv, hv) =~= Set::<CellM>::empty()) by {
                assert forall|d: CellM| !(#[trigger] marks(set_closed@, wv, hv).contains(d)) by {
                    if model::in_bounds(wv, hv, d) {
                        lemmas::lemma_lidx(wv, hv, d, d);
                    }
                }
            }
            assert(routes(map_route@, wv, hv) =~= st.route) by {
                assert forall|d: CellM| !(#[trigger] routes(map_route@, wv, hv).dom().contains(
                    d,
                )) by {
                    if model::in_bounds(wv, hv, d) {
                        lemmas::lemma_lidx(wv, hv, d, d);
                    }
                }
            }
            assert(map_gscore@ == st.gscore);
            assert(map_fscore@ == st.fscore);
            assert(total == model::search(
                wv,
                hv,
                gv,
                ev,
                st,
                ((wv * hv + 1) - st.closed.len()) as nat,
            ));
        }
        while set_open.len() != 0
            invariant
                model::inv_full(wv, hv, sv, ev, st),
                set_open@.len() == wv * hv,
                set_closed@.len() == wv * hv,
                map_route@.len() == wv * hv,
                marks(set_open@, wv, hv) == st.open_cells,
                forall|c: CellM| marks(set_closed@, wv, hv).contains(c) <==> st.closed.contains(c),
                routes(map_route@, wv, hv) == st.route,
                map_gscore@ == st.gscore,
                map_fscore@ == st.fscore,
                model::search(wv, hv, gv, ev, st, ((wv * hv + 1) - st.closed.len()) as nat)
                    == total,
                st.closed.len() <= wv * hv,
            decreases wv * hv - st.closed.len(),
        {
            let ghost fuel: nat = ((wv * hv + 1) - st.closed.len()) as nat;
            proof {
                lemmas::lemma_open_nonempty(wv, hv, sv, ev, st);
                lemmas::lemma_closed_bound(wv, hv, ev, st.closed);
                lemmas::lemma_cells_iff(st.fscore, st.fscore[0].0);
                assert(st.open_cells.contains(st.fscore[0].0));
                lemmas::lemma_select_first(st.fscore, st.open_cells);
                assert forall|j: int| 0 <= j < st.fscore.len() implies model::in_bounds(
                    wv,
                    hv,
                    (#[trigger] st.fscore[j]).0,
                ) by {
                    assert(model::nodes_of(st.fscore)[j] == st.fscore[j].0);
                    assert(model::cells_of(st.fscore).contains(st.fscore[j].0));
                }
            }
            let current: Node = self.get_lowest(&set_open, &map_fscore);
            if current == self.end {
                proof {
                    assert(current@ == ev);
                    lemmas::lemma_rank_basic(st.closed, ev);
                    assert(model::search(wv, hv, gv, ev, st, fuel) == Some(
                        model::walk(st.route, ev, (wv * hv) as nat),
                    ));
                }
                let path = self.reconstruct(map_route, current, Ghost(st));
                return Some(path);
            }
            let ci: i64 = self.node_idx(&current);
            let ghost open_b: Seq<bool> = set_open@;
            set_open.set(ci as usize, false);
            map_gscore.remove_score((current.x, current.y));
            map_fscore.remove_score((current.x, current.y));
            let ghost closed_b: Seq<bool> = set_closed@;
            set_closed.set(ci as usize, true);
            let ghost cur: CellM = current@;
            let ghost st1 = SearchState {
                open_cells: st.open_cells.remove(cur),
                closed: st.closed.push(cur),
                route: st.route,
                gscore: model::tbl_remove(st.gscore, cur),
                fscore: model::tbl_remove(st.fscore, cur),
            };
            proof {
                assert(cur == st.fscore[0].0);
                assert(cur != ev);
                lemma_marks_update(open_b, wv, hv, cur, false);
                assert(set_open@ == open_b.update(model::lin_idx(wv, cur), false));
                lemma_marks_update(closed_b, wv, hv, cur, true);
                assert(set_closed@ == closed_b.update(model::lin_idx(wv, cur), true));
                lemmas::lemma_expand_pres(wv, hv, gv, sv, ev, st);
                assert(marks(set_open@, wv, hv) == st1.open_cells);
                assert forall|c: CellM| marks(set_closed@, wv, hv).contains(c)
                    <==> st1.closed.contains(c) by {
                    if st1.closed.contains(c) {
                        let i = choose|i: int| 0 <= i < st1.closed.len() && st1.closed[i] == c;
                        if i < st.closed.len() {
                            assert(st.closed.contains(c));
                        }
                    }
                    if st.closed.contains(c) {
                        let i = choose|i: int| 0 <= i < st.closed.len() && st.closed[i] == c;
                        assert(st1.closed[i] == c);
                    }
                    assert(st1.closed[st.closed.len() as int] == cur);
                }
            }
            let neighbors: Vec<Node> = self.get_neighbors(current);
            let ghost ns: Seq<CellM> = model::neighbor_list(wv, hv, cur);
            let ghost mut stj = st1;
            proof {
                assert(ns.take(0) =~= Seq::<CellM>::empty());
                assert(model::relax_all(wv, gv, ev, st1, cur, ns.take(0)) == st1);
                lemmas::lemma_neighbor_elems(wv, hv, cur);
                assert(stj.closed.contains(cur)) by {
                    assert(stj.closed[st.closed.len() as int] == cur);
                }
            }
            let mut j: usize = 0;
            while j < neighbors.len()
                invariant
                    0 <= j <= neighbors.len(),
                    stj == model::relax_all(wv, gv, ev, st1, cur, ns.take(j as int)),
                    model::inv(wv, hv, sv, ev, stj),
                    stj.closed == st1.closed,
                    set_open@.len() == wv * hv,
                    set_closed@.len() == wv * hv,
                    map_route@.len() == wv * hv,
                    marks(set_open@, wv, hv) == stj.open_cells,
                    forall|c: CellM| marks(set_closed@, wv, hv).contains(c) <==> stj.closed.contains(
                        c,
                    ),
                    routes(map_route@, wv, hv) == stj.route,
                    map_gscore@ == stj.gscore,
                    map_fscore@ == stj.fscore,
                decreases neighbors.len() - j,
            {
                let neighbor: Node = neighbors[j];
                let ghost nv: CellM = neighbor@;
                proof {
                    assert(ns[j as int] == nv);
                    assert(ns.contains(nv));
                    assert(model::in_bounds(wv, hv, nv) && model::moore_adjacent(cur, nv));
                    assert(stj.closed.contains(cur)) by {
                        assert(stj.closed[st.closed.len() as int] == cur);
                    }
                }
                let ni: i64 = self.node_idx(&neighbor);
                let in_closed: bool = set_closed[ni as usize];
                proof {
                    assert(in_closed == marks(set_closed@, wv, hv).contains(nv));
                }
                if in_closed {
                    proof {
                        assert(stj.closed.contains(nv));
                        assert(model::relax_one(wv, gv, ev, stj, cur, nv) == stj);
                    }
                } else {
                    proof {
                        assert(!stj.closed.contains(nv));
                    }
                    let g0: i64 = match map_gscore.get_score((neighbor.x, neighbor.y)) {
                        Some(g) => g,
                        None => 0,
                    };
                    proof {
                        assert(g0 as int == model::score_or_zero(stj.gscore, nv));
                        if model::tbl_get(stj.gscore, nv) is Some {
                            lemmas::lemma_tbl_get_value(stj.gscore, nv, g0 as int);
                            let i = choose|i: int|
                                0 <= i < stj.gscore.len() && (#[trigger] stj.gscore[i]) == (
                                nv,
                                g0 as int,
                                );
                            assert(0 <= g0 <= 14);
                        }
                    }
                    let step: i64 = if current.x != neighbor.x && current.y != neighbor.y {
                        14
                    } else {
                        10
                    };
                    proof {
                        assert(step as int == model::step_cost(cur, nv));
                    }
                    let tentative: i64 = g0 * 10 + step;
                    let was_in: bool = set_open[ni as usize];
                    let ghost openj_b: Seq<bool> = set_open@;
                    set_open.set(ni as usize, true);
                    let newly: bool = !was_in;
                    let ghost st_mid = SearchState {
                        open_cells: stj.open_cells.insert(nv),
                        closed: stj.closed,
                        route: stj.route,
                        gscore: stj.gscore,
                        fscore: stj.fscore,
                    };
                    proof {
                        assert(was_in == stj.open_cells.contains(nv));
                        lemma_marks_update(openj_b, wv, hv, nv, true);
                        assert(set_open@ == openj_b.update(model::lin_idx(wv, nv), true));
                        assert(marks(set_open@, wv, hv) == st_mid.open_cells);
                    }
                    let mut skip: bool = false;
                    if !newly {
                        let g1: i64 = match map_gscore.get_score((neighbor.x, neighbor.y)) {
                            Some(g) => g,
                            None => 0,
                        };
                        proof {
                            assert(g1 == g0);
                        }
                        if tentative >= g1 {
                            skip = true;
                        }
                    }
                    if !skip {
                        let ghost route_b: Seq<Option<Node>> = map_route@;
                        map_route.set(ni as usize, Some(current));
                        map_gscore.insert_score((neighbor.x, neighbor.y), tentative);
                        let est: i64 = self.estimate_cost(&neighbor, &self.end);
                        map_fscore.insert_score((neighbor.x, neighbor.y), tentative + est);
                        proof {
                            lemma_routes_update(route_b, wv, hv, nv, current);
                            assert(map_route@ == route_b.update(model::lin_idx(wv, nv), Some(
                                current,
                            )));
                            assert(routes(map_route@, wv, hv) == st_mid.route.insert(nv, cur));
                            assert(map_gscore@ == model::tbl_insert(
                                st_mid.gscore,
                                nv,
                                tentative as int,
                            ));
                            assert(map_fscore@ == model::tbl_insert(
                                st_mid.fscore,
                                nv,
                                tentative as int + model::estimate(gv, wv, nv, ev),
                            ));
                        }
                    }
                    proof {
                        assert(model::relax_one(wv, gv, ev, stj, cur, nv) == if skip {
                            st_mid
                        } else {
                            SearchState {
                                open_cells: st_mid.open_cells,
                                closed: st_mid.closed,
                                route: st_mid.route.insert(nv, cur),
                                gscore: model::tbl_insert(st_mid.gscore, nv, tentative as int),
                                fscore: model::tbl_insert(
                                    st_mid.fscore,
                                    nv,
                                    tentative as int + model::estimate(gv, wv, nv, ev),
                                ),
                            }
                        });
                    }
                }
                proof {
                    lemmas::lemma_relax_one_pres(wv, hv, gv, sv, ev, stj, cur, nv);
                    lemmas::lemma_relax_all_snoc(wv, gv, ev, st1, cur, ns.take(j as int), nv);
                    assert(ns.take(j as int).push(nv) =~= ns.take(j as int + 1));
                    stj = model::relax_one(wv, gv, ev, stj, cur, nv);
                }
                j = j + 1;
            }
            proof {
                assert(ns.take(neighbors@.len() as int) =~= ns);
                assert(stj == model::expand(wv, hv, gv, ev, st, cur));
                assert(st.open_cells != Set::<CellM>::empty());
                assert(model::search(wv, hv, gv, ev, st, fuel) == model::search(
                    wv,
                    hv,
                    gv,
                    ev,
                    stj,
                    (fuel - 1) as nat,
                ));
                st = stj;
            }
        }
        proof {
            assert(false);
        }
        return None;
    }
}

/// The cells of a path, in order.
pub open spec fn path_view(s: Seq<Node>) -> Seq<CellM> {
    s.map_values(|n: Node| n@)
}

} // verus!
