//! The hash-based search engine: frontier and closed sets are hash sets and
//! the route table a hash map, all keyed by cell coordinates and provided by
//! the `hashbrown` crate behind trusted wrappers.  The score tables are the
//! shared ordered list.  `calc` is proved to return exactly the model's
//! result for the engine's grid data.
use crate::lemmas;
use crate::model;
use crate::model::{CellM, SearchState};
use crate::rng;
use crate::score::ScoreTable;
use hashbrown::{HashMap, HashSet};
use vstd::prelude::*;

verus! {

broadcast use vstd::seq_lib::group_seq_properties, vstd::seq_lib::seq_to_set_is_finite;

/// A grid cell: an integer coordinate pair.
#[derive(Debug, PartialEq, Eq, Structural, Clone, Copy)]
pub struct Node {
    x: i64,
    y: i64,
}

impl View for Node {
    type V = CellM;

    closed spec fn view(&self) -> CellM {
        (self.x as int, self.y as int)
    }
}

impl Node {
    pub fn new(x: i64, y: i64) -> (r: Node)
        ensures
            r@ == (x as int, y as int),
    {
        return Node { x, y };
    }

    /// The horizontal coordinate.
    pub fn x(&self) -> (r: i64)
        ensures
            r == self@.0,
    {
        return self.x;
    }

    /// The vertical coordinate.
    pub fn y(&self) -> (r: i64)
        ensures
            r == self@.1,
    {
        return self.y;
    }
}

/// Grid dimensions.
#[derive(Debug, PartialEq, Eq, Structural, Clone, Copy)]
pub struct Size {
    w: i64,
    h: i64,
}

impl View for Size {
    type V = (int, int);

    closed spec fn view(&self) -> (int, int) {
        (self.w as int, self.h as int)
    }
}

impl Size {
    pub fn new(w: i64, h: i64) -> (r: Size)
        ensures
            r@ == (w as int, h as int),
    {
        return Size { w, h };
    }
}

/// The cells a hash set holds, as integer pairs.
pub uninterp spec fn hset_cells(s: HashSet<(i64, i64)>) -> Set<CellM>;

/// The predecessor map a hash map holds, as integer pairs.
pub uninterp spec fn hmap_routes(m: HashMap<(i64, i64), (i64, i64)>) -> Map<CellM, CellM>;

#[verifier::external_type_specification]
#[verifier::external_body]
pub struct ExRandomState(hashbrown::hash_map::DefaultHashBuilder);

#[verifier::external_type_specification]
#[verifier::external_body]
#[verifier::reject_recursive_types(T)]
#[verifier::reject_recursive_types(S)]
pub struct ExHashSet<T, S>(HashSet<T, S>);

#[verifier::external_type_specification]
#[verifier::external_body]
#[verifier::reject_recursive_types(K)]
#[verifier::reject_recursive_types(V)]
#[verifier::reject_recursive_types(S)]
pub struct ExHashMap<K, V, S>(HashMap<K, V, S>);

/// Relies on hashbrown::HashSet::new: a new set is empty.
#[verifier::external_body]
fn hset_new() -> (r: HashSet<(i64, i64)>)
    ensures
        hset_cells(r) == Set::<CellM>::empty(),
{
    HashSet::new()
}

/// Relies on hashbrown::HashSet::insert: adds the value and reports whether
/// it was absent.
#[verifier::external_body]
fn hset_insert(s: &mut HashSet<(i64, i64)>, v: (i64, i64)) -> (r: bool)
    ensures
        hset_cells(*final(s)) == hset_cells(*old(s)).insert((v.0 as int, v.1 as int)),
        r == !hset_cells(*old(s)).contains((v.0 as int, v.1 as int)),
{
    s.insert(v)
}

/// Relies on hashbrown::HashSet::remove: removes the value and reports
/// whether it was present.
#[verifier::external_body]
fn hset_remove(s: &mut HashSet<(i64, i64)>, v: (i64, i64)) -> (r: bool)
    ensures
        hset_cells(*final(s)) == hset_cells(*old(s)).remove((v.0 as int, v.1 as int)),
        r == hset_cells(*old(s)).contains((v.0 as int, v.1 as int)),
{
    s.remove(&v)
}

/// Relies on hashbrown::HashSet::contains.
#[verifier::external_body]
fn hset_contains(s: &HashSet<(i64, i64)>, v: (i64, i64)) -> (r: bool)
    ensures
        r == hset_cells(*s).contains((v.0 as int, v.1 as int)),
{
    s.contains(&v)
}

/// Relies on hashbrown::HashSet::len: the number of values held.
#[verifier::external_body]
fn hset_len(s: &HashSet<(i64, i64)>) -> (r: usize)
    ensures
        r == hset_cells(*s).len(),
{
    s.len()
}

/// Relies on hashbrown::HashMap::new: a new map is empty.
#[verifier::external_body]
fn hmap_new() -> (r: HashMap<(i64, i64), (i64, i64)>)
    ensures
        hmap_routes(r) == model::empty_route(),
{
    HashMap::new()
}

/// Relies on hashbrown::HashMap::insert: maps the key to the value,
/// replacing any earlier entry.
#[verifier::external_body]
fn hmap_insert(m: &mut HashMap<(i64, i64), (i64, i64)>, k: (i64, i64), v: (i64, i64))
    ensures
        hmap_routes(*final(m)) == hmap_routes(*old(m)).insert(
            (k.0 as int, k.1 as int),
            (v.0 as int, v.1 as int),
        ),
{
    m.insert(k, v);
}

/// Relies on hashbrown::HashMap::contains_key.
#[verifier::external_body]
fn hmap_contains(m: &HashMap<(i64, i64), (i64, i64)>, k: (i64, i64)) -> (r: bool)
    ensures
        r == hmap_routes(*m).dom().contains((k.0 as int, k.1 as int)),
{
    m.contains_key(&k)
}

/// Relies on hashbrown::HashMap::get: the value stored for a present key.
#[verifier::external_body]
fn hmap_get(m: &HashMap<(i64, i64), (i64, i64)>, k: (i64, i64)) -> (r: Option<(i64, i64)>)
    ensures
        match r {
            Some(v) => hmap_routes(*m).dom().contains((k.0 as int, k.1 as int)) && hmap_routes(*m)[
                (k.0 as int, k.1 as int)
            ] == (v.0 as int, v.1 as int),
            None => !hmap_routes(*m).dom().contains((k.0 as int, k.1 as int)),
        },
{
    m.get(&k).copied()
}

/// The cells of a path, in order.
pub open spec fn path_view(s: Seq<Node>) -> Seq<CellM> {
    s.map_values(|n: Node| n@)
}

/// The hash-based engine: grid data plus a terrain cost table fixed at
/// construction.
pub struct AStar {
    size: Size,
    grid: Vec<i64>,
    start: Node,
    end: Node,
}

impl AStar {
    pub closed spec fn width(&self) -> int {
        self.size.w as int
    }

    pub closed spec fn height(&self) -> int {
        self.size.h as int
    }

    pub closed spec fn costs(&self) -> Seq<int> {
        model::grid_view(self.grid@)
    }

    pub closed spec fn start_cell(&self) -> CellM {
        self.start@
    }

    pub closed spec fn end_cell(&self) -> CellM {
        self.end@
    }

    /// A well-formed engine: positive dimensions small enough that no score
    /// computation can overflow, a full cost table with costs in [0, 100),
    /// and start and goal in bounds.
    pub closed spec fn wf(&self) -> bool {
        &&& 1 <= self.size.w <= 0x10000000
        &&& 1 <= self.size.h <= 0x10000000
        &&& self.size.w * self.size.h <= usize::MAX
        &&& self.grid@.len() == self.size.w * self.size.h
        &&& (forall|i: int| 0 <= i < self.grid@.len() ==> 0 <= #[trigger] self.grid@[i] < 100)
        &&& model::in_bounds(self.width(), self.height(), self.start@)
        &&& model::in_bounds(self.width(), self.height(), self.end@)
    }

    /// Build an engine over a freshly sampled terrain table: one independent
    /// uniform cost in [0, 100) per cell.
    #[verifier::loop_isolation(false)]
    pub fn new(size: Size, start: Node, end: Node) -> (r: AStar)
        requires
            1 <= size@.0 <= 0x10000000,
            1 <= size@.1 <= 0x10000000,
            size@.0 * size@.1 <= usize::MAX,
            model::in_bounds(size@.0, size@.1, start@),
            model::in_bounds(size@.0, size@.1, end@),
        ensures
            r.wf(),
            r.width() == size@.0,
            r.height() == size@.1,
            r.start_cell() == start@,
            r.end_cell() == end@,
            r.costs().len() == size@.0 * size@.1,
    {
        let mut grid: Vec<i64> = Vec::new();
        let mut rng = rng::new_rng();
        proof {
            assert(size.w * size.h <= 0x100000000000000) by (nonlinear_arith)
                requires
                    1 <= size.w <= 0x10000000,
                    1 <= size.h <= 0x10000000,
            ;
        }
        let length: i64 = size.w * size.h;
        let mut n: i64 = 0;
        while n < length
            invariant
                0 <= n <= length,
                grid@.len() == n,
                forall|i: int| 0 <= i < grid@.len() ==> 0 <= #[trigger] grid@[i] < 100,
            decreases length - n,
        {
            grid.push(rng::sample_cost(&mut rng));
            n = n + 1;
        }
        return AStar { size, grid, start, end };
    }

    /// Build an engine over a caller-supplied terrain cost table, for
    /// reproducible searches.
    pub fn with_costs(size: Size, costs: Vec<i64>, start: Node, end: Node) -> (r: AStar)
        requires
            1 <= size@.0 <= 0x10000000,
            1 <= size@.1 <= 0x10000000,
            size@.0 * size@.1 <= usize::MAX,
            costs@.len() == size@.0 * size@.1,
            forall|i: int| 0 <= i < costs@.len() ==> 0 <= #[trigger] costs@[i] < 100,
            model::in_bounds(size@.0, size@.1, start@),
            model::in_bounds(size@.0, size@.1, end@),
        ensures
            r.wf(),
            r.width() == size@.0,
            r.height() == size@.1,
            r.start_cell() == start@,
            r.end_cell() == end@,
            r.costs() == model::grid_view(costs@),
    {
        return AStar { size, grid: costs, start, end };
    }

    /// Row-major linear index of a cell.
    fn node_idx(&self, node: &Node) -> (r: i64)
        requires
            self.wf(),
            model::in_bounds(self.width(), self.height(), node@),
        ensures
            r == model::lin_idx(self.width(), node@),
            0 <= r < self.width() * self.height(),
    {
        proof {
            lemmas::lemma_lidx(self.width(), self.height(), node@, node@);
            assert(0 <= self.size.w * node.y && self.size.w * node.y <= 0x100000000000000)
                by (nonlinear_arith)
                requires
                    0 <= node.y < self.size.h,
                    1 <= self.size.w <= 0x10000000,
                    self.size.h <= 0x10000000,
            ;
        }
        return self.size.w * node.y + node.x;
    }

    /// The heuristic estimate between two cells: Manhattan distance plus
    /// both endpoints' terrain costs.
    fn estimate_cost(&self, node1: &Node, node2: &Node) -> (r: i64)
        requires
            self.wf(),
            model::in_bounds(self.width(), self.height(), node1@),
            model::in_bounds(self.width(), self.height(), node2@),
        ensures
            r == model::estimate(self.costs(), self.width(), node1@, node2@),
            0 <= r < 0x40000000,
    {
        let dx: i64 = if node1.x >= node2.x {
            node1.x - node2.x
        } else {
            node2.x - node1.x
        };
        let dy: i64 = if node1.y >= node2.y {
            node1.y - node2.y
        } else {
            node2.y - node1.y
        };
        let i1: i64 = self.node_idx(node1);
        let i2: i64 = self.node_idx(node2);
        proof {
            assert(self.costs()[i1 as int] == self.grid@[i1 as int] as int);
            assert(self.costs()[i2 as int] == self.grid@[i2 as int] as int);
        }
        return dx + dy + self.grid[i1 as usize] + self.grid[i2 as usize];
    }

    /// The Moore neighbourhood of a cell clipped to the grid, in the
    /// traversal order the model fixes.
    fn get_neighbors(&self, node: Node) -> (r: Vec<Node>)
        requires
            self.wf(),
            model::in_bounds(self.width(), self.height(), node@),
        ensures
            path_view(r@) == model::neighbor_list(self.width(), self.height(), node@),
    {
        let ghost wv: int = self.width();
        let ghost hv: int = self.height();
        let ghost c: CellM = node@;
        let mut nodes: Vec<Node> = Vec::new();
        if node.x - 1 >= 0 && node.x - 1 < self.size.w && node.y - 1 >= 0 && node.y - 1
            < self.size.h {
            nodes.push(Node { x: node.x - 1, y: node.y - 1 });
        }
        proof {
            assert(path_view(nodes@) =~= model::cand(wv, hv, c, -1, -1));
        }
        if node.x - 1 >= 0 && node.x - 1 < self.size.w && node.y >= 0 && node.y < self.size.h {
            nodes.push(Node { x: node.x - 1, y: node.y });
        }
        proof {
            assert(path_view(nodes@) =~= model::cand(wv, hv, c, -1, -1) + model::cand(
                wv,
                hv,
                c,
                -1,
                0,
            ));
        }
        if node.x - 1 >= 0 && node.x - 1 < self.size.w && node.y + 1 >= 0 && node.y + 1
            < self.size.h {
            nodes.push(Node { x: node.x - 1, y: node.y + 1 });
        }
        proof {
            assert(path_view(nodes@) =~= model::cand(wv, hv, c, -1, -1) + model::cand(
                wv,
                hv,
                c,
                -1,
                0,
            ) + model::cand(wv, hv, c, -1, 1));
        }
        if node.x >= 0 && node.x < self.size.w && node.y - 1 >= 0 && node.y - 1 < self.size.h {
            nodes.push(Node { x: node.x, y: node.y - 1 });
        }
        proof {
            assert(path_view(nodes@) =~= model::cand(wv, hv, c, -1, -1) + model::cand(
                wv,
                hv,
                c,
                -1,
                0,
            ) + model::cand(wv, hv, c, -1, 1) + model::cand(wv, hv, c, 0, -1));
        }
        if node.x >= 0 && node.x < self.size.w && node.y + 1 >= 0 && node.y + 1 < self.size.h {
            nodes.push(Node { x: node.x, y: node.y + 1 });
        }
        proof {
            assert(path_view(nodes@) =~= model::cand(wv, hv, c, -1, -1) + model::cand(
                wv,
                hv,
                c,
                -1,
                0,
            ) + model::cand(wv, hv, c, -1, 1) + model::cand(wv, hv, c, 0, -1) + model::cand(
                wv,
                hv,
                c,
                0,
                1,
            ));
        }
        if node.x + 1 >= 0 && node.x + 1 < self.size.w && node.y - 1 >= 0 && node.y - 1
            < self.size.h {
            nodes.push(Node { x: node.x + 1, y: node.y - 1 });
        }
        proof {
            assert(path_view(nodes@) =~= model::cand(wv, hv, c, -1, -1) + model::cand(
                wv,
                hv,
                c,
                -1,
                0,
            ) + model::cand(wv, hv, c, -1, 1) + model::cand(wv, hv, c, 0, -1) + model::cand(
                wv,
                hv,
                c,
                0,
                1,
            ) + model::cand(wv, hv, c, 1, -1));
        }
        if node.x + 1 >= 0 && node.x + 1 < self.size.w && node.y >= 0 && node.y < self.size.h {
            nodes.push(Node { x: node.x + 1, y: node.y });
        }
        proof {
            assert(path_view(nodes@) =~= model::cand(wv, hv, c, -1, -1) + model::cand(
                wv,
                hv,
                c,
                -1,
                0,
            ) + model::cand(wv, hv, c, -1, 1) + model::cand(wv, hv, c, 0, -1) + model::cand(
                wv,
                hv,
                c,
                0,
                1,
            ) + model::cand(wv, hv, c, 1, -1) + model::cand(wv, hv, c, 1, 0));
        }
        if node.x + 1 >= 0 && node.x + 1 < self.size.w && node.y + 1 >= 0 && node.y + 1
            < self.size.h {
            nodes.push(Node { x: node.x + 1, y: node.y + 1 });
        }
        proof {
            assert(path_view(nodes@) =~= model::neighbor_list(wv, hv, c));
        }
        return nodes;
    }

    /// The first f-score entry whose cell is still in the frontier, falling
    /// back to the structurally first entry.
    #[verifier::loop_isolation(false)]
    fn get_lowest(set_nodes: &HashSet<(i64, i64)>, map_scores: &ScoreTable) -> (r: Node)
        requires
            map_scores@.len() > 0,
            hset_cells(*set_nodes).contains(map_scores@[0].0),
        ensures
            r@ == map_scores@[0].0,
    {
        let n: usize = map_scores.len();
        let mut i: usize = 0;
        while i < n
            invariant
                0 <= i <= n,
                forall|j: int|
                    0 <= j < i ==> !hset_cells(*set_nodes).contains((#[trigger] map_scores@[j]).0),
            decreases n - i,
        {
            let e: ((i64, i64), i64) = map_scores.entry_at(i);
            if hset_contains(set_nodes, e.0) {
                return Node { x: (e.0).0, y: (e.0).1 };
            }
            i = i + 1;
        }
        proof {
            assert(false);
        }
        let e0: ((i64, i64), i64) = map_scores.entry_at(0);
        return Node { x: (e0.0).0, y: (e0.0).1 };
    }

    /// Follow the route table from a cell back to the start.
    #[verifier::loop_isolation(false)]
    fn reconstruct(
        &self,
        map_route: HashMap<(i64, i64), (i64, i64)>,
        node: Node,
        Ghost(st): Ghost<SearchState>,
    ) -> (r: Vec<Node>)
        requires
            self.wf(),
            hmap_routes(map_route) == st.route,
            model::inv(self.width(), self.height(), self.start_cell(), self.end_cell(), st),
            model::opened(st).contains(node@),
        ensures
            path_view(r@) == model::walk(
                st.route,
                node@,
                (self.width() * self.height()) as nat,
            ),
    {
        let ghost wv: int = self.width();
        let ghost hv: int = self.height();
        let ghost fuel0: nat = (wv * hv) as nat;
        proof {
            lemmas::lemma_closed_bound(wv, hv, self.end_cell(), st.closed);
            lemmas::lemma_rank_basic(st.closed, node@);
        }
        let mut total_path: Vec<Node> = Vec::new();
        let mut current: Node = node;
        total_path.push(current);
        proof {
            assert(path_view(total_path@) =~= seq![node@]);
            assert(path_view(total_path@).drop_last() =~= Seq::<CellM>::empty());
            assert(model::walk(st.route, node@, fuel0) =~= path_view(total_path@).drop_last()
                + model::walk(st.route, node@, (fuel0 - 0) as nat));
        }
        while hmap_contains(&map_route, (current.x, current.y))
            invariant
                total_path@.len() >= 1,
                path_view(total_path@).last() == current@,
                model::opened(st).contains(current@),
                fuel0 - (total_path@.len() - 1) >= model::rank_of(st.closed, current@) + 1,
                model::walk(st.route, node@, fuel0) == path_view(total_path@).drop_last()
                    + model::walk(
                    st.route,
                    current@,
                    (fuel0 - (total_path@.len() - 1)) as nat,
                ),
            decreases model::rank_of(st.closed, current@),
        {
            let ghost rest: nat = (fuel0 - (total_path@.len() - 1)) as nat;
            let nxt: (i64, i64) = match hmap_get(&map_route, (current.x, current.y)) {
                Some(v) => v,
                None => {
                    proof {
                        assert(false);
                    }
                    (0, 0)
                },
            };
            let ghost prev: CellM = current@;
            proof {
                assert(st.route.dom().contains(prev));
                assert(st.route[prev] == (nxt.0 as int, nxt.1 as int));
                assert(model::closed_set(st).contains(st.route[prev]));
                lemmas::lemma_rank_basic(st.closed, st.route[prev]);
            }
            current = Node { x: nxt.0, y: nxt.1 };
            total_path.push(current);
            proof {
                assert(model::walk(st.route, prev, rest) == seq![prev] + model::walk(
                    st.route,
                    current@,
                    (rest - 1) as nat,
                ));
                assert(path_view(total_path@).last() == current@);
                assert(path_view(total_path@).drop_last() =~= path_view(
                    total_path@,
                ).drop_last().drop_last() + seq![prev]);
                assert(path_view(total_path@).drop_last() + model::walk(
                    st.route,
                    current@,
                    (rest - 1) as nat,
                ) =~= (path_view(total_path@).drop_last().drop_last() + seq![prev]) + model::walk(
                    st.route,
                    current@,
                    (rest - 1) as nat,
                ));
                assert((path_view(total_path@).drop_last().drop_last() + seq![prev]) + model::walk(
                    st.route,
                    current@,
                    (rest - 1) as nat,
                ) =~= path_view(total_path@).drop_last().drop_last() + (seq![prev] + model::walk(
                    st.route,
                    current@,
                    (rest - 1) as nat,
                )));
            }
        }
        proof {
            assert(!st.route.dom().contains(current@));
            assert(model::walk(
                st.route,
                current@,
                (fuel0 - (total_path@.len() - 1)) as nat,
            ) =~= seq![current@]);
            assert(path_view(total_path@).drop_last() + seq![current@] =~= path_view(total_path@));
        }
        return total_path;
    }

    /// Run the search: returns the path from the goal back to the start, or
    /// nothing if the frontier empties first.  The result is exactly what
    /// the model computes from the engine's grid data, so equal grids give
    /// equal paths, whichever engine runs them.
    #[verifier::loop_isolation(false)]
    pub fn calc(&self) -> (r: Option<Vec<Node>>)
        requires
            self.wf(),
        ensures
            ({
                let res = model::astar_result(
                    self.width(),
                    self.height(),
                    self.costs(),
                    self.start_cell(),
                    self.end_cell(),
                );
                match r {
                    Some(v) => res == Some(path_view(v@)),
                    None => res is None,
                }
            }),
    {
        let ghost wv: int = self.width();
        let ghost hv: int = self.height();
        let ghost gv: Seq<int> = self.costs();
        let ghost sv: CellM = self.start_cell();
        let ghost ev: CellM = self.end_cell();
        proof {
            assert(wv * hv >= 1) by (nonlinear_arith)
                requires
                    1 <= wv,
                    1 <= hv,
            ;
        }
        let mut set_open: HashSet<(i64, i64)> = hset_new();
        let mut set_closed: HashSet<(i64, i64)> = hset_new();
        let mut map_route: HashMap<(i64, i64), (i64, i64)> = hmap_new();
        let mut map_gscore: ScoreTable = ScoreTable::new();
        let mut map_fscore: ScoreTable = ScoreTable::new();

        hset_insert(&mut set_open, (self.start.x, self.start.y));
        map_gscore.insert_score((self.start.x, self.start.y), 0);
        let est0: i64 = self.estimate_cost(&self.start, &self.end);
        map_fscore.insert_score((self.start.x, self.start.y), est0);

        let ghost mut st = model::init_state(wv, gv, sv, ev);
        let ghost total = model::astar_result(wv, hv, gv, sv, ev);
        proof {
            lemmas::lemma_init(wv, hv, gv, sv, ev);
            assert(hset_cells(set_open) =~= st.open_cells);
            assert(map_gscore@ == st.gscore);
            assert(map_fscore@ == st.fscore);
            assert(hmap_routes(map_route) == st.route);
            assert(total == model::search(
                wv,
                hv,
                gv,
                ev,
                st,
                ((wv * hv + 1) - st.closed.len()) as nat,
            ));
        }
        while hset_len(&set_open) != 0
            invariant
                model::inv_full(wv, hv, sv, ev, st),
                hset_cells(set_open) == st.open_cells,
                forall|c: CellM| hset_cells(set_closed).contains(c) <==> st.closed.contains(c),
                hmap_routes(map_route) == st.route,
                map_gscore@ == st.gscore,
                map_fscore@ == st.fscore,
                model::search(wv, hv, gv, ev, st, ((wv * hv + 1) - st.closed.len()) as nat)
                    == total,
                st.closed.len() <= wv * hv,
            decreases wv * hv - st.closed.len(),
        {
            let ghost fuel: nat = ((wv * hv + 1) - st.closed.len()) as nat;
            proof {
                lemmas::lemma_open_nonempty(wv, hv, sv, ev, st);
                lemmas::lemma_closed_bound(wv, hv, ev, st.closed);
                lemmas::lemma_cells_iff(st.fscore, st.fscore[0].0);
                assert(st.open_cells.contains(st.fscore[0].0));
                lemmas::lemma_select_first(st.fscore, st.open_cells);
            }
            let current: Node = Self::get_lowest(&set_open, &map_fscore);
            if current == self.end {
                proof {
                    assert(current@ == ev);
                    lemmas::lemma_rank_basic(st.closed, ev);
                    assert(model::search(wv, hv, gv, ev, st, fuel) == Some(
                        model::walk(st.route, ev, (wv * hv) as nat),
                    ));
                }
                let path = self.reconstruct(map_route, current, Ghost(st));
                return Some(path);
            }
            hset_remove(&mut set_open, (current.x, current.y));
            map_gscore.remove_score((current.x, current.y));
            map_fscore.remove_score((current.x, current.y));
            hset_insert(&mut set_closed, (current.x, current.y));
            let ghost cur: CellM = current@;
            let ghost st1 = SearchState {
                open_cells: st.open_cells.remove(cur),
                closed: st.closed.push(cur),
                route: st.route,
                gscore: model::tbl_remove(st.gscore, cur),
                fscore: model::tbl_remove(st.fscore, cur),
            };
            proof {
                assert(cur == st.fscore[0].0);
                assert(cur != ev);
                lemmas::lemma_expand_pres(wv, hv, gv, sv, ev, st);
                assert(hset_cells(set_open) == st1.open_cells);
                assert forall|c: CellM| hset_cells(set_closed).contains(c)
                    <==> st1.closed.contains(c) by {
                    if st1.closed.contains(c) {
                        let i = choose|i: int| 0 <= i < st1.closed.len() && st1.closed[i] == c;
                        if i < st.closed.len() {
                            assert(st.closed.contains(c));
                        }
                    }
                    if st.closed.contains(c) {
                        let i = choose|i: int| 0 <= i < st.closed.len() && st.closed[i] == c;
                        assert(st1.closed[i] == c);
                    }
                    assert(st1.closed[st.closed.len() as int] == cur);
                }
            }
            let neighbors: Vec<Node> = self.get_neighbors(current);
            let ghost ns: Seq<CellM> = model::neighbor_list(wv, hv, cur);
            let ghost mut stj = st1;
            proof {
                assert(ns.take(0) =~= Seq::<CellM>::empty());
                assert(model::relax_all(wv, gv, ev, st1, cur, ns.take(0)) == st1);
                lemmas::lemma_neighbor_elems(wv, hv, cur);
                assert(stj.closed.contains(cur)) by {
                    assert(stj.closed[st.closed.len() as int] == cur);
                }
            }
            let mut j: usize = 0;
            while j < neighbors.len()
                invariant
                    0 <= j <= neighbors.len(),
                    stj == model::relax_all(wv, gv, ev, st1, cur, ns.take(j as int)),
                    model::inv(wv, hv, sv, ev, stj),
                    stj.closed == st1.closed,
                    hset_cells(set_open) == stj.open_cells,
                    forall|c: CellM| hset_cells(set_closed).contains(c) <==> stj.closed.contains(c),
                    hmap_routes(map_route) == stj.route,
                    map_gscore@ == stj.gscore,
                    map_fscore@ == stj.fscore,
                decreases neighbors.len() - j,
            {
                let neighbor: Node = neighbors[j];
                let ghost nv: CellM = neighbor@;
                proof {
                    assert(ns[j as int] == nv);
                    assert(ns.contains(nv));
                    assert(model::in_bounds(wv, hv, nv) && model::moore_adjacent(cur, nv));
                    assert(stj.closed.contains(cur)) by {
                        assert(stj.closed[st.closed.len() as int] == cur);
                    }
                }
                if hset_contains(&set_closed, (neighbor.x, neighbor.y)) {
                    proof {
                        assert(stj.closed.contains(nv));
                        assert(model::relax_one(wv, gv, ev, stj, cur, nv) == stj);
                    }
                } else {
                    proof {
                        assert(!stj.closed.contains(nv));
                    }
                    let g0: i64 = match map_gscore.get_score((neighbor.x, neighbor.y)) {
                        Some(g) => g,
                        None => 0,
                    };
                    proof {
                        assert(g0 as int == model::score_or_zero(stj.gscore, nv));
                        if model::tbl_get(stj.gscore, nv) is Some {
                            lemmas::lemma_tbl_get_value(stj.gscore, nv, g0 as int);
                            let i = choose|i: int|
                                0 <= i < stj.gscore.len() && (#[trigger] stj.gscore[i]) == (
                                nv,
                                g0 as int,
                                );
                            assert(0 <= g0 <= 14);
                        }
                    }
                    let step: i64 = if current.x != neighbor.x && current.y != neighbor.y {
                        14
                    } else {
                        10
                    };
                    proof {
                        assert(step as int == model::step_cost(cur, nv));
                    }
                    let tentative: i64 = g0 * 10 + step;
                    let newly: bool = hset_insert(&mut set_open, (neighbor.x, neighbor.y));
                    let ghost st_mid = SearchState {
                        open_cells: stj.open_cells.insert(nv),
                        closed: stj.closed,
                        route: stj.route,
                        gscore: stj.gscore,
                        fscore: stj.fscore,
                    };
                    let mut skip: bool = false;
                    if !newly {
                        let g1: i64 = match map_gscore.get_score((neighbor.x, neighbor.y)) {
                            Some(g) => g,
                            None => 0,
                        };
                        proof {
                            assert(g1 == g0);
                        }
                        if tentative >= g1 {
                            skip = true;
                        }
                    }
                    if !skip {
                        hmap_insert(
                            &mut map_route,
                            (neighbor.x, neighbor.y),
                            (current.x, current.y),
                        );
                        map_gscore.insert_score((neighbor.x, neighbor.y), tentative);
                        let est: i64 = self.estimate_cost(&neighbor, &self.end);
                        map_fscore.insert_score((neighbor.x, neighbor.y), tentative + est);
                        proof {
                            assert(hmap_routes(map_route) == st_mid.route.insert(nv, cur));
                            assert(map_gscore@ == model::tbl_insert(
                                st_mid.gscore,
                                nv,
                                tentative as int,
                            ));
                            assert(map_fscore@ == model::tbl_insert(
                                st_mid.fscore,
                                nv,
                                tentative as int + model::estimate(gv, wv, nv, ev),
                            ));
                        }
                    }
                    proof {
                        assert(model::relax_one(wv, gv, ev, stj, cur, nv) == if skip {
                            st_mid
                        } else {
                            SearchState {
                                open_cells: st_mid.open_cells,
                                closed: st_mid.closed,
                                route: st_mid.route.insert(nv, cur),
                                gscore: model::tbl_insert(st_mid.gscore, nv, tentative as int),
                                fscore: model::tbl_insert(
                                    st_mid.fscore,
                                    nv,
                                    tentative as int + model::estimate(gv, wv, nv, ev),
                                ),
                            }
                        });
                    }
                }
                proof {
                    lemmas::lemma_relax_one_pres(wv, hv, gv, sv, ev, stj, cur, nv);
                    lemmas::lemma_relax_all_snoc(wv, gv, ev, st1, cur, ns.take(j as int), nv);
                    assert(ns.take(j as int).push(nv) =~= ns.take(j as int + 1));
                    stj = model::relax_one(wv, gv, ev, stj, cur, nv);
                }
                j = j + 1;
            }
            proof {
                assert(ns.take(neighbors@.len() as int) =~= ns);
                assert(stj == model::expand(wv, hv, gv, ev, st, cur));
                assert(st.open_cells != Set::<CellM>::empty());
                assert(model::search(wv, hv, gv, ev, st, fuel) == model::search(
                    wv,
                    hv,
                    gv,
                    ev,
                    stj,
                    (fuel - 1) as nat,
                ));
                st = stj;
            }
        }
        proof {
            assert(st.open_cells.finite()) by {
                assert(st.open_cells == model::nodes_of(st.fscore).to_set());
            }
            st.open_cells.lemma_len0_is_empty();
            lemmas::lemma_closed_bound(wv, hv, ev, st.closed);
            assert(model::search(wv, hv, gv, ev, st, ((wv * hv + 1) - st.closed.len()) as nat)
                is None);
        }
        return None;
    }
}

} // verus!
