//! Mathematical model of the best-first grid search that both engine
//! strategies implement.  The executable engines prove that `calc` returns
//! exactly `astar_result` applied to their grid data, so any two engines
//! over the same grid agree cell for cell.
use vstd::prelude::*;

verus! {

/// A cell is a coordinate pair; the model works on unbounded integers.
pub type CellM = (int, int);

/// A score table entry: a cell and its score.
pub type EntryM = (CellM, int);

/// Is a cell inside a `w` by `h` grid?
pub open spec fn in_bounds(w: int, h: int, c: CellM) -> bool {
    0 <= c.0 < w && 0 <= c.1 < h
}

/// Two distinct cells that differ by at most one step in each coordinate.
pub open spec fn moore_adjacent(a: CellM, b: CellM) -> bool {
    a != b && -1 <= b.0 - a.0 <= 1 && -1 <= b.1 - a.1 <= 1
}

/// Row-major linear index of a cell in a grid of the given width.
pub open spec fn lin_idx(w: int, c: CellM) -> int {
    w * c.1 + c.0
}

/// Terrain cost of a cell, read from the row-major cost table.
pub open spec fn cost_at(grid: Seq<int>, w: int, c: CellM) -> int {
    grid[lin_idx(w, c)]
}

pub open spec fn abs_val(x: int) -> int {
    if x >= 0 {
        x
    } else {
        -x
    }
}

/// Heuristic estimate between two cells: Manhattan distance plus both
/// endpoints' terrain costs.  Deliberately not admissible.
pub open spec fn estimate(grid: Seq<int>, w: int, a: CellM, b: CellM) -> int {
    abs_val(a.0 - b.0) + abs_val(a.1 - b.1) + cost_at(grid, w, a) + cost_at(grid, w, b)
}

/// Ten times the Euclidean distance between Moore-adjacent cells, truncated:
/// 14 for a diagonal step, 10 for an orthogonal one.
pub open spec fn step_cost(a: CellM, b: CellM) -> int {
    if a.0 != b.0 && a.1 != b.1 {
        14
    } else {
        10
    }
}

/// One neighbour candidate: a singleton if the offset lands in bounds.
pub open spec fn cand(w: int, h: int, c: CellM, dx: int, dy: int) -> Seq<CellM> {
    if in_bounds(w, h, (c.0 + dx, c.1 + dy)) {
        seq![(c.0 + dx, c.1 + dy)]
    } else {
        Seq::empty()
    }
}

/// The Moore neighbourhood of a cell clipped to the grid, in the fixed
/// traversal order of the engines (outer coordinate first).
pub open spec fn neighbor_list(w: int, h: int, c: CellM) -> Seq<CellM> {
    cand(w, h, c, -1, -1) + cand(w, h, c, -1, 0) + cand(w, h, c, -1, 1) + cand(w, h, c, 0, -1)
        + cand(w, h, c, 0, 1) + cand(w, h, c, 1, -1) + cand(w, h, c, 1, 0) + cand(w, h, c, 1, 1)
}

/// Stable ascending insertion: the new entry goes before the first entry
/// whose score is strictly greater.
pub open spec fn tbl_insert(t: Seq<EntryM>, c: CellM, s: int) -> Seq<EntryM>
    decreases t.len(),
{
    if t.len() == 0 {
        seq![(c, s)]
    } else if s < t[0].1 {
        seq![(c, s)] + t
    } else {
        seq![t[0]] + tbl_insert(t.drop_first(), c, s)
    }
}

/// Remove the first entry for the given cell, if any.
pub open spec fn tbl_remove(t: Seq<EntryM>, c: CellM) -> Seq<EntryM>
    decreases t.len(),
{
    if t.len() == 0 {
        t
    } else if t[0].0 == c {
        t.drop_first()
    } else {
        seq![t[0]] + tbl_remove(t.drop_first(), c)
    }
}

/// Score of the first entry for the given cell, if any.
pub open spec fn tbl_get(t: Seq<EntryM>, c: CellM) -> Option<int>
    decreases t.len(),
{
    if t.len() == 0 {
        None
    } else if t[0].0 == c {
        Some(t[0].1)
    } else {
        tbl_get(t.drop_first(), c)
    }
}

/// A missing score defaults to zero, as in the engines.
pub open spec fn score_or_zero(t: Seq<EntryM>, c: CellM) -> int {
    match tbl_get(t, c) {
        Some(g) => g,
        None => 0,
    }
}

/// The cells of a score table, in table order.
pub open spec fn nodes_of(t: Seq<EntryM>) -> Seq<CellM> {
    t.map_values(|e: EntryM| e.0)
}

/// The complete state of one search in flight.
pub struct SearchState {
    /// The frontier: discovered cells not yet finalized.
    pub open_cells: Set<CellM>,
    /// Finalized cells, in the order they were finalized.
    pub closed: Seq<CellM>,
    /// Predecessor of each discovered cell other than the start.
    pub route: Map<CellM, CellM>,
    /// Best-known path cost per frontier cell, ascending by score.
    pub gscore: Seq<EntryM>,
    /// Estimated total cost per frontier cell, ascending by score.
    pub fscore: Seq<EntryM>,
}

/// First table entry whose cell is still in the frontier.
pub open spec fn select_scan(fs: Seq<EntryM>, frontier: Set<CellM>) -> Option<CellM>
    decreases fs.len(),
{
    if fs.len() == 0 {
        None
    } else if frontier.contains(fs[0].0) {
        Some(fs[0].0)
    } else {
        select_scan(fs.drop_first(), frontier)
    }
}

/// The cell the engines expand next: the first frontier-resident entry of the
/// f-score table, falling back to the structurally first entry.
pub open spec fn select(fs: Seq<EntryM>, frontier: Set<CellM>) -> CellM {
    match select_scan(fs, frontier) {
        Some(c) => c,
        None => if fs.len() > 0 {
            fs[0].0
        } else {
            (0, 0)
        },
    }
}

/// Processing of one neighbour of the cell under expansion.
pub open spec fn relax_one(
    w: int,
    grid: Seq<int>,
    end: CellM,
    st: SearchState,
    current: CellM,
    n: CellM,
) -> SearchState {
    if st.closed.contains(n) {
        st
    } else {
        let tentative = score_or_zero(st.gscore, n) * 10 + step_cost(current, n);
        let was_open = st.open_cells.contains(n);
        let st1 = SearchState {
            open_cells: st.open_cells.insert(n),
            closed: st.closed,
            route: st.route,
            gscore: st.gscore,
            fscore: st.fscore,
        };
        if was_open && tentative >= score_or_zero(st1.gscore, n) {
            st1
        } else {
            SearchState {
                open_cells: st1.open_cells,
                closed: st1.closed,
                route: st1.route.insert(n, current),
                gscore: tbl_insert(st1.gscore, n, tentative),
                fscore: tbl_insert(st1.fscore, n, tentative + estimate(grid, w, n, end)),
            }
        }
    }
}

/// Processing of a sequence of neighbours, left to right.
pub open spec fn relax_all(
    w: int,
    grid: Seq<int>,
    end: CellM,
    st: SearchState,
    current: CellM,
    ns: Seq<CellM>,
) -> SearchState
    decreases ns.len(),
{
    if ns.len() == 0 {
        st
    } else {
        relax_all(w, grid, end, relax_one(w, grid, end, st, current, ns[0]), current, ns.drop_first())
    }
}

/// One full expansion: the current cell leaves the frontier and the score
/// tables, joins the closed list, and each of its neighbours is relaxed.
pub open spec fn expand(
    w: int,
    h: int,
    grid: Seq<int>,
    end: CellM,
    st: SearchState,
    current: CellM,
) -> SearchState {
    let st1 = SearchState {
        open_cells: st.open_cells.remove(current),
        closed: st.closed.push(current),
        route: st.route,
        gscore: tbl_remove(st.gscore, current),
        fscore: tbl_remove(st.fscore, current),
    };
    relax_all(w, grid, end, st1, current, neighbor_list(w, h, current))
}

/// Path reconstruction: follow predecessors from a cell until a cell has
/// none recorded.  The fuel bounds the walk; reachable searches never
/// exhaust it.
pub open spec fn walk(route: Map<CellM, CellM>, c: CellM, fuel: nat) -> Seq<CellM>
    decreases fuel,
{
    if route.dom().contains(c) && fuel > 0 {
        seq![c] + walk(route, route[c], (fuel - 1) as nat)
    } else {
        seq![c]
    }
}

/// The main loop: expand the selected cell until it is the goal or the
/// frontier empties.
pub open spec fn search(
    w: int,
    h: int,
    grid: Seq<int>,
    end: CellM,
    st: SearchState,
    fuel: nat,
) -> Option<Seq<CellM>>
    decreases fuel,
{
    if fuel == 0 {
        None
    } else if st.open_cells == Set::<CellM>::empty() {
        None
    } else {
        let current = select(st.fscore, st.open_cells);
        if current == end {
            Some(walk(st.route, current, (w * h) as nat))
        } else {
            search(w, h, grid, end, expand(w, h, grid, end, st, current), (fuel - 1) as nat)
        }
    }
}

/// The state every search starts from: the frontier holds the start cell
/// with g-score zero.
pub open spec fn init_state(w: int, grid: Seq<int>, start: CellM, end: CellM) -> SearchState {
    SearchState {
        open_cells: Set::empty().insert(start),
        closed: Seq::empty(),
        route: Map::empty(),
        gscore: tbl_insert(Seq::empty(), start, 0),
        fscore: tbl_insert(Seq::empty(), start, estimate(grid, w, start, end)),
    }
}

/// What `calc` returns on a grid with the given cost table: the path from
/// the goal back to the start, or nothing if the frontier empties first.
pub open spec fn astar_result(
    w: int,
    h: int,
    grid: Seq<int>,
    start: CellM,
    end: CellM,
) -> Option<Seq<CellM>> {
    search(w, h, grid, end, init_state(w, grid, start, end), (w * h + 1) as nat)
}

/// The integer values of an executable cost table.
pub open spec fn grid_view(s: Seq<i64>) -> Seq<int> {
    s.map_values(|v: i64| v as int)
}

/// A route table with nothing recorded.
pub open spec fn empty_route() -> Map<CellM, CellM> {
    Map::empty()
}

/// A score table holds each cell at most once.
pub open spec fn tbl_ok(t: Seq<EntryM>) -> bool {
    nodes_of(t).no_duplicates()
}

/// The set of cells a score table holds.
pub open spec fn cells_of(t: Seq<EntryM>) -> Set<CellM> {
    nodes_of(t).to_set()
}

/// The closed list as a set.
pub open spec fn closed_set(st: SearchState) -> Set<CellM> {
    st.closed.to_set()
}

/// Every cell the search has discovered so far.
pub open spec fn opened(st: SearchState) -> Set<CellM> {
    st.open_cells.union(closed_set(st))
}

/// Position of the first occurrence of a cell in the closed list, or the
/// list's length if absent.
pub open spec fn rank_of(s: Seq<CellM>, c: CellM) -> int
    decreases s.len(),
{
    if s.len() == 0 {
        0
    } else if s[0] == c {
        0
    } else {
        1 + rank_of(s.drop_first(), c)
    }
}

/// Every state a search reaches satisfies this invariant.
pub open spec fn inv(w: int, h: int, start: CellM, end: CellM, st: SearchState) -> bool {
    &&& tbl_ok(st.fscore)
    &&& tbl_ok(st.gscore)
    &&& cells_of(st.fscore) == st.open_cells
    &&& cells_of(st.gscore) == st.open_cells
    &&& (forall|i: int| 0 <= i < st.gscore.len() ==> 0 <= (#[trigger] st.gscore[i]).1 <= 14)
    &&& (forall|c: CellM|
        #[trigger] st.open_cells.contains(c) ==> in_bounds(w, h, c) && !st.closed.contains(c))
    &&& st.closed.no_duplicates()
    &&& (forall|i: int| 0 <= i < st.closed.len() ==> in_bounds(w, h, #[trigger] st.closed[i]))
    &&& !st.closed.contains(end)
    &&& opened(st).contains(start)
    &&& st.route.dom() == opened(st).remove(start)
    &&& (forall|c: CellM| #[trigger]
        st.route.dom().contains(c) ==> st.closed.contains(st.route[c]) && moore_adjacent(
            st.route[c],
            c,
        ) && rank_of(st.closed, st.route[c]) < rank_of(st.closed, c))
}

/// Every neighbour of a finalized cell has been discovered.
pub open spec fn closure_ok(w: int, h: int, st: SearchState) -> bool {
    forall|i: int, n: CellM|
        0 <= i < st.closed.len() && #[trigger] neighbor_list(w, h, st.closed[i]).contains(n)
            ==> st.closed.contains(n) || st.open_cells.contains(n)
}

/// The full invariant, including neighbourhood closure.
pub open spec fn inv_full(w: int, h: int, start: CellM, end: CellM, st: SearchState) -> bool {
    inv(w, h, start, end, st) && closure_ok(w, h, st)
}

/// All cells of a `w` by `h` grid.
pub open spec fn grid_cells(w: int, h: int) -> Set<CellM> {
    Set::new(|c: CellM| in_bounds(w, h, c))
}

} // verus!
