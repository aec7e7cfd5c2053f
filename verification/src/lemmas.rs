//! Proof library for the search model: properties of the score-table
//! functions, preservation of the search invariant by every step, and the
//! public laws about the paths the search produces.
use crate::model::{
    abs_val, astar_result, cand, cells_of, closed_set, closure_ok, estimate, expand,
    grid_cells, in_bounds, init_state, inv, inv_full, lin_idx, moore_adjacent,
    neighbor_list, nodes_of, opened, rank_of, relax_all, relax_one, score_or_zero, search, select,
    select_scan, step_cost, tbl_get, tbl_insert, tbl_ok, tbl_remove, walk, CellM, EntryM,
    SearchState,
};
use vstd::prelude::*;

verus! {

broadcast use vstd::seq_lib::group_seq_properties, vstd::seq_lib::seq_to_set_is_finite;

pub proof fn lemma_nodes_drop(t: Seq<EntryM>)
    requires
        t.len() > 0,
    ensures
        nodes_of(t.drop_first()) == nodes_of(t).drop_first(),
{
    assert(nodes_of(t.drop_first()) =~= nodes_of(t).drop_first());
}

/// A table's cell set contains exactly the cells of its entries.
pub proof fn lemma_cells_iff(t: Seq<EntryM>, c: CellM)
    ensures
        cells_of(t).contains(c) <==> exists|i: int| 0 <= i < t.len() && (#[trigger] t[i]).0 == c,
{
    if cells_of(t).contains(c) {
        let i = choose|i: int| 0 <= i < nodes_of(t).len() && nodes_of(t)[i] == c;
        assert(t[i].0 == c);
    }
    if exists|i: int| 0 <= i < t.len() && (#[trigger] t[i]).0 == c {
        let i = choose|i: int| 0 <= i < t.len() && (#[trigger] t[i]).0 == c;
        assert(nodes_of(t)[i] == c);
        assert(nodes_of(t).contains(c));
    }
}

/// A lookup succeeds exactly for cells the table holds.
pub proof fn lemma_tbl_get_some_iff(t: Seq<EntryM>, c: CellM)
    ensures
        (tbl_get(t, c) is Some) <==> cells_of(t).contains(c),
    decreases t.len(),
{
    lemma_cells_iff(t, c);
    if t.len() == 0 {
    } else if t[0].0 == c {
    } else {
        lemma_tbl_get_some_iff(t.drop_first(), c);
        lemma_cells_iff(t.drop_first(), c);
        if exists|i: int| 0 <= i < t.len() && (#[trigger] t[i]).0 == c {
            let i = choose|i: int| 0 <= i < t.len() && (#[trigger] t[i]).0 == c;
            assert(t.drop_first()[i - 1].0 == c);
        }
        if exists|i: int| 0 <= i < t.drop_first().len() && (#[trigger] t.drop_first()[i]).0 == c {
            let i = choose|i: int|
                0 <= i < t.drop_first().len() && (#[trigger] t.drop_first()[i]).0 == c;
            assert(t[i + 1].0 == c);
        }
    }
}

/// A successful lookup returns the score of an entry of the table.
pub proof fn lemma_tbl_get_value(t: Seq<EntryM>, c: CellM, v: int)
    requires
        tbl_get(t, c) == Some(v),
    ensures
        exists|i: int| 0 <= i < t.len() && (#[trigger] t[i]) == (c, v),
    decreases t.len(),
{
    if t.len() == 0 {
    } else if t[0].0 == c {
        assert(t[0] == (c, v));
    } else {
        lemma_tbl_get_value(t.drop_first(), c, v);
        let i = choose|i: int|
            0 <= i < t.drop_first().len() && (#[trigger] t.drop_first()[i]) == (c, v);
        assert(t[i + 1] == (c, v));
    }
}

/// What a stable insertion does to a table: one more entry, the new cell
/// joins the cell set, every entry is old or the new one, and uniqueness of
/// cells is kept when the cell was absent.
pub proof fn lemma_tbl_insert_props(t: Seq<EntryM>, c: CellM, s: int)
    ensures
        tbl_insert(t, c, s).len() == t.len() + 1,
        forall|k: int|
            0 <= k < tbl_insert(t, c, s).len() ==> (#[trigger] tbl_insert(t, c, s)[k]) == (c, s)
                || t.contains(tbl_insert(t, c, s)[k]),
        cells_of(tbl_insert(t, c, s)) == cells_of(t).insert(c),
        tbl_ok(t) && !cells_of(t).contains(c) ==> tbl_ok(tbl_insert(t, c, s)),
    decreases t.len(),
{
    let res = tbl_insert(t, c, s);
    lemma_cells_iff(t, c);
    if t.len() == 0 {
        assert(res =~= seq![(c, s)]);
        assert(nodes_of(res) =~= seq![c]);
        assert(cells_of(res) =~= cells_of(t).insert(c));
    } else if s < t[0].1 {
        assert(res =~= seq![(c, s)] + t);
        assert(nodes_of(res) =~= seq![c] + nodes_of(t));
        assert forall|x: CellM| cells_of(res).contains(x) implies cells_of(t).insert(c).contains(
            x,
        ) by {
            let i = choose|i: int| 0 <= i < nodes_of(res).len() && nodes_of(res)[i] == x;
            if i > 0 {
                assert(nodes_of(t)[i - 1] == x);
            }
        }
        assert forall|x: CellM| cells_of(t).insert(c).contains(x) implies cells_of(res).contains(
            x,
        ) by {
            if x == c {
                assert(nodes_of(res)[0] == x);
            } else {
                let i = choose|i: int| 0 <= i < nodes_of(t).len() && nodes_of(t)[i] == x;
                assert(nodes_of(res)[i + 1] == x);
            }
        }
        assert(cells_of(res) =~= cells_of(t).insert(c));
        assert forall|k: int| 0 <= k < res.len() implies (#[trigger] res[k]) == (c, s)
            || t.contains(res[k]) by {
            if k > 0 {
                assert(res[k] == t[k - 1]);
            }
        }
        if tbl_ok(t) && !cells_of(t).contains(c) {
            assert forall|i: int, j: int|
                0 <= i < nodes_of(res).len() && 0 <= j < nodes_of(res).len() && i
                    != j implies nodes_of(res)[i] != nodes_of(res)[j] by {
                if i > 0 && j > 0 {
                    assert(nodes_of(res)[i] == nodes_of(t)[i - 1]);
                    assert(nodes_of(res)[j] == nodes_of(t)[j - 1]);
                } else if i == 0 && j > 0 {
                    assert(nodes_of(t)[j - 1] == nodes_of(res)[j]);
                } else if j == 0 && i > 0 {
                    assert(nodes_of(t)[i - 1] == nodes_of(res)[i]);
                }
            }
        }
    } else {
        let t1 = t.drop_first();
        lemma_tbl_insert_props(t1, c, s);
        lemma_nodes_drop(t);
        let res1 = tbl_insert(t1, c, s);
        assert(res == seq![t[0]] + res1);
        assert(nodes_of(res) =~= seq![t[0].0] + nodes_of(res1));
        assert forall|x: CellM| cells_of(res).contains(x) implies cells_of(t).insert(c).contains(
            x,
        ) by {
            let i = choose|i: int| 0 <= i < nodes_of(res).len() && nodes_of(res)[i] == x;
            if i == 0 {
                assert(nodes_of(t)[0] == x);
            } else {
                assert(nodes_of(res1)[i - 1] == x);
                assert(cells_of(res1).contains(x));
                if x != c {
                    assert(cells_of(t1).contains(x));
                    let j = choose|j: int| 0 <= j < nodes_of(t1).len() && nodes_of(t1)[j] == x;
                    assert(nodes_of(t)[j + 1] == x);
                }
            }
        }
        assert forall|x: CellM| cells_of(t).insert(c).contains(x) implies cells_of(res).contains(
            x,
        ) by {
            if x == c {
                assert(cells_of(res1).contains(x));
                let j = choose|j: int| 0 <= j < nodes_of(res1).len() && nodes_of(res1)[j] == x;
                assert(nodes_of(res)[j + 1] == x);
            } else {
                let i = choose|i: int| 0 <= i < nodes_of(t).len() && nodes_of(t)[i] == x;
                if i == 0 {
                    assert(nodes_of(res)[0] == x);
                } else {
                    assert(nodes_of(t1)[i - 1] == x);
                    assert(cells_of(res1).contains(x));
                    let j = choose|j: int| 0 <= j < nodes_of(res1).len() && nodes_of(res1)[j] == x;
                    assert(nodes_of(res)[j + 1] == x);
                }
            }
        }
        assert(cells_of(res) =~= cells_of(t).insert(c));
        assert forall|k: int| 0 <= k < res.len() implies (#[trigger] res[k]) == (c, s)
            || t.contains(res[k]) by {
            if k == 0 {
                assert(res[k] == t[0]);
            } else {
                assert(res[k] == res1[k - 1]);
                if res1[k - 1] == (c, s) {
                } else {
                    assert(t1.contains(res1[k - 1]));
                    let j = choose|j: int| 0 <= j < t1.len() && t1[j] == res1[k - 1];
                    assert(t[j + 1] == res[k]);
                }
            }
        }
        if tbl_ok(t) && !cells_of(t).contains(c) {
            assert(tbl_ok(t1)) by {
                assert forall|i: int, j: int|
                    0 <= i < nodes_of(t1).len() && 0 <= j < nodes_of(t1).len() && i
                        != j implies nodes_of(t1)[i] != nodes_of(t1)[j] by {
                    assert(nodes_of(t)[i + 1] == nodes_of(t1)[i]);
                    assert(nodes_of(t)[j + 1] == nodes_of(t1)[j]);
                }
            }
            assert(!cells_of(t1).contains(c)) by {
                if cells_of(t1).contains(c) {
                    let j = choose|j: int| 0 <= j < nodes_of(t1).len() && nodes_of(t1)[j] == c;
                    assert(nodes_of(t)[j + 1] == c);
                    assert(cells_of(t).contains(c));
                }
            }
            assert(tbl_ok(res1));
            assert forall|i: int, j: int|
                0 <= i < nodes_of(res).len() && 0 <= j < nodes_of(res).len() && i
                    != j implies nodes_of(res)[i] != nodes_of(res)[j] by {
                if i > 0 && j > 0 {
                    assert(nodes_of(res)[i] == nodes_of(res1)[i - 1]);
                    assert(nodes_of(res)[j] == nodes_of(res1)[j - 1]);
                } else {
                    let k = if i == 0 {
                        j
                    } else {
                        i
                    };
                    assert(nodes_of(res)[k] == nodes_of(res1)[k - 1]);
                    assert(cells_of(res1).contains(nodes_of(res1)[k - 1]));
                    assert(nodes_of(res)[0] == t[0].0);
                    if nodes_of(res1)[k - 1] == t[0].0 {
                        assert(cells_of(t1).contains(t[0].0) || t[0].0 == c);
                        if cells_of(t1).contains(t[0].0) {
                            let j2 = choose|j2: int|
                                0 <= j2 < nodes_of(t1).len() && nodes_of(t1)[j2] == t[0].0;
                            assert(nodes_of(t)[j2 + 1] == t[0].0);
                            assert(nodes_of(t)[0] == t[0].0);
                        } else {
                            assert(nodes_of(t)[0] == c);
                            assert(cells_of(t).contains(c));
                        }
                    }
                }
            }
        }
    }
}

/// What removal does to a table: the cell leaves the cell set, every
/// remaining entry is an old one, and uniqueness of cells is kept.
pub proof fn lemma_tbl_remove_props(t: Seq<EntryM>, c: CellM)
    requires
        tbl_ok(t),
    ensures
        cells_of(t).contains(c) ==> tbl_remove(t, c).len() == t.len() - 1 && cells_of(
            tbl_remove(t, c),
        ) == cells_of(t).remove(c),
        !cells_of(t).contains(c) ==> tbl_remove(t, c) == t,
        forall|k: int| 0 <= k < tbl_remove(t, c).len() ==> t.contains(#[trigger] tbl_remove(t, c)[k]),
        tbl_ok(tbl_remove(t, c)),
    decreases t.len(),
{
    let res = tbl_remove(t, c);
    lemma_cells_iff(t, c);
    if t.len() == 0 {
        assert(res =~= t);
    } else if t[0].0 == c {
        assert(nodes_of(t)[0] == c);
        assert(cells_of(t).contains(c));
        assert(res == t.drop_first());
        lemma_nodes_drop(t);
        assert forall|k: int| 0 <= k < res.len() implies t.contains(#[trigger] res[k]) by {
            assert(res[k] == t[k + 1]);
        }
        assert forall|x: CellM| cells_of(res).contains(x) implies cells_of(t).remove(c).contains(
            x,
        ) by {
            let i = choose|i: int| 0 <= i < nodes_of(res).len() && nodes_of(res)[i] == x;
            assert(nodes_of(t)[i + 1] == x);
            assert(x != c);
        }
        assert forall|x: CellM| cells_of(t).remove(c).contains(x) implies cells_of(res).contains(
            x,
        ) by {
            let i = choose|i: int| 0 <= i < nodes_of(t).len() && nodes_of(t)[i] == x;
            assert(i != 0);
            assert(nodes_of(res)[i - 1] == x);
        }
        assert(cells_of(res) =~= cells_of(t).remove(c));
        assert forall|i: int, j: int|
            0 <= i < nodes_of(res).len() && 0 <= j < nodes_of(res).len() && i
                != j implies nodes_of(res)[i] != nodes_of(res)[j] by {
            assert(nodes_of(res)[i] == nodes_of(t)[i + 1]);
            assert(nodes_of(res)[j] == nodes_of(t)[j + 1]);
        }
    } else {
        let t1 = t.drop_first();
        lemma_nodes_drop(t);
        assert(tbl_ok(t1)) by {
            assert forall|i: int, j: int|
                0 <= i < nodes_of(t1).len() && 0 <= j < nodes_of(t1).len() && i
                    != j implies nodes_of(t1)[i] != nodes_of(t1)[j] by {
                assert(nodes_of(t)[i + 1] == nodes_of(t1)[i]);
                assert(nodes_of(t)[j + 1] == nodes_of(t1)[j]);
            }
        }
        lemma_tbl_remove_props(t1, c);
        lemma_cells_iff(t1, c);
        let res1 = tbl_remove(t1, c);
        assert(res == seq![t[0]] + res1);
        assert(nodes_of(res) =~= seq![t[0].0] + nodes_of(res1));
        assert(cells_of(t1).contains(c) <==> cells_of(t).contains(c)) by {
            if cells_of(t1).contains(c) {
                let i = choose|i: int| 0 <= i < nodes_of(t1).len() && nodes_of(t1)[i] == c;
                assert(nodes_of(t)[i + 1] == c);
            }
            if cells_of(t).contains(c) {
                let i = choose|i: int| 0 <= i < nodes_of(t).len() && nodes_of(t)[i] == c;
                assert(i != 0);
                assert(nodes_of(t1)[i - 1] == c);
            }
        }
        assert forall|k: int| 0 <= k < res.len() implies t.contains(#[trigger] res[k]) by {
            if k == 0 {
                assert(res[k] == t[0]);
            } else {
                assert(res[k] == res1[k - 1]);
                assert(t1.contains(res1[k - 1]));
                let j = choose|j: int| 0 <= j < t1.len() && t1[j] == res1[k - 1];
                assert(t[j + 1] == res[k]);
            }
        }
        if cells_of(t).contains(c) {
            assert forall|x: CellM| cells_of(res).contains(x) implies cells_of(t).remove(
                c,
            ).contains(x) by {
                let i = choose|i: int| 0 <= i < nodes_of(res).len() && nodes_of(res)[i] == x;
                if i == 0 {
                    assert(nodes_of(t)[0] == x);
                    assert(x != c);
                } else {
                    assert(nodes_of(res1)[i - 1] == x);
                    assert(cells_of(res1).contains(x));
                    assert(cells_of(t1).remove(c).contains(x));
                    let j = choose|j: int| 0 <= j < nodes_of(t1).len() && nodes_of(t1)[j] == x;
                    assert(nodes_of(t)[j + 1] == x);
                }
            }
            assert forall|x: CellM| cells_of(t).remove(c).contains(x) implies cells_of(
                res,
            ).contains(x) by {
                let i = choose|i: int| 0 <= i < nodes_of(t).len() && nodes_of(t)[i] == x;
                if i == 0 {
                    assert(nodes_of(res)[0] == x);
                } else {
                    assert(nodes_of(t1)[i - 1] == x);
                    assert(cells_of(res1).contains(x));
                    let j = choose|j: int| 0 <= j < nodes_of(res1).len() && nodes_of(res1)[j] == x;
                    assert(nodes_of(res)[j + 1] == x);
                }
            }
            assert(cells_of(res) =~= cells_of(t).remove(c));
        } else {
            assert(res1 == t1);
            assert(res =~= t);
        }
        assert forall|i: int, j: int|
            0 <= i < nodes_of(res).len() && 0 <= j < nodes_of(res).len() && i
                != j implies nodes_of(res)[i] != nodes_of(res)[j] by {
            if i > 0 && j > 0 {
                assert(nodes_of(res)[i] == nodes_of(res1)[i - 1]);
                assert(nodes_of(res)[j] == nodes_of(res1)[j - 1]);
            } else {
                let k = if i == 0 {
                    j
                } else {
                    i
                };
                assert(nodes_of(res)[k] == nodes_of(res1)[k - 1]);
                assert(cells_of(res1).contains(nodes_of(res1)[k - 1]));
                if nodes_of(res1)[k - 1] == t[0].0 {
                    let j2 = choose|j2: int|
                        0 <= j2 < nodes_of(t1).len() && nodes_of(t1)[j2] == t[0].0;
                    assert(nodes_of(t)[j2 + 1] == t[0].0);
                    assert(nodes_of(t)[0] == t[0].0);
                }
            }
        }
    }
}

/// The first-occurrence position is in range, marks containment, and points
/// at the cell when present.
pub proof fn lemma_rank_basic(s: Seq<CellM>, c: CellM)
    ensures
        0 <= rank_of(s, c) <= s.len(),
        s.contains(c) <==> rank_of(s, c) < s.len(),
        s.contains(c) ==> s[rank_of(s, c)] == c,
    decreases s.len(),
{
    if s.len() == 0 {
    } else if s[0] == c {
        assert(s.contains(c));
    } else {
        lemma_rank_basic(s.drop_first(), c);
        if s.contains(c) {
            let i = choose|i: int| 0 <= i < s.len() && s[i] == c;
            assert(s.drop_first()[i - 1] == c);
            assert(s.drop_first().contains(c));
        }
        if s.drop_first().contains(c) {
            let i = choose|i: int| 0 <= i < s.drop_first().len() && s.drop_first()[i] == c;
            assert(s[i + 1] == c);
        }
    }
}

/// How appending one cell moves first-occurrence positions.
pub proof fn lemma_rank_push(s: Seq<CellM>, c: CellM, x: CellM)
    ensures
        rank_of(s.push(x), c) == if s.contains(c) {
            rank_of(s, c)
        } else if c == x {
            s.len() as int
        } else {
            s.len() as int + 1
        },
    decreases s.len(),
{
    lemma_rank_basic(s, c);
    if s.len() == 0 {
        assert(s.push(x) =~= seq![x]);
        assert(rank_of(seq![x], c) == if x == c {
            0int
        } else {
            1 + rank_of(seq![x].drop_first(), c)
        });
        assert(seq![x].drop_first().len() == 0);
    } else {
        assert(s.push(x).drop_first() =~= s.drop_first().push(x));
        lemma_rank_push(s.drop_first(), c, x);
        lemma_rank_basic(s.drop_first(), c);
        if s.contains(c) && s[0] != c {
            let i = choose|i: int| 0 <= i < s.len() && s[i] == c;
            assert(s.drop_first()[i - 1] == c);
            assert(s.drop_first().contains(c));
        }
        if s.drop_first().contains(c) {
            let i = choose|i: int| 0 <= i < s.drop_first().len() && s.drop_first()[i] == c;
            assert(s[i + 1] == c);
        }
    }
}

/// Linear cell indices are in range and injective on the grid.
pub proof fn lemma_lidx(w: int, h: int, a: CellM, b: CellM)
    requires
        in_bounds(w, h, a),
        in_bounds(w, h, b),
    ensures
        0 <= lin_idx(w, a) < w * h,
        lin_idx(w, a) == lin_idx(w, b) ==> a == b,
{
    assert(0 <= w * a.1 + a.0 < w * h) by (nonlinear_arith)
        requires
            0 <= a.0 < w,
            0 <= a.1 < h,
    ;
    if lin_idx(w, a) == lin_idx(w, b) {
        assert(a.0 == b.0 && a.1 == b.1) by (nonlinear_arith)
            requires
                0 <= a.0 < w,
                0 <= b.0 < w,
                w * a.1 + a.0 == w * b.1 + b.0,
        ;
    }
}

/// Every listed neighbour is in bounds and Moore-adjacent to its cell.
pub proof fn lemma_neighbor_elems(w: int, h: int, c: CellM)
    ensures
        forall|n: CellM|
            #[trigger] neighbor_list(w, h, c).contains(n) ==> in_bounds(w, h, n)
                && moore_adjacent(c, n),
{
    assert forall|n: CellM| #[trigger] neighbor_list(w, h, c).contains(n) implies in_bounds(
        w,
        h,
        n,
    ) && moore_adjacent(c, n) by {
        let ns = neighbor_list(w, h, c);
        let i = choose|i: int| 0 <= i < ns.len() && ns[i] == n;
    }
}

/// Every in-bounds Moore neighbour of a cell is listed.
pub proof fn lemma_neighbor_present(w: int, h: int, a: CellM, n: CellM)
    requires
        moore_adjacent(a, n),
        in_bounds(w, h, n),
    ensures
        neighbor_list(w, h, a).contains(n),
{
    let dx = n.0 - a.0;
    let dy = n.1 - a.1;
    if dx == -1 && dy == -1 {
        assert(cand(w, h, a, -1, -1)[0] == n);
        assert(cand(w, h, a, -1, -1).contains(n));
    } else if dx == -1 && dy == 0 {
        assert(cand(w, h, a, -1, 0)[0] == n);
        assert(cand(w, h, a, -1, 0).contains(n));
    } else if dx == -1 && dy == 1 {
        assert(cand(w, h, a, -1, 1)[0] == n);
        assert(cand(w, h, a, -1, 1).contains(n));
    } else if dx == 0 && dy == -1 {
        assert(cand(w, h, a, 0, -1)[0] == n);
        assert(cand(w, h, a, 0, -1).contains(n));
    } else if dx == 0 && dy == 1 {
        assert(cand(w, h, a, 0, 1)[0] == n);
        assert(cand(w, h, a, 0, 1).contains(n));
    } else if dx == 1 && dy == -1 {
        assert(cand(w, h, a, 1, -1)[0] == n);
        assert(cand(w, h, a, 1, -1).contains(n));
    } else if dx == 1 && dy == 0 {
        assert(cand(w, h, a, 1, 0)[0] == n);
        assert(cand(w, h, a, 1, 0).contains(n));
    } else {
        assert(dx == 1 && dy == 1);
        assert(cand(w, h, a, 1, 1)[0] == n);
        assert(cand(w, h, a, 1, 1).contains(n));
    }
}

/// Relaxing one neighbour preserves the invariant; the closed list is
/// untouched, the frontier only grows, and the neighbour ends up discovered.
pub proof fn lemma_relax_one_pres(
    w: int,
    h: int,
    grid: Seq<int>,
    start: CellM,
    end: CellM,
    st: SearchState,
    current: CellM,
    n: CellM,
)
    requires
        inv(w, h, start, end, st),
        st.closed.contains(current),
        in_bounds(w, h, n),
        moore_adjacent(current, n),
    ensures
        inv(w, h, start, end, relax_one(w, grid, end, st, current, n)),
        relax_one(w, grid, end, st, current, n).closed == st.closed,
        forall|c: CellM|
            st.open_cells.contains(c) ==> relax_one(
                w,
                grid,
                end,
                st,
                current,
                n,
            ).open_cells.contains(c),
        relax_one(w, grid, end, st, current, n).closed.contains(n) || relax_one(
            w,
            grid,
            end,
            st,
            current,
            n,
        ).open_cells.contains(n),
{
    let res = relax_one(w, grid, end, st, current, n);
    if st.closed.contains(n) {
        assert(res == st);
    } else if st.open_cells.contains(n) {
        let g = score_or_zero(st.gscore, n);
        lemma_tbl_get_some_iff(st.gscore, n);
        let gv = choose|gv: int| tbl_get(st.gscore, n) == Some(gv);
        lemma_tbl_get_value(st.gscore, n, gv);
        let i = choose|i: int| 0 <= i < st.gscore.len() && (#[trigger] st.gscore[i]) == (n, gv);
        assert(0 <= gv <= 14);
        assert(g == gv);
        assert(g * 10 + step_cost(current, n) >= g);
        assert(st.open_cells.insert(n) =~= st.open_cells);
        assert(res == st);
    } else {
        lemma_tbl_get_some_iff(st.gscore, n);
        assert(score_or_zero(st.gscore, n) == 0);
        let t = step_cost(current, n);
        assert(10 <= t <= 14);
        assert(res.open_cells == st.open_cells.insert(n));
        assert(res.closed == st.closed);
        assert(res.route == st.route.insert(n, current));
        assert(res.gscore == tbl_insert(st.gscore, n, t));
        assert(res.fscore == tbl_insert(st.fscore, n, t + estimate(grid, w, n, end)));
        lemma_tbl_insert_props(st.gscore, n, t);
        lemma_tbl_insert_props(st.fscore, n, t + estimate(grid, w, n, end));
        assert(cells_of(res.gscore) =~= res.open_cells);
        assert(cells_of(res.fscore) =~= res.open_cells);
        assert forall|k: int| 0 <= k < res.gscore.len() implies 0 <= (#[trigger] res.gscore[k]).1
            <= 14 by {
            if res.gscore[k] != (n, t) {
                assert(st.gscore.contains(res.gscore[k]));
                let j = choose|j: int| 0 <= j < st.gscore.len() && st.gscore[j] == res.gscore[k];
            }
        }
        assert(!opened(st).contains(n));
        assert(n != start);
        assert(opened(res) =~= opened(st).insert(n));
        assert(res.route.dom() =~= opened(res).remove(start));
        lemma_rank_basic(st.closed, current);
        lemma_rank_basic(st.closed, n);
        assert forall|c: CellM| #[trigger] res.route.dom().contains(c) implies res.closed.contains(
            res.route[c],
        ) && moore_adjacent(res.route[c], c) && rank_of(res.closed, res.route[c]) < rank_of(
            res.closed,
            c,
        ) by {
            if c != n {
                assert(st.route.dom().contains(c));
                assert(res.route[c] == st.route[c]);
            } else {
                assert(res.route[c] == current);
            }
        }
        assert(inv(w, h, start, end, res));
    }
}

/// Relaxing a list of neighbours preserves the invariant; afterwards every
/// listed neighbour has been discovered.
pub proof fn lemma_relax_all_pres(
    w: int,
    h: int,
    grid: Seq<int>,
    start: CellM,
    end: CellM,
    st: SearchState,
    current: CellM,
    ns: Seq<CellM>,
)
    requires
        inv(w, h, start, end, st),
        st.closed.contains(current),
        forall|n: CellM|
            #[trigger] ns.contains(n) ==> in_bounds(w, h, n) && moore_adjacent(current, n),
    ensures
        inv(w, h, start, end, relax_all(w, grid, end, st, current, ns)),
        relax_all(w, grid, end, st, current, ns).closed == st.closed,
        forall|c: CellM|
            st.open_cells.contains(c) ==> relax_all(
                w,
                grid,
                end,
                st,
                current,
                ns,
            ).open_cells.contains(c),
        forall|n: CellM|
            #[trigger] ns.contains(n) ==> relax_all(w, grid, end, st, current, ns).closed.contains(
                n,
            ) || relax_all(w, grid, end, st, current, ns).open_cells.contains(n),
    decreases ns.len(),
{
    let res = relax_all(w, grid, end, st, current, ns);
    if ns.len() == 0 {
        assert(res == st);
    } else {
        assert(ns.contains(ns[0]));
        lemma_relax_one_pres(w, h, grid, start, end, st, current, ns[0]);
        let st1 = relax_one(w, grid, end, st, current, ns[0]);
        let ns1 = ns.drop_first();
        assert forall|n: CellM| #[trigger] ns1.contains(n) implies in_bounds(w, h, n)
            && moore_adjacent(current, n) by {
            let i = choose|i: int| 0 <= i < ns1.len() && ns1[i] == n;
            assert(ns[i + 1] == n);
            assert(ns.contains(n));
        }
        lemma_relax_all_pres(w, h, grid, start, end, st1, current, ns1);
        assert(res == relax_all(w, grid, end, st1, current, ns1));
        assert forall|n: CellM| #[trigger] ns.contains(n) implies res.closed.contains(n)
            || res.open_cells.contains(n) by {
            let i = choose|i: int| 0 <= i < ns.len() && ns[i] == n;
            if i == 0 {
                assert(st1.closed.contains(n) || st1.open_cells.contains(n));
            } else {
                assert(ns1[i - 1] == n);
                assert(ns1.contains(n));
            }
        }
    }
}

/// Relaxing one more neighbour extends a left-to-right relaxation.
pub proof fn lemma_relax_all_snoc(
    w: int,
    grid: Seq<int>,
    end: CellM,
    st: SearchState,
    current: CellM,
    ns: Seq<CellM>,
    x: CellM,
)
    ensures
        relax_all(w, grid, end, st, current, ns.push(x)) == relax_one(
            w,
            grid,
            end,
            relax_all(w, grid, end, st, current, ns),
            current,
            x,
        ),
    decreases ns.len(),
{
    if ns.len() == 0 {
        assert(ns.push(x)[0] == x);
        assert(ns.push(x).drop_first() =~= Seq::<CellM>::empty());
        assert(relax_all(w, grid, end, st, current, ns) == st);
        let st1 = relax_one(w, grid, end, st, current, x);
        assert(relax_all(w, grid, end, st1, current, ns.push(x).drop_first()) == st1);
        assert(relax_all(w, grid, end, st, current, ns.push(x)) == relax_all(
            w,
            grid,
            end,
            st1,
            current,
            ns.push(x).drop_first(),
        ));
    } else {
        assert(ns.push(x)[0] == ns[0]);
        assert(ns.push(x).drop_first() =~= ns.drop_first().push(x));
        let st1 = relax_one(w, grid, end, st, current, ns[0]);
        lemma_relax_all_snoc(w, grid, end, st1, current, ns.drop_first(), x);
        assert(relax_all(w, grid, end, st, current, ns.push(x)) == relax_all(
            w,
            grid,
            end,
            st1,
            current,
            ns.drop_first().push(x),
        ));
        assert(relax_all(w, grid, end, st, current, ns) == relax_all(
            w,
            grid,
            end,
            st1,
            current,
            ns.drop_first(),
        ));
    }
}

/// One full expansion of a non-goal frontier cell preserves the full
/// invariant and appends exactly that cell to the closed list.
pub proof fn lemma_expand_pres(
    w: int,
    h: int,
    grid: Seq<int>,
    start: CellM,
    end: CellM,
    st: SearchState,
)
    requires
        inv_full(w, h, start, end, st),
        st.fscore.len() > 0,
        st.fscore[0].0 != end,
    ensures
        st.open_cells.contains(st.fscore[0].0),
        inv_full(w, h, start, end, expand(w, h, grid, end, st, st.fscore[0].0)),
        expand(w, h, grid, end, st, st.fscore[0].0).closed == st.closed.push(st.fscore[0].0),
        inv(
            w,
            h,
            start,
            end,
            (SearchState {
                open_cells: st.open_cells.remove(st.fscore[0].0),
                closed: st.closed.push(st.fscore[0].0),
                route: st.route,
                gscore: tbl_remove(st.gscore, st.fscore[0].0),
                fscore: tbl_remove(st.fscore, st.fscore[0].0),
            }),
        ),
{
    let current = st.fscore[0].0;
    lemma_cells_iff(st.fscore, current);
    assert(st.open_cells.contains(current));
    assert(in_bounds(w, h, current) && !st.closed.contains(current));
    let st1 = SearchState {
        open_cells: st.open_cells.remove(current),
        closed: st.closed.push(current),
        route: st.route,
        gscore: tbl_remove(st.gscore, current),
        fscore: tbl_remove(st.fscore, current),
    };
    lemma_tbl_remove_props(st.gscore, current);
    lemma_tbl_remove_props(st.fscore, current);
    assert(inv(w, h, start, end, st1)) by {
        assert(cells_of(st1.fscore) =~= st1.open_cells);
        assert(cells_of(st1.gscore) =~= st1.open_cells);
        assert forall|k: int| 0 <= k < st1.gscore.len() implies 0 <= (#[trigger] st1.gscore[k]).1
            <= 14 by {
            assert(st.gscore.contains(st1.gscore[k]));
            let j = choose|j: int| 0 <= j < st.gscore.len() && st.gscore[j] == st1.gscore[k];
        }
        assert(st1.closed.no_duplicates()) by {
            assert forall|i: int, j: int|
                0 <= i < st1.closed.len() && 0 <= j < st1.closed.len() && i
                    != j implies st1.closed[i] != st1.closed[j] by {
                if i < st.closed.len() && j < st.closed.len() {
                } else {
                    let k = if i < st.closed.len() {
                        i
                    } else {
                        j
                    };
                    assert(st1.closed[k] == st.closed[k]);
                }
            }
        }
        assert(!st1.closed.contains(end));
        assert(opened(st1) =~= opened(st));
        assert(st1.route.dom() == opened(st1).remove(start));
        assert forall|c: CellM| #[trigger] st1.route.dom().contains(c) implies st1.closed.contains(
            st1.route[c],
        ) && moore_adjacent(st1.route[c], c) && rank_of(st1.closed, st1.route[c]) < rank_of(
            st1.closed,
            c,
        ) by {
            assert(st.route.dom().contains(c));
            lemma_rank_push(st.closed, st.route[c], current);
            lemma_rank_push(st.closed, c, current);
            lemma_rank_basic(st.closed, st.route[c]);
            lemma_rank_basic(st.closed, c);
        }
    }
    let ns = neighbor_list(w, h, current);
    lemma_neighbor_elems(w, h, current);
    assert(st1.closed.contains(current)) by {
        assert(st1.closed[st.closed.len() as int] == current);
    }
    assert forall|n: CellM| #[trigger] ns.contains(n) implies in_bounds(w, h, n)
        && moore_adjacent(current, n) by {}
    lemma_relax_all_pres(w, h, grid, start, end, st1, current, ns);
    let res = expand(w, h, grid, end, st, current);
    assert(res == relax_all(w, grid, end, st1, current, ns));
    assert(closure_ok(w, h, res)) by {
        assert forall|i: int, n: CellM|
            0 <= i < res.closed.len() && #[trigger] neighbor_list(w, h, res.closed[i]).contains(
                n,
            ) implies res.closed.contains(n) || res.open_cells.contains(n) by {
            if i < st.closed.len() {
                assert(res.closed[i] == st.closed[i]);
                assert(neighbor_list(w, h, st.closed[i]).contains(n));
                assert(st.closed.contains(n) || st.open_cells.contains(n));
                if st.closed.contains(n) {
                    let j = choose|j: int| 0 <= j < st.closed.len() && st.closed[j] == n;
                    assert(res.closed[j] == n);
                } else {
                    if n == current {
                        assert(res.closed[st.closed.len() as int] == n);
                    } else {
                        assert(st1.open_cells.contains(n));
                    }
                }
            } else {
                assert(res.closed[i] == current);
            }
        }
    }
}

/// When the first table entry is frontier-resident, it is selected.
pub proof fn lemma_select_first(fs: Seq<EntryM>, frontier: Set<CellM>)
    requires
        fs.len() > 0,
        frontier.contains(fs[0].0),
    ensures
        select(fs, frontier) == fs[0].0,
{
    assert(select_scan(fs, frontier) == Some(fs[0].0));
}

/// One row of a grid.
pub open spec fn row_cells(w: int, y: int) -> Set<CellM> {
    Set::new(|c: CellM| 0 <= c.0 < w && c.1 == y)
}

pub proof fn lemma_row_card(w: int, y: int)
    requires
        w >= 0,
    ensures
        row_cells(w, y).finite(),
        row_cells(w, y).len() == w,
    decreases w,
{
    if w == 0 {
        assert(row_cells(0, y) =~= Set::<CellM>::empty());
    } else {
        lemma_row_card(w - 1, y);
        assert(row_cells(w, y) =~= row_cells(w - 1, y).insert((w - 1, y)));
        assert(!row_cells(w - 1, y).contains((w - 1, y)));
    }
}

/// A `w` by `h` grid has exactly `w * h` cells.
pub proof fn lemma_grid_card(w: int, h: int)
    requires
        w >= 0,
        h >= 0,
    ensures
        grid_cells(w, h).finite(),
        grid_cells(w, h).len() == w * h,
    decreases h,
{
    if h == 0 {
        assert(grid_cells(w, 0) =~= Set::<CellM>::empty());
        assert(w * 0 == 0) by (nonlinear_arith);
    } else {
        lemma_grid_card(w, h - 1);
        lemma_row_card(w, h - 1);
        assert(grid_cells(w, h) =~= grid_cells(w, h - 1) + row_cells(w, h - 1));
        assert(grid_cells(w, h - 1).disjoint(row_cells(w, h - 1)));
        vstd::set_lib::lemma_set_disjoint_lens(grid_cells(w, h - 1), row_cells(w, h - 1));
        assert(w * (h - 1) + w == w * h) by (nonlinear_arith);
    }
}

/// A duplicate-free list of in-bounds cells that misses one in-bounds cell
/// is shorter than the grid.
pub proof fn lemma_closed_bound(w: int, h: int, end: CellM, closed: Seq<CellM>)
    requires
        1 <= w,
        1 <= h,
        closed.no_duplicates(),
        forall|i: int| 0 <= i < closed.len() ==> in_bounds(w, h, #[trigger] closed[i]),
        !closed.contains(end),
        in_bounds(w, h, end),
    ensures
        closed.len() < w * h,
{
    let s = closed.to_set();
    closed.unique_seq_to_set();
    lemma_grid_card(w, h);
    assert(s.subset_of(grid_cells(w, h).remove(end))) by {
        assert forall|x: CellM| s.contains(x) implies grid_cells(w, h).remove(end).contains(x) by {
            let i = choose|i: int| 0 <= i < closed.len() && closed[i] == x;
        }
    }
    vstd::set_lib::lemma_len_subset(s, grid_cells(w, h).remove(end));
    assert(grid_cells(w, h).contains(end));
    assert(grid_cells(w, h).remove(end).len() == w * h - 1);
}

/// In a set of cells closed under listed neighbours, every in-bounds cell is
/// reachable from every member: rectangular grids are 8-connected.
pub proof fn lemma_connected(w: int, h: int, s: Set<CellM>, a: CellM, b: CellM)
    requires
        forall|c: CellM, n: CellM|
            s.contains(c) && #[trigger] neighbor_list(w, h, c).contains(n) ==> s.contains(n),
        in_bounds(w, h, a),
        in_bounds(w, h, b),
        s.contains(a),
    ensures
        s.contains(b),
    decreases abs_val(b.0 - a.0) + abs_val(b.1 - a.1),
{
    if a != b {
        let sx: int = if b.0 > a.0 {
            1
        } else if b.0 < a.0 {
            -1
        } else {
            0
        };
        let sy: int = if b.1 > a.1 {
            1
        } else if b.1 < a.1 {
            -1
        } else {
            0
        };
        let n = (a.0 + sx, a.1 + sy);
        assert(in_bounds(w, h, n));
        assert(moore_adjacent(a, n));
        lemma_neighbor_present(w, h, a, n);
        assert(s.contains(n));
        lemma_connected(w, h, s, n, b);
    }
}

/// While the goal is not finalized, the frontier cannot be empty, and the
/// f-score table holds at least one entry.
pub proof fn lemma_open_nonempty(w: int, h: int, start: CellM, end: CellM, st: SearchState)
    requires
        inv_full(w, h, start, end, st),
        in_bounds(w, h, start),
        in_bounds(w, h, end),
    ensures
        st.open_cells != Set::<CellM>::empty(),
        st.fscore.len() > 0,
{
    if st.open_cells == Set::<CellM>::empty() {
        let s = closed_set(st);
        assert forall|c: CellM, n: CellM|
            s.contains(c) && #[trigger] neighbor_list(w, h, c).contains(n) implies s.contains(
            n,
        ) by {
            let i = choose|i: int| 0 <= i < st.closed.len() && st.closed[i] == c;
            assert(neighbor_list(w, h, st.closed[i]).contains(n));
            assert(st.closed.contains(n) || st.open_cells.contains(n));
        }
        assert(s.contains(start));
        lemma_connected(w, h, s, start, end);
        assert(st.closed.contains(end));
        assert(false);
    }
    if st.fscore.len() == 0 {
        assert forall|x: CellM| !st.open_cells.contains(x) by {
            lemma_cells_iff(st.fscore, x);
        }
        assert(st.open_cells =~= Set::<CellM>::empty());
        assert(false);
    }
}

/// Following predecessors from a discovered cell yields a chain that starts
/// there, ends at the start cell, and moves by Moore steps.
pub proof fn lemma_walk_props(
    w: int,
    h: int,
    start: CellM,
    end: CellM,
    st: SearchState,
    c: CellM,
    fuel: nat,
)
    requires
        inv(w, h, start, end, st),
        opened(st).contains(c),
        fuel >= rank_of(st.closed, c) + 1,
    ensures
        ({
            let p = walk(st.route, c, fuel);
            p.len() >= 1 && p[0] == c && p.last() == start && (forall|i: int|
                1 <= i < p.len() ==> moore_adjacent(#[trigger] p[i], p[i - 1]))
        }),
    decreases fuel,
{
    lemma_rank_basic(st.closed, c);
    let p = walk(st.route, c, fuel);
    if st.route.dom().contains(c) && fuel > 0 {
        let nx = st.route[c];
        assert(closed_set(st).contains(nx));
        assert(opened(st).contains(nx));
        lemma_rank_basic(st.closed, nx);
        lemma_walk_props(w, h, start, end, st, nx, (fuel - 1) as nat);
        let p1 = walk(st.route, nx, (fuel - 1) as nat);
        assert(p == seq![c] + p1);
        assert(p.len() == 1 + p1.len());
        assert(p[0] == c);
        assert(p.last() == p1.last());
        assert forall|i: int| 1 <= i < p.len() implies moore_adjacent(#[trigger] p[i], p[i - 1]) by {
            if i == 1 {
                assert(p[1] == p1[0]);
                assert(p1[0] == nx);
                assert(moore_adjacent(nx, c));
            } else {
                assert(p[i] == p1[i - 1]);
                assert(p[i - 1] == p1[i - 2]);
            }
        }
    } else {
        assert(fuel > 0);
        assert(!st.route.dom().contains(c));
        assert(c == start);
    }
}

/// The search always terminates with a goal-to-start path while the full
/// invariant holds and enough fuel remains.
pub proof fn lemma_search_found(
    w: int,
    h: int,
    grid: Seq<int>,
    start: CellM,
    end: CellM,
    st: SearchState,
    fuel: nat,
)
    requires
        inv_full(w, h, start, end, st),
        in_bounds(w, h, start),
        in_bounds(w, h, end),
        1 <= w,
        1 <= h,
        fuel + st.closed.len() >= w * h + 1,
    ensures
        match search(w, h, grid, end, st, fuel) {
            Some(p) => p.len() >= 1 && p[0] == end && p.last() == start && (forall|i: int|
                1 <= i < p.len() ==> moore_adjacent(#[trigger] p[i], p[i - 1])),
            None => false,
        },
    decreases fuel,
{
    lemma_open_nonempty(w, h, start, end, st);
    lemma_closed_bound(w, h, end, st.closed);
    assert(fuel >= 2);
    let current = st.fscore[0].0;
    assert(st.open_cells.contains(current)) by {
        lemma_cells_iff(st.fscore, current);
    }
    lemma_select_first(st.fscore, st.open_cells);
    if current == end {
        assert(opened(st).contains(end));
        lemma_rank_basic(st.closed, end);
        assert(rank_of(st.closed, end) == st.closed.len());
        lemma_walk_props(w, h, start, end, st, end, (w * h) as nat);
        assert(search(w, h, grid, end, st, fuel) == Some(walk(st.route, end, (w * h) as nat)));
    } else {
        lemma_expand_pres(w, h, grid, start, end, st);
        let st2 = expand(w, h, grid, end, st, current);
        lemma_search_found(w, h, grid, start, end, st2, (fuel - 1) as nat);
        assert(search(w, h, grid, end, st, fuel) == search(w, h, grid, end, st2, (fuel - 1) as nat));
    }
}

/// The state every search starts from satisfies the full invariant.
pub proof fn lemma_init(w: int, h: int, grid: Seq<int>, start: CellM, end: CellM)
    requires
        1 <= w,
        1 <= h,
        in_bounds(w, h, start),
        in_bounds(w, h, end),
    ensures
        inv_full(w, h, start, end, init_state(w, grid, start, end)),
{
    let st = init_state(w, grid, start, end);
    assert(st.gscore =~= seq![(start, 0int)]);
    assert(st.fscore =~= seq![(start, estimate(grid, w, start, end))]);
    assert(nodes_of(st.gscore) =~= seq![start]);
    assert(nodes_of(st.fscore) =~= seq![start]);
    assert(cells_of(st.gscore) =~= Set::<CellM>::empty().insert(start));
    assert(cells_of(st.fscore) =~= Set::<CellM>::empty().insert(start));
    assert(opened(st).contains(start));
    assert(st.route.dom() =~= opened(st).remove(start));
    assert(inv(w, h, start, end, st));
    assert(closure_ok(w, h, st));
}

/// On any grid, the search returns a path: the Moore-neighbour graph of a
/// rectangular grid is connected, so the goal is always reached.
pub proof fn lemma_path_always_found(w: int, h: int, grid: Seq<int>, start: CellM, end: CellM)
    requires
        1 <= w,
        1 <= h,
        in_bounds(w, h, start),
        in_bounds(w, h, end),
    ensures
        astar_result(w, h, grid, start, end) is Some,
{
    lemma_init(w, h, grid, start, end);
    assert(w * h >= 1) by (nonlinear_arith)
        requires
            1 <= w,
            1 <= h,
    ;
    lemma_search_found(w, h, grid, start, end, init_state(w, grid, start, end), (w * h + 1) as nat);
}

/// Any returned path is nonempty, starts with the goal cell and ends with
/// the start cell.
pub proof fn lemma_path_endpoints(w: int, h: int, grid: Seq<int>, start: CellM, end: CellM)
    requires
        1 <= w,
        1 <= h,
        in_bounds(w, h, start),
        in_bounds(w, h, end),
    ensures
        match astar_result(w, h, grid, start, end) {
            Some(p) => p.len() >= 1 && p[0] == end && p.last() == start,
            None => false,
        },
{
    lemma_init(w, h, grid, start, end);
    assert(w * h >= 1) by (nonlinear_arith)
        requires
            1 <= w,
            1 <= h,
    ;
    lemma_search_found(w, h, grid, start, end, init_state(w, grid, start, end), (w * h + 1) as nat);
}

/// Consecutive cells of any returned path are Moore-adjacent.
pub proof fn lemma_path_steps_adjacent(w: int, h: int, grid: Seq<int>, start: CellM, end: CellM)
    requires
        1 <= w,
        1 <= h,
        in_bounds(w, h, start),
        in_bounds(w, h, end),
    ensures
        match astar_result(w, h, grid, start, end) {
            Some(p) => forall|i: int| 1 <= i < p.len() ==> moore_adjacent(#[trigger] p[i], p[i - 1]),
            None => false,
        },
{
    lemma_init(w, h, grid, start, end);
    assert(w * h >= 1) by (nonlinear_arith)
        requires
            1 <= w,
            1 <= h,
    ;
    lemma_search_found(w, h, grid, start, end, init_state(w, grid, start, end), (w * h + 1) as nat);
}

/// Determinism: the search result is a function of the grid data alone, so
/// two runs over the same dimensions, cost table, start and goal return the
/// same path.  Each engine's `calc` ensures its result equals
/// `astar_result` of its grid data, which this lemma ties together.
pub proof fn lemma_deterministic(
    w: int,
    h: int,
    grid: Seq<int>,
    start: CellM,
    end: CellM,
    first: Option<Seq<CellM>>,
    second: Option<Seq<CellM>>,
)
    requires
        first == astar_result(w, h, grid, start, end),
        second == astar_result(w, h, grid, start, end),
    ensures
        first == second,
{
}

/// Cross-strategy equivalence: the hash-based and the index-based engine
/// ensure the same equation against `astar_result`, so over one grid, cost
/// table, start and goal they return cell-for-cell identical paths.
pub proof fn lemma_strategies_agree(
    w: int,
    h: int,
    grid: Seq<int>,
    start: CellM,
    end: CellM,
    hash_path: Option<Seq<CellM>>,
    index_path: Option<Seq<CellM>>,
)
    requires
        hash_path == astar_result(w, h, grid, start, end),
        index_path == astar_result(w, h, grid, start, end),
    ensures
        hash_path == index_path,
{
}

/// When start and goal coincide, the path is that single cell, whatever the
/// grid size or terrain.
pub proof fn lemma_single_cell_path(w: int, h: int, grid: Seq<int>, c: CellM)
    requires
        1 <= w,
        1 <= h,
        in_bounds(w, h, c),
    ensures
        astar_result(w, h, grid, c, c) == Some(seq![c]),
{
    let st = init_state(w, grid, c, c);
    assert(st.fscore =~= seq![(c, estimate(grid, w, c, c))]);
    assert(st.open_cells.contains(c));
    assert(st.open_cells != Set::<CellM>::empty());
    lemma_select_first(st.fscore, st.open_cells);
    assert(w * h >= 1) by (nonlinear_arith)
        requires
            1 <= w,
            1 <= h,
    ;
    assert(walk(st.route, c, (w * h) as nat) =~= seq![c]);
    assert(astar_result(w, h, grid, c, c) == Some(walk(st.route, c, (w * h) as nat)));
}

} // verus!
