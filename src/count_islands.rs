use vstd::prelude::*;

use crate::non_empty_rect_list_2d::lemma_flat_index_in_bounds;
use crate::reach::{
    lemma_reachable_ends, lemma_reachable_mono, lemma_reachable_restrict,
    lemma_reachable_symmetric, lemma_reachable_trans, reach_set, reachable, Cell,
};
use crate::visited_world::VisitedWorld;
use crate::world::World;

verus! {

/// `a` comes before `b` in row-major order.
pub open spec fn before(a: Cell, b: Cell) -> bool {
    a.0 < b.0 || (a.0 == b.0 && a.1 < b.1)
}

/// `q` is land, and no cell of its island comes before it in row-major order: each
/// island has exactly one such cell.
pub open spec fn is_island_root(w: World, q: Cell) -> bool {
    &&& w.is_land_at(q)
    &&& forall|p: Cell| #[trigger] w.connected(p, q) ==> !before(p, q)
}

/// Number of island roots among the first `cols` cells of row `row`.
pub open spec fn roots_in_row(w: World, row: int, cols: int) -> nat
    decreases cols,
{
    if cols <= 0 {
        0
    } else {
        roots_in_row(w, row, cols - 1) + if is_island_root(w, (row, cols - 1)) {
            1nat
        } else {
            0nat
        }
    }
}

/// Number of island roots in the first `rows` rows.
pub open spec fn roots_in_rows(w: World, rows: int) -> nat
    decreases rows,
{
    if rows <= 0 {
        0
    } else {
        roots_in_rows(w, rows - 1) + roots_in_row(w, rows - 1, w.spec_cols())
    }
}

/// Number of islands of `w`: maximal sets of land cells joined horizontally or
/// vertically, each counted once, at its first cell in row-major order.
pub open spec fn island_count(w: World) -> nat {
    roots_in_rows(w, w.spec_rows())
}

/// The land cells on an island that has a cell before `pos` in row-major order.
spec fn explored(w: World, pos: Cell) -> Set<Cell> {
    Set::new(|q: Cell| exists|p: Cell| before(p, pos) && #[trigger] w.connected(p, q))
}

/// The cell after `pos` in its row.
spec fn next_in_row(pos: Cell) -> Cell {
    (pos.0, pos.1 + 1)
}

/// Scanning an unvisited land cell: it is a root, and its island, reached through
/// unvisited land, is what the scan explores next.
proof fn lemma_scan_unvisited(w: World, vis: Set<Cell>, pos: Cell)
    requires
        vis == explored(w, pos),
        w.land().difference(vis).contains(pos),
    ensures
        is_island_root(w, pos),
        explored(w, next_in_row(pos)) == vis.union(reach_set(w.land().difference(vis), pos)),
{
    let land = w.land();
    let unv = land.difference(vis);
    let nxt = explored(w, next_in_row(pos));
    let reach = reach_set(unv, pos);
    assert forall|p: Cell| #[trigger] w.connected(p, pos) implies !before(p, pos) by {
        if before(p, pos) {
            assert(vis.contains(pos));
        }
    }
    assert forall|x: Cell| reachable(land, pos, x) implies #[trigger] unv.contains(x) by {
        lemma_reachable_ends(land, pos, x);
        if vis.contains(x) {
            let p = choose|p: Cell| before(p, pos) && #[trigger] w.connected(p, x);
            lemma_reachable_symmetric(land, pos, x);
            lemma_reachable_trans(land, p, x, pos);
            assert(w.connected(p, pos));
            assert(vis.contains(pos));
        }
    }
    assert forall|q: Cell| #[trigger] nxt.contains(q) implies vis.union(reach).contains(q) by {
        let p = choose|p: Cell| before(p, next_in_row(pos)) && #[trigger] w.connected(p, q);
        if p == pos {
            lemma_reachable_restrict(land, unv, pos, q);
        } else {
            assert(before(p, pos));
            assert(vis.contains(q));
        }
    }
    assert forall|q: Cell| #[trigger] vis.union(reach).contains(q) implies nxt.contains(q) by {
        if vis.contains(q) {
            let p = choose|p: Cell| before(p, pos) && #[trigger] w.connected(p, q);
            assert(before(p, next_in_row(pos)));
        } else {
            assert(reach.contains(q));
            lemma_reachable_mono(unv, land, pos, q);
            assert(w.connected(pos, q));
            assert(before(pos, next_in_row(pos)));
        }
    }
    assert(nxt =~= vis.union(reach));
}

/// Scanning a cell that is water or already visited: it is no root, and the scan
/// explores nothing new.
proof fn lemma_scan_other(w: World, vis: Set<Cell>, pos: Cell)
    requires
        vis == explored(w, pos),
        !w.land().difference(vis).contains(pos),
    ensures
        !is_island_root(w, pos),
        explored(w, next_in_row(pos)) == vis,
{
    let land = w.land();
    let nxt = explored(w, next_in_row(pos));
    if land.contains(pos) {
        let p = choose|p: Cell| before(p, pos) && #[trigger] w.connected(p, pos);
        assert(!is_island_root(w, pos));
        assert forall|q: Cell| #[trigger] nxt.contains(q) implies vis.contains(q) by {
            let pb = choose|pb: Cell| before(pb, next_in_row(pos)) && #[trigger] w.connected(pb, q);
            if pb == pos {
                lemma_reachable_trans(land, p, pos, q);
                assert(w.connected(p, q));
            } else {
                assert(before(pb, pos));
            }
        }
    } else {
        assert forall|q: Cell| #[trigger] nxt.contains(q) implies vis.contains(q) by {
            let pb = choose|pb: Cell| before(pb, next_in_row(pos)) && #[trigger] w.connected(pb, q);
            lemma_reachable_ends(land, pb, q);
            assert(pb != pos);
        }
    }
    assert forall|q: Cell| #[trigger] vis.contains(q) implies nxt.contains(q) by {
        let p = choose|p: Cell| before(p, pos) && #[trigger] w.connected(p, q);
        assert(before(p, next_in_row(pos)));
    }
    assert(nxt =~= vis);
}

/// The end of one row and the start of the next have explored the same cells.
proof fn lemma_row_end(w: World, row: int)
    ensures
        explored(w, (row, w.spec_cols())) == explored(w, (row + 1, 0)),
{
    let a = explored(w, (row, w.spec_cols()));
    let b = explored(w, (row + 1, 0));
    assert forall|q: Cell| #[trigger] a.contains(q) implies b.contains(q) by {
        let p = choose|p: Cell| before(p, (row, w.spec_cols())) && #[trigger] w.connected(p, q);
        assert(before(p, (row + 1, 0)));
    }
    assert forall|q: Cell| #[trigger] b.contains(q) implies a.contains(q) by {
        let p = choose|p: Cell| before(p, (row + 1, 0)) && #[trigger] w.connected(p, q);
        lemma_reachable_ends(w.land(), p, q);
        assert(before(p, (row, w.spec_cols())));
    }
    assert(a =~= b);
}

/// Before the scan starts nothing is explored.
proof fn lemma_nothing_explored(w: World)
    ensures
        explored(w, (0, 0)) == Set::<Cell>::empty(),
{
    assert forall|q: Cell| !#[trigger] explored(w, (0, 0)).contains(q) by {
        if explored(w, (0, 0)).contains(q) {
            let p = choose|p: Cell| before(p, (0, 0)) && #[trigger] w.connected(p, q);
            lemma_reachable_ends(w.land(), p, q);
        }
    }
    assert(explored(w, (0, 0)) =~= Set::<Cell>::empty());
}

/// The island that the land cell `q` lies on, as its set of cells.
pub open spec fn island_of(w: World, q: Cell) -> Set<Cell> {
    reach_set(w.land(), q)
}

/// The islands of `w`, each as its set of cells.
pub open spec fn islands(w: World) -> Set<Set<Cell>> {
    Set::new(|c: Set<Cell>| exists|q: Cell| w.is_land_at(q) && c == island_of(w, q))
}

/// The island roots that come before `pos` in row-major order.
spec fn roots_before(w: World, pos: Cell) -> Set<Cell> {
    Set::new(|p: Cell| is_island_root(w, p) && before(p, pos))
}

/// Row-major order is the order of flat indices.
proof fn lemma_before_flat(p: Cell, x: Cell, cols: int)
    requires
        0 <= p.0,
        0 <= x.0,
        0 <= p.1 < cols,
        0 <= x.1 < cols,
        before(p, x),
    ensures
        p.0 * cols + p.1 < x.0 * cols + x.1,
{
    if p.0 < x.0 {
        assert(p.0 * cols + cols <= x.0 * cols) by (nonlinear_arith)
            requires p.0 < x.0, 0 < cols;
    }
}

/// A root of the island of `q` exists at or before `x`, a cell of that island.
proof fn lemma_root_at_or_before(w: World, q: Cell, x: Cell)
    requires
        w.wf(),
        w.connected(x, q),
    ensures
        exists|p: Cell| is_island_root(w, p) && #[trigger] w.connected(p, q),
    decreases x.0 * w.spec_cols() + x.1,
{
    let land = w.land();
    lemma_reachable_ends(land, x, q);
    assert(0 <= x.0 * w.spec_cols()) by (nonlinear_arith)
        requires 0 <= x.0, 0 <= w.spec_cols();
    if !is_island_root(w, x) {
        let p = choose|p: Cell| #[trigger] w.connected(p, x) && before(p, x);
        lemma_reachable_ends(land, p, x);
        lemma_reachable_trans(land, p, x, q);
        lemma_before_flat(p, x, w.spec_cols());
        assert(0 <= p.0 * w.spec_cols()) by (nonlinear_arith)
            requires 0 <= p.0, 0 <= w.spec_cols();
        lemma_root_at_or_before(w, q, p);
    }
}

/// Each island is discovered by exactly one root: every land cell is joined to an
/// island root, and to no more than one.
pub proof fn lemma_island_has_one_root(w: World, q: Cell)
    requires
        w.wf(),
        w.is_land_at(q),
    ensures
        exists|p: Cell| is_island_root(w, p) && #[trigger] w.connected(p, q),
        forall|pa: Cell, pb: Cell|
            is_island_root(w, pa) && is_island_root(w, pb) && #[trigger] w.connected(pa, q)
                && #[trigger] w.connected(pb, q) ==> pa == pb,
{
    let land = w.land();
    crate::reach::lemma_reachable_refl(land, q);
    lemma_root_at_or_before(w, q, q);
    assert forall|pa: Cell, pb: Cell|
        is_island_root(w, pa) && is_island_root(w, pb) && #[trigger] w.connected(pa, q)
            && #[trigger] w.connected(pb, q) implies pa == pb by {
        lemma_reachable_symmetric(land, pb, q);
        lemma_reachable_trans(land, pa, q, pb);
        lemma_reachable_symmetric(land, pa, pb);
        assert(w.connected(pa, pb));
        assert(w.connected(pb, pa));
    }
}

/// Cells on one island have the same island.
proof fn lemma_same_island(w: World, p: Cell, q: Cell)
    requires
        w.connected(p, q),
    ensures
        island_of(w, p) == island_of(w, q),
{
    let land = w.land();
    lemma_reachable_symmetric(land, p, q);
    assert forall|x: Cell| #[trigger] island_of(w, p).contains(x) implies island_of(w, q).contains(x) by {
        lemma_reachable_trans(land, q, p, x);
    }
    assert forall|x: Cell| #[trigger] island_of(w, q).contains(x) implies island_of(w, p).contains(x) by {
        lemma_reachable_trans(land, p, q, x);
    }
    assert(island_of(w, p) =~= island_of(w, q));
}

/// The roots before `(row, col)` are finite, and as many as the scan has counted there.
proof fn lemma_roots_before_len(w: World, row: int, col: int)
    requires
        w.wf(),
        0 <= row,
        0 <= col <= w.spec_cols(),
    ensures
        roots_before(w, (row, col)).finite(),
        roots_before(w, (row, col)).len() == roots_in_rows(w, row) + roots_in_row(w, row, col),
    decreases row, col,
{
    let cur = roots_before(w, (row, col));
    if col > 0 {
        lemma_roots_before_len(w, row, col - 1);
        let prev = roots_before(w, (row, col - 1));
        let pos = (row, col - 1);
        if is_island_root(w, pos) {
            assert(cur =~= prev.insert(pos));
        } else {
            assert(cur =~= prev);
        }
    } else if row > 0 {
        lemma_roots_before_len(w, row - 1, w.spec_cols());
        let prev = roots_before(w, (row - 1, w.spec_cols()));
        assert(cur =~= prev);
    } else {
        assert(cur =~= Set::<Cell>::empty());
    }
}

/// The count does not depend on the order in which the cells are scanned: it is the
/// number of distinct islands.
pub proof fn lemma_count_is_number_of_islands(w: World)
    requires
        w.wf(),
    ensures
        islands(w).finite(),
        island_count(w) == islands(w).len(),
{
    let land = w.land();
    let roots = roots_before(w, (w.spec_rows(), 0));
    let f = |p: Cell| island_of(w, p);
    lemma_roots_before_len(w, w.spec_rows(), 0);
    assert forall|pa: Cell, pb: Cell|
        roots.contains(pa) && roots.contains(pb) && #[trigger] f(pa) == #[trigger] f(pb) implies pa
        == pb by {
        crate::reach::lemma_reachable_refl(land, pb);
        assert(island_of(w, pb).contains(pb));
        assert(island_of(w, pa).contains(pb));
        assert(w.connected(pa, pb));
        assert(w.connected(pb, pb));
        lemma_island_has_one_root(w, pb);
    }
    assert forall|c: Set<Cell>| #[trigger] islands(w).contains(c) implies roots.map(f).contains(c) by {
        let q = choose|q: Cell| w.is_land_at(q) && c == island_of(w, q);
        lemma_island_has_one_root(w, q);
        let p = choose|p: Cell| is_island_root(w, p) && #[trigger] w.connected(p, q);
        lemma_same_island(w, p, q);
        assert(roots.contains(p));
        assert(f(p) == c);
    }
    assert forall|c: Set<Cell>| #[trigger] roots.map(f).contains(c) implies islands(w).contains(c) by {
        let p = choose|p: Cell| roots.contains(p) && c == f(p);
        assert(w.is_land_at(p));
    }
    assert(roots.map(f) =~= islands(w));
    vstd::set_lib::lemma_map_size(roots, islands(w), f);
}

/// The visited set and the count after scanning the first `k` cells of `order` with a
/// fresh record: each cell that is still unvisited land when reached is counted, and
/// the cells that a walk over unvisited land reaches from it are marked visited, as
/// `VisitedWorld::visit_contiguous_land` does.
pub open spec fn scan_in_order(w: World, order: Seq<Cell>, k: nat) -> (Set<Cell>, nat)
    decreases k,
{
    if k == 0 || k > order.len() {
        (Set::empty(), 0)
    } else {
        let prev = scan_in_order(w, order, (k - 1) as nat);
        let q = order[k - 1];
        let unvisited = w.land().difference(prev.0);
        if unvisited.contains(q) {
            (prev.0.union(reach_set(unvisited, q)), prev.1 + 1)
        } else {
            prev
        }
    }
}

/// The land cells on an island that has a cell among the first `k` of `order`.
spec fn explored_in_order(w: World, order: Seq<Cell>, k: int) -> Set<Cell> {
    Set::new(|q: Cell| exists|j: int| 0 <= j < k && #[trigger] w.connected(order[j], q))
}

/// The `j`-th cell of `order` is land, and no earlier cell of `order` is on its island.
spec fn first_in_order(w: World, order: Seq<Cell>, j: int) -> bool {
    &&& w.is_land_at(order[j])
    &&& forall|i: int| 0 <= i < j ==> !#[trigger] w.connected(order[i], order[j])
}

/// The cells among the first `k` of `order` that are first on their island.
spec fn firsts_in_order(w: World, order: Seq<Cell>, k: int) -> Set<Cell> {
    Set::new(|p: Cell| exists|j: int| 0 <= j < k && order[j] == p && #[trigger] first_in_order(w, order, j))
}

/// Flood filling from unvisited land `q`, when the visited cells are whole islands,
/// visits exactly the island of `q` besides.
proof fn lemma_flood_adds_island(w: World, vis: Set<Cell>, q: Cell)
    requires
        vis.subset_of(w.land()),
        forall|x: Cell, y: Cell| vis.contains(x) && #[trigger] w.connected(x, y) ==> vis.contains(y),
        w.land().difference(vis).contains(q),
    ensures
        vis.union(reach_set(w.land().difference(vis), q)) == vis.union(island_of(w, q)),
{
    let land = w.land();
    let unv = land.difference(vis);
    assert forall|x: Cell| reachable(land, q, x) implies #[trigger] unv.contains(x) by {
        lemma_reachable_ends(land, q, x);
        if vis.contains(x) {
            lemma_reachable_symmetric(land, q, x);
            assert(w.connected(x, q));
        }
    }
    assert forall|x: Cell| #[trigger] reach_set(unv, q).contains(x) == island_of(w, q).contains(x) by {
        if reach_set(unv, q).contains(x) {
            lemma_reachable_mono(unv, land, q, x);
        }
        if island_of(w, q).contains(x) {
            lemma_reachable_restrict(land, unv, q, x);
        }
    }
    assert(reach_set(unv, q) =~= island_of(w, q));
}

/// The scan after `k` cells has visited the islands of those cells, and counted the
/// cells among them that are first on their island.
proof fn lemma_scan_in_order(w: World, order: Seq<Cell>, k: int)
    requires
        w.wf(),
        order.no_duplicates(),
        0 <= k <= order.len(),
    ensures
        scan_in_order(w, order, k as nat).0 == explored_in_order(w, order, k),
        firsts_in_order(w, order, k).finite(),
        scan_in_order(w, order, k as nat).1 == firsts_in_order(w, order, k).len(),
    decreases k,
{
    let land = w.land();
    if k == 0 {
        assert(explored_in_order(w, order, 0) =~= Set::<Cell>::empty());
        assert(firsts_in_order(w, order, 0) =~= Set::<Cell>::empty());
    } else {
        lemma_scan_in_order(w, order, k - 1);
        let vis = explored_in_order(w, order, k - 1);
        let cur = explored_in_order(w, order, k);
        let firsts = firsts_in_order(w, order, k - 1);
        let q = order[k - 1];
        assert forall|x: Cell| #[trigger] vis.contains(x) implies land.contains(x) by {
            let j = choose|j: int| 0 <= j < k - 1 && #[trigger] w.connected(order[j], x);
            lemma_reachable_ends(land, order[j], x);
        }
        assert forall|x: Cell, y: Cell| vis.contains(x) && #[trigger] w.connected(x, y) implies vis.contains(y) by {
            let j = choose|j: int| 0 <= j < k - 1 && #[trigger] w.connected(order[j], x);
            lemma_reachable_trans(land, order[j], x, y);
            assert(w.connected(order[j], y));
        }
        assert forall|j: int| 0 <= j < k - 1 implies order[j] != q by {
            assert(order[j] != order[k - 1]);
        }
        if land.difference(vis).contains(q) {
            lemma_flood_adds_island(w, vis, q);
            assert forall|x: Cell| #[trigger] cur.contains(x) == vis.union(island_of(w, q)).contains(x) by {
                if cur.contains(x) {
                    let j = choose|j: int| 0 <= j < k && #[trigger] w.connected(order[j], x);
                    if j < k - 1 {
                        assert(vis.contains(x));
                    }
                }
                if vis.contains(x) {
                    let j = choose|j: int| 0 <= j < k - 1 && #[trigger] w.connected(order[j], x);
                    assert(cur.contains(x));
                }
                if island_of(w, q).contains(x) {
                    assert(w.connected(order[k - 1], x));
                }
            }
            assert(cur =~= vis.union(island_of(w, q)));
            assert forall|i: int| 0 <= i < k - 1 implies !#[trigger] w.connected(order[i], order[k - 1]) by {
                if w.connected(order[i], order[k - 1]) {
                    assert(vis.contains(q));
                }
            }
            assert(first_in_order(w, order, k - 1));
            assert(!firsts.contains(q));
            assert(firsts_in_order(w, order, k) =~= firsts.insert(q));
        } else {
            assert(!first_in_order(w, order, k - 1)) by {
                if land.contains(q) {
                    let j = choose|j: int| 0 <= j < k - 1 && #[trigger] w.connected(order[j], q);
                    assert(w.connected(order[j], order[k - 1]));
                }
            }
            assert forall|x: Cell| #[trigger] cur.contains(x) implies vis.contains(x) by {
                let j = choose|j: int| 0 <= j < k && #[trigger] w.connected(order[j], x);
                if j == k - 1 {
                    lemma_reachable_ends(land, q, x);
                    let i = choose|i: int| 0 <= i < k - 1 && #[trigger] w.connected(order[i], q);
                    lemma_reachable_trans(land, order[i], q, x);
                    assert(w.connected(order[i], x));
                }
            }
            assert forall|x: Cell| #[trigger] vis.contains(x) implies cur.contains(x) by {
                let j = choose|j: int| 0 <= j < k - 1 && #[trigger] w.connected(order[j], x);
            }
            assert(cur =~= vis);
            assert(firsts_in_order(w, order, k) =~= firsts);
        }
    }
}

/// The first cell, in `order`, of the island of `q` lies at or before index `j`.
proof fn lemma_first_at_or_before(w: World, order: Seq<Cell>, q: Cell, j: int)
    requires
        0 <= j < order.len(),
        w.connected(order[j], q),
    ensures
        exists|i: int| 0 <= i < order.len() && first_in_order(w, order, i) && #[trigger] w.connected(order[i], q),
    decreases j,
{
    let land = w.land();
    lemma_reachable_ends(land, order[j], q);
    if !first_in_order(w, order, j) {
        let i = choose|i: int| 0 <= i < j && #[trigger] w.connected(order[i], order[j]);
        lemma_reachable_trans(land, order[i], order[j], q);
        lemma_first_at_or_before(w, order, q, i);
    } else {
        assert(w.connected(order[j], q));
    }
}

/// The count does not depend on the order of the scan: scanning the cells in any
/// order that lists each land cell once, with a fresh record, counts the distinct
/// islands, as `count_islands` does in row-major order.
pub proof fn lemma_scan_order_does_not_matter(w: World, order: Seq<Cell>)
    requires
        w.wf(),
        order.no_duplicates(),
        forall|q: Cell| w.is_land_at(q) ==> order.contains(q),
    ensures
        islands(w).finite(),
        scan_in_order(w, order, order.len()).1 == islands(w).len(),
{
    let land = w.land();
    let n = order.len() as int;
    lemma_scan_in_order(w, order, n);
    let firsts = firsts_in_order(w, order, n);
    let f = |p: Cell| island_of(w, p);
    assert forall|pa: Cell, pb: Cell|
        firsts.contains(pa) && firsts.contains(pb) && #[trigger] f(pa) == #[trigger] f(pb) implies pa == pb by {
        let i = choose|i: int| 0 <= i < n && order[i] == pa && #[trigger] first_in_order(w, order, i);
        let j = choose|j: int| 0 <= j < n && order[j] == pb && #[trigger] first_in_order(w, order, j);
        crate::reach::lemma_reachable_refl(land, pb);
        assert(island_of(w, pb).contains(pb));
        assert(island_of(w, pa).contains(pb));
        assert(w.connected(pa, pb));
        lemma_reachable_symmetric(land, pa, pb);
        if i < j {
            assert(w.connected(order[i], order[j]));
        } else if j < i {
            assert(w.connected(order[j], order[i]));
        }
    }
    assert forall|c: Set<Cell>| #[trigger] islands(w).contains(c) implies firsts.map(f).contains(c) by {
        let q = choose|q: Cell| w.is_land_at(q) && c == island_of(w, q);
        assert(order.contains(q));
        let k = choose|k: int| 0 <= k < n && order[k] == q;
        crate::reach::lemma_reachable_refl(land, q);
        assert(w.connected(order[k], q));
        lemma_first_at_or_before(w, order, q, k);
        let i = choose|i: int| 0 <= i < n && first_in_order(w, order, i) && #[trigger] w.connected(order[i], q);
        lemma_same_island(w, order[i], q);
        assert(firsts.contains(order[i]));
        assert(f(order[i]) == c);
    }
    assert forall|c: Set<Cell>| #[trigger] firsts.map(f).contains(c) implies islands(w).contains(c) by {
        let p = choose|p: Cell| firsts.contains(p) && c == f(p);
        let i = choose|i: int| 0 <= i < n && order[i] == p && #[trigger] first_in_order(w, order, i);
        assert(w.is_land_at(p));
    }
    assert(firsts.map(f) =~= islands(w));
    vstd::set_lib::lemma_map_size(firsts, islands(w), f);
}

/// Counts the islands of `world`: maximal sets of land cells joined horizontally or
/// vertically. Edges do not wrap.
pub fn count_islands(world: &World) -> (r: usize)
    requires
        world.wf(),
    ensures
        r == island_count(*world),
        r == islands(*world).len(),
{
    let ghost w = *world;
    let rows = world.rows();
    let cols = world.cols();
    let mut visited = VisitedWorld::new(world);
    let mut count: usize = 0;
    let mut row: usize = 0;
    proof {
        lemma_nothing_explored(w);
    }
    while row < rows
        invariant
            w.wf(),
            visited.wf(),
            visited.spec_world() == w,
            rows == w.spec_rows(),
            cols == w.spec_cols(),
            row <= rows,
            visited.visited() == explored(w, (row as int, 0)),
            count == roots_in_rows(w, row as int),
            count <= row * cols,
        decreases rows - row,
    {
        let mut col: usize = 0;
        while col < cols
            invariant
                w.wf(),
                visited.wf(),
                visited.spec_world() == w,
                rows == w.spec_rows(),
                cols == w.spec_cols(),
                row < rows,
                col <= cols,
                visited.visited() == explored(w, (row as int, col as int)),
                count == roots_in_rows(w, row as int) + roots_in_row(w, row as int, col as int),
                count <= row * cols + col,
            decreases cols - col,
        {
            let ghost pos: Cell = (row as int, col as int);
            proof {
                lemma_flat_index_in_bounds(row as int, col as int, rows as int, cols as int);
            }
            if visited.is_unvisited_land(row, col) {
                proof {
                    lemma_scan_unvisited(w, visited.visited(), pos);
                }
                count = count + 1;
                visited.visit_contiguous_land(row, col);
            } else {
                proof {
                    lemma_scan_other(w, visited.visited(), pos);
                }
            }
            col = col + 1;
        }
        proof {
            lemma_row_end(w, row as int);
            assert((row + 1) * cols == row * cols + cols) by (nonlinear_arith);
        }
        row = row + 1;
    }
    proof {
        lemma_count_is_number_of_islands(w);
    }
    count
}

} // verus!
