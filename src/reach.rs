use vstd::prelude::*;

verus! {

/// A cell of a grid, as `(row, col)`.
pub type Cell = (int, int);

/// `a` and `b` share a row and neighbouring columns, or a column and neighbouring rows.
pub open spec fn adjacent(a: Cell, b: Cell) -> bool {
    ||| a.0 == b.0 && (a.1 == b.1 + 1 || b.1 == a.1 + 1)
    ||| a.1 == b.1 && (a.0 == b.0 + 1 || b.0 == a.0 + 1)
}

/// `p` is a non-empty walk through `cells`, each step to an adjacent cell.
pub open spec fn is_path(cells: Set<Cell>, p: Seq<Cell>) -> bool {
    &&& p.len() >= 1
    &&& forall|i: int| 0 <= i < p.len() ==> cells.contains(#[trigger] p[i])
    &&& forall|i: int| 0 <= i < p.len() - 1 ==> adjacent(#[trigger] p[i], p[i + 1])
}

/// `b` can be reached from `a` by a walk through `cells`.
pub closed spec fn reachable(cells: Set<Cell>, a: Cell, b: Cell) -> bool {
    exists|p: Seq<Cell>| is_path(cells, p) && p[0] == a && p.last() == b
}

/// Every cell that can be reached from `a` through `cells`.
pub open spec fn reach_set(cells: Set<Cell>, a: Cell) -> Set<Cell> {
    Set::new(|b: Cell| reachable(cells, a, b))
}

pub proof fn lemma_reachable_refl(cells: Set<Cell>, a: Cell)
    requires
        cells.contains(a),
    ensures
        reachable(cells, a, a),
{
    let p = seq![a];
    assert(is_path(cells, p) && p[0] == a && p.last() == a);
}

pub proof fn lemma_reachable_ends(cells: Set<Cell>, a: Cell, b: Cell)
    requires
        reachable(cells, a, b),
    ensures
        cells.contains(a),
        cells.contains(b),
{
    let p = choose|p: Seq<Cell>| is_path(cells, p) && p[0] == a && p.last() == b;
    assert(cells.contains(p[0]));
    assert(cells.contains(p[p.len() - 1]));
}

pub proof fn lemma_reachable_step(cells: Set<Cell>, a: Cell, b: Cell, c: Cell)
    requires
        reachable(cells, a, b),
        adjacent(b, c),
        cells.contains(c),
    ensures
        reachable(cells, a, c),
{
    let p = choose|p: Seq<Cell>| is_path(cells, p) && p[0] == a && p.last() == b;
    let q = p.push(c);
    assert forall|i: int| 0 <= i < q.len() - 1 implies adjacent(#[trigger] q[i], q[i + 1]) by {
        if i < p.len() - 1 {
            assert(adjacent(p[i], p[i + 1]));
        }
    }
    assert forall|i: int| 0 <= i < q.len() implies cells.contains(#[trigger] q[i]) by {
        if i < p.len() {
            assert(cells.contains(p[i]));
        }
    }
    assert(is_path(cells, q) && q[0] == a && q.last() == c);
}

pub proof fn lemma_reachable_symmetric(cells: Set<Cell>, a: Cell, b: Cell)
    requires
        reachable(cells, a, b),
    ensures
        reachable(cells, b, a),
{
    let p = choose|p: Seq<Cell>| is_path(cells, p) && p[0] == a && p.last() == b;
    let q = p.reverse();
    assert forall|i: int| 0 <= i < q.len() - 1 implies adjacent(#[trigger] q[i], q[i + 1]) by {
        let j = p.len() - 2 - i;
        assert(adjacent(p[j], p[j + 1]));
    }
    assert forall|i: int| 0 <= i < q.len() implies cells.contains(#[trigger] q[i]) by {
        assert(cells.contains(p[p.len() - 1 - i]));
    }
    assert(is_path(cells, q) && q[0] == b && q.last() == a);
}

pub proof fn lemma_reachable_trans(cells: Set<Cell>, a: Cell, b: Cell, c: Cell)
    requires
        reachable(cells, a, b),
        reachable(cells, b, c),
    ensures
        reachable(cells, a, c),
{
    let p = choose|p: Seq<Cell>| is_path(cells, p) && p[0] == a && p.last() == b;
    let rest = choose|p: Seq<Cell>| is_path(cells, p) && p[0] == b && p.last() == c;
    let q = p + rest.drop_first();
    assert forall|i: int| 0 <= i < q.len() - 1 implies adjacent(#[trigger] q[i], q[i + 1]) by {
        if i < p.len() - 1 {
            assert(adjacent(p[i], p[i + 1]));
        } else {
            let j = i - p.len() + 1;
            assert(adjacent(rest[j], rest[j + 1]));
        }
    }
    assert forall|i: int| 0 <= i < q.len() implies cells.contains(#[trigger] q[i]) by {
        if i < p.len() {
            assert(cells.contains(p[i]));
        } else {
            assert(cells.contains(rest[i - p.len() + 1]));
        }
    }
    assert(q[0] == a);
    assert(q.last() == c) by {
        if rest.len() == 1 {
            assert(rest[0] == c);
        }
    }
    assert(is_path(cells, q) && q[0] == a && q.last() == c);
}

/// A walk through `cells` is a walk through any larger set.
pub proof fn lemma_reachable_mono(cells: Set<Cell>, more: Set<Cell>, a: Cell, b: Cell)
    requires
        reachable(cells, a, b),
        cells.subset_of(more),
    ensures
        reachable(more, a, b),
{
    let p = choose|p: Seq<Cell>| is_path(cells, p) && p[0] == a && p.last() == b;
    assert forall|i: int| 0 <= i < p.len() implies more.contains(#[trigger] p[i]) by {
        assert(cells.contains(p[i]));
    }
    assert(is_path(more, p) && p[0] == a && p.last() == b);
}

/// Every cell of a walk from `a` is reachable from `a`.
proof fn lemma_path_prefix(cells: Set<Cell>, p: Seq<Cell>, i: int)
    requires
        is_path(cells, p),
        0 <= i < p.len(),
    ensures
        reachable(cells, p[0], p[i]),
    decreases i,
{
    if i == 0 {
        assert(cells.contains(p[0]));
        lemma_reachable_refl(cells, p[0]);
    } else {
        lemma_path_prefix(cells, p, i - 1);
        assert(adjacent(p[i - 1], p[i]));
        assert(cells.contains(p[i]));
        lemma_reachable_step(cells, p[0], p[i - 1], p[i]);
    }
}

/// When everything reachable from `a` through `cells` lies in `fewer`, so do the walks.
pub proof fn lemma_reachable_restrict(cells: Set<Cell>, fewer: Set<Cell>, a: Cell, b: Cell)
    requires
        reachable(cells, a, b),
        forall|x: Cell| reachable(cells, a, x) ==> fewer.contains(x),
    ensures
        reachable(fewer, a, b),
{
    let p = choose|p: Seq<Cell>| is_path(cells, p) && p[0] == a && p.last() == b;
    assert forall|i: int| 0 <= i < p.len() implies fewer.contains(#[trigger] p[i]) by {
        lemma_path_prefix(cells, p, i);
    }
    assert(is_path(fewer, p) && p[0] == a && p.last() == b);
}

/// A set that holds `a` and is closed under steps through `cells` holds all that
/// is reachable from `a`.
pub proof fn lemma_reachable_closed(cells: Set<Cell>, closed: Set<Cell>, a: Cell, b: Cell)
    requires
        reachable(cells, a, b),
        closed.contains(a),
        forall|x: Cell, y: Cell|
            closed.contains(x) && cells.contains(y) && #[trigger] adjacent(x, y)
                ==> #[trigger] closed.contains(y),
    ensures
        closed.contains(b),
{
    let p = choose|p: Seq<Cell>| is_path(cells, p) && p[0] == a && p.last() == b;
    assert forall|i: int| 0 <= i < p.len() implies closed.contains(#[trigger] p[i]) by {
        lemma_path_closed(cells, closed, p, i);
    }
    assert(closed.contains(p[p.len() - 1]));
}

proof fn lemma_path_closed(cells: Set<Cell>, closed: Set<Cell>, p: Seq<Cell>, i: int)
    requires
        is_path(cells, p),
        closed.contains(p[0]),
        forall|x: Cell, y: Cell|
            closed.contains(x) && cells.contains(y) && #[trigger] adjacent(x, y)
                ==> #[trigger] closed.contains(y),
        0 <= i < p.len(),
    ensures
        closed.contains(p[i]),
    decreases i,
{
    if i > 0 {
        lemma_path_closed(cells, closed, p, i - 1);
        assert(adjacent(p[i - 1], p[i]));
        assert(cells.contains(p[i]));
    }
}

} // verus!
