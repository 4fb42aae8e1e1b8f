use vstd::prelude::*;

use crate::non_empty_rect_list_2d::{
    flat_index, lemma_flat_index_in_bounds, lemma_flat_index_injective, NonEmptyRectList2D,
    MAX_ELEMENTS,
};
use crate::reach::{
    adjacent, lemma_reachable_closed, lemma_reachable_ends, lemma_reachable_step, reach_set,
    reachable, Cell,
};
use crate::world::World;

verus! {

/// Number of `false` entries in `s`.
spec fn count_false(s: Seq<bool>) -> nat
    decreases s.len(),
{
    if s.len() == 0 {
        0
    } else {
        count_false(s.drop_last()) + if s.last() {
            0nat
        } else {
            1nat
        }
    }
}

/// Marking an unvisited entry leaves one fewer unvisited.
proof fn lemma_count_false_mark(s: Seq<bool>, i: int)
    requires
        0 <= i < s.len(),
        !s[i],
    ensures
        count_false(s.update(i, true)) + 1 == count_false(s),
    decreases s.len(),
{
    let t = s.update(i, true);
    if i < s.len() - 1 {
        assert(t.drop_last() =~= s.drop_last().update(i, true));
        lemma_count_false_mark(s.drop_last(), i);
    } else {
        assert(t.drop_last() =~= s.drop_last());
    }
}

/// What a work list holds after a push.
proof fn lemma_push_contains(st: Seq<Cell>, a: Cell, y: Cell)
    ensures
        st.push(a).contains(y) == (st.contains(y) || y == a),
{
    let t = st.push(a);
    if st.contains(y) {
        let i = choose|i: int| 0 <= i < st.len() && st[i] == y;
        assert(t[i] == y);
    }
    if y == a {
        assert(t[st.len() as int] == y);
    }
    if t.contains(y) {
        let i = choose|i: int| 0 <= i < t.len() && t[i] == y;
        if i < st.len() {
            assert(st[i] == y);
        }
    }
}

/// Pushing `n`, or not, keeps what `before` held and adds nothing but `n`.
proof fn lemma_grow_contains(before: Seq<Cell>, after: Seq<Cell>, n: Cell)
    requires
        after == before || after == before.push(n),
    ensures
        forall|y: Cell| #[trigger] before.contains(y) ==> after.contains(y),
        forall|y: Cell| #[trigger] after.contains(y) ==> before.contains(y) || y == n,
        after.len() <= before.len() + 1,
{
    assert forall|y: Cell| #[trigger] before.contains(y) implies after.contains(y) by {
        lemma_push_contains(before, n, y);
    }
    assert forall|y: Cell| #[trigger] after.contains(y) implies before.contains(y) || y == n by {
        lemma_push_contains(before, n, y);
    }
}

/// `after` is `before` with `n` pushed when `unv` holds it, and `before` otherwise.
spec fn pushed_if(before: Seq<Cell>, after: Seq<Cell>, unv: Set<Cell>, n: Cell) -> bool {
    &&& unv.contains(n) ==> after == before.push(n)
    &&& !unv.contains(n) ==> after == before
}

/// After `x` is marked and its unvisited land neighbours pushed, the work list and the
/// visited set keep the flood fill's invariant.
proof fn lemma_mark_step(
    land: Set<Cell>,
    v0: Set<Cell>,
    u0: Set<Cell>,
    s: Cell,
    vis_before: Set<Cell>,
    st_before: Seq<Cell>,
    rest: Seq<Cell>,
    x: Cell,
    mid: Seq<Cell>,
    m1: Seq<Cell>,
    m2: Seq<Cell>,
    m3: Seq<Cell>,
    m4: Seq<Cell>,
)
    requires
        u0 == land.difference(v0),
        v0.subset_of(vis_before),
        land.difference(vis_before).contains(x),
        mid == rest,
        forall|y: Cell| #[trigger] st_before.contains(y) ==> rest.contains(y) || y == x,
        forall|y: Cell| #[trigger] rest.contains(y) ==> reachable(u0, s, y),
        reachable(u0, s, x),
        forall|a: Cell, y: Cell|
            vis_before.contains(a) && !v0.contains(a) && u0.contains(y) && #[trigger] adjacent(
                a,
                y,
            ) ==> vis_before.contains(y) || st_before.contains(y),
        pushed_if(mid, m1, land.difference(vis_before.insert(x)), (x.0 - 1, x.1)),
        pushed_if(m1, m2, land.difference(vis_before.insert(x)), (x.0 + 1, x.1)),
        pushed_if(m2, m3, land.difference(vis_before.insert(x)), (x.0, x.1 - 1)),
        pushed_if(m3, m4, land.difference(vis_before.insert(x)), (x.0, x.1 + 1)),
    ensures
        forall|y: Cell| #[trigger] m4.contains(y) ==> reachable(u0, s, y),
        forall|y: Cell| #[trigger] rest.contains(y) ==> m4.contains(y),
        forall|a: Cell, y: Cell|
            vis_before.insert(x).contains(a) && !v0.contains(a) && u0.contains(y)
                && #[trigger] adjacent(a, y) ==> vis_before.insert(x).contains(y) || m4.contains(
                y,
            ),
        m4.len() <= rest.len() + 4,
{
    let vis = vis_before.insert(x);
    let unv = land.difference(vis);
    lemma_grow_contains(mid, m1, (x.0 - 1, x.1));
    lemma_grow_contains(m1, m2, (x.0 + 1, x.1));
    lemma_grow_contains(m2, m3, (x.0, x.1 - 1));
    lemma_grow_contains(m3, m4, (x.0, x.1 + 1));
    assert forall|y: Cell| #[trigger] m4.contains(y) implies reachable(u0, s, y) by {
        if !mid.contains(y) {
            assert(unv.contains(y) && adjacent(x, y));
            lemma_reachable_step(u0, s, x, y);
        }
    }
    let n1 = (x.0 - 1, x.1);
    let n2 = (x.0 + 1, x.1);
    let n3 = (x.0, x.1 - 1);
    let n4 = (x.0, x.1 + 1);
    if unv.contains(n1) {
        lemma_push_contains(mid, n1, n1);
    }
    if unv.contains(n2) {
        lemma_push_contains(m1, n2, n2);
    }
    if unv.contains(n3) {
        lemma_push_contains(m2, n3, n3);
    }
    if unv.contains(n4) {
        lemma_push_contains(m3, n4, n4);
    }
    assert forall|y: Cell| adjacent(x, y) && #[trigger] unv.contains(y) implies m4.contains(y) by {
        if y == n1 {
        } else if y == n2 {
        } else if y == n3 {
        } else {
            assert(y == n4);
        }
    }
    assert forall|a: Cell, y: Cell|
        vis.contains(a) && !v0.contains(a) && u0.contains(y) && #[trigger] adjacent(
            a,
            y,
        ) implies vis.contains(y) || m4.contains(y) by {
        if a != x && !vis_before.contains(y) {
            assert(st_before.contains(y));
        } else if a == x && !vis.contains(y) {
            assert(unv.contains(y));
        }
    }
}

/// Once the work list is empty, the cells newly visited are exactly those reachable
/// from the start.
proof fn lemma_flood_done(u0: Set<Cell>, v0: Set<Cell>, s: Cell, vis: Set<Cell>, st: Seq<Cell>)
    requires
        st.len() == 0,
        v0.subset_of(vis),
        u0.disjoint(v0),
        forall|q: Cell| #[trigger] vis.contains(q) && !v0.contains(q) ==> reachable(u0, s, q),
        forall|x: Cell, y: Cell|
            vis.contains(x) && !v0.contains(x) && u0.contains(y) && #[trigger] adjacent(x, y)
                ==> vis.contains(y) || st.contains(y),
        u0.contains(s) ==> vis.contains(s) || st.contains(s),
    ensures
        vis == v0.union(reach_set(u0, s)),
{
    let t = vis.difference(v0);
    let reach = reach_set(u0, s);
    assert forall|a: Cell, y: Cell|
        t.contains(a) && u0.contains(y) && #[trigger] adjacent(a, y) implies #[trigger] t.contains(
        y,
    ) by {
        assert(!st.contains(y));
    }
    assert forall|q: Cell| reach.contains(q) implies #[trigger] t.contains(q) by {
        lemma_reachable_ends(u0, s, q);
        assert(!st.contains(s));
        lemma_reachable_closed(u0, t, s, q);
    }
    assert forall|q: Cell| #[trigger] vis.contains(q) implies v0.union(reach).contains(q) by {
        if !v0.contains(q) {
            assert(reach.contains(q));
        }
    }
    assert forall|q: Cell| #[trigger] v0.union(reach).contains(q) implies vis.contains(q) by {
        if reach.contains(q) {
            assert(t.contains(q));
        }
    }
    assert(vis =~= v0.union(reach));
}

/// Visiting the island of `s` a second time changes nothing: after one flood fill from
/// `s`, every cell that a walk over unvisited land reaches from `s` is visited.
pub proof fn lemma_visit_twice_same_as_once(land: Set<Cell>, visited: Set<Cell>, s: Cell)
    ensures
        ({
            let once = visited.union(reach_set(land.difference(visited), s));
            once.union(reach_set(land.difference(once), s)) == once
        }),
{
    let unv = land.difference(visited);
    let once = visited.union(reach_set(unv, s));
    assert forall|q: Cell| !#[trigger] reach_set(land.difference(once), s).contains(q) by {
        if reach_set(land.difference(once), s).contains(q) {
            lemma_reachable_ends(land.difference(once), s, q);
            if unv.contains(s) {
                crate::reach::lemma_reachable_refl(unv, s);
                assert(once.contains(s));
            }
        }
    }
    assert(once.union(reach_set(land.difference(once), s)) =~= once);
}

/// The coordinates held in a work list, as cells.
spec fn as_cells(st: Seq<(usize, usize)>) -> Seq<Cell> {
    st.map_values(|p: (usize, usize)| (p.0 as int, p.1 as int))
}

/// A map together with a record of which of its cells have been visited, all of them
/// unvisited at first.
pub struct VisitedWorld<'world> {
    world: &'world World,
    visited_list: NonEmptyRectList2D<bool>,
}

impl<'world> View for VisitedWorld<'world> {
    type V = Seq<bool>;

    /// The visited flags in row-major order.
    closed spec fn view(&self) -> Seq<bool> {
        self.visited_list@
    }
}

impl<'world> VisitedWorld<'world> {
    /// The map being explored.
    pub closed spec fn spec_world(&self) -> World {
        *self.world
    }

    pub closed spec fn wf(&self) -> bool {
        &&& self.world.wf()
        &&& self.visited_list.wf()
        &&& self.visited_list.spec_rows() == self.world.spec_rows()
        &&& self.visited_list.spec_cols() == self.world.spec_cols()
    }

    /// The cells marked visited.
    pub open spec fn visited(&self) -> Set<Cell> {
        Set::new(
            |q: Cell|
                self.spec_world().in_bounds(q.0, q.1) && self@[flat_index(
                    q.0,
                    q.1,
                    self.spec_world().spec_cols(),
                )],
        )
    }

    /// The land cells not yet visited.
    pub open spec fn unvisited_land(&self) -> Set<Cell> {
        self.spec_world().land().difference(self.visited())
    }

    /// A well-formed record holds one flag per cell of its map.
    pub proof fn lemma_wf(&self)
        requires
            self.wf(),
        ensures
            self.spec_world().wf(),
            self@.len() == self.spec_world().spec_rows() * self.spec_world().spec_cols(),
            self.spec_world().spec_rows() <= MAX_ELEMENTS,
            self.spec_world().spec_cols() <= MAX_ELEMENTS,
    {
        let rows = self.spec_world().spec_rows();
        let cols = self.spec_world().spec_cols();
        assert(rows <= rows * cols && cols <= rows * cols) by (nonlinear_arith)
            requires 1 <= rows, 1 <= cols;
    }

    /// Starts exploring `world`, with no cell visited.
    pub fn new(world: &'world World) -> (r: Self)
        requires
            world.wf(),
        ensures
            r.wf(),
            r.spec_world() == *world,
            r.visited() == Set::<Cell>::empty(),
            r@ == Seq::new((world.spec_rows() * world.spec_cols()) as nat, |_i: int| false),
    {
        let visited_list = NonEmptyRectList2D::filled(false, world.rows(), world.cols());
        let r = VisitedWorld { world, visited_list };
        assert forall|q: Cell| !r.visited().contains(q) by {
            if r.spec_world().in_bounds(q.0, q.1) {
                lemma_flat_index_in_bounds(q.0, q.1, world.spec_rows(), world.spec_cols());
            }
        }
        assert(r.visited() =~= Set::<Cell>::empty());
        r
    }

    /// Number of columns of the map.
    pub fn cols(&self) -> (r: usize)
        requires
            self.wf(),
        ensures
            r == self.spec_world().spec_cols(),
    {
        self.world.cols()
    }

    /// Number of rows of the map.
    pub fn rows(&self) -> (r: usize)
        requires
            self.wf(),
        ensures
            r == self.spec_world().spec_rows(),
    {
        self.world.rows()
    }

    /// Whether `(row, col)` is land that has not been visited; `false` outside the map.
    pub fn is_unvisited_land(&self, row: usize, col: usize) -> (r: bool)
        requires
            self.wf(),
        ensures
            r == self.unvisited_land().contains((row as int, col as int)),
    {
        let land = match self.world.is_land(row, col) {
            Some(b) => b,
            None => false,
        };
        land && match self.visited_list.get(row, col) {
            Some(v) => !*v,
            None => false,
        }
    }

    /// Marks `(row, col)` as visited or unvisited, as `visited` says. Outside the map
    /// nothing changes.
    pub fn set_visited(&mut self, row: usize, col: usize, visited: bool) -> (r: &mut Self)
        requires
            old(self).wf(),
        ensures
            r.wf(),
            r.spec_world() == old(self).spec_world(),
            old(self).spec_world().in_bounds(row as int, col as int) ==> r@ == old(self)@.update(
                flat_index(row as int, col as int, old(self).spec_world().spec_cols()),
                visited,
            ),
            !old(self).spec_world().in_bounds(row as int, col as int) ==> r@ == old(self)@,
            r.visited() == if !old(self).spec_world().in_bounds(row as int, col as int) {
                old(self).visited()
            } else if visited {
                old(self).visited().insert((row as int, col as int))
            } else {
                old(self).visited().remove((row as int, col as int))
            },
            *final(self) == *final(r),
    {
        let ghost before = *self;
        let _ = self.visited_list.set(row, col, visited);
        proof {
            let x: Cell = (row as int, col as int);
            let cols = self.world.spec_cols();
            let rows = self.world.spec_rows();
            let fx = flat_index(x.0, x.1, cols);
            if self.world.in_bounds(x.0, x.1) {
                lemma_flat_index_in_bounds(x.0, x.1, rows, cols);
                before.lemma_wf();
                assert(self@ == before@.update(fx, visited));
                assert forall|q: Cell| #[trigger] self.visited().contains(q) == ((
                before.visited().contains(q) && q != x) || (q == x && visited)) by {
                    if self.world.in_bounds(q.0, q.1) {
                        let fq = flat_index(q.0, q.1, cols);
                        lemma_flat_index_in_bounds(q.0, q.1, rows, cols);
                        if fq == fx {
                            lemma_flat_index_injective(q.0, q.1, x.0, x.1, cols);
                        }
                        assert(self@[fq] == if fq == fx { visited } else { before@[fq] });
                    }
                }
                if visited {
                    assert(self.visited() =~= before.visited().insert(x));
                } else {
                    assert(self.visited() =~= before.visited().remove(x));
                }
            } else {
                assert(self@ == before@);
                assert(self.visited() =~= before.visited());
            }
        }
        self
    }

    /// Visits the island that `(row, col)` lies on: marks visited every cell that a walk
    /// over unvisited land reaches from `(row, col)`, the cell itself included. Nothing
    /// changes when `(row, col)` is not unvisited land.
    pub fn visit_contiguous_land(&mut self, row: usize, col: usize) -> (r: &mut Self)
        requires
            old(self).wf(),
        ensures
            r.wf(),
            r.spec_world() == old(self).spec_world(),
            r.visited() == old(self).visited().union(
                reach_set(old(self).unvisited_land(), (row as int, col as int)),
            ),
            !old(self).unvisited_land().contains((row as int, col as int)) ==> r@ == old(self)@,
            *final(self) == *final(r),
    {
        self.flood(row, col);
        self
    }

    /// Pushes `(row, col)` onto `stack` when it is unvisited land.
    fn push_if_unvisited_land(&self, stack: &mut Vec<(usize, usize)>, row: usize, col: usize)
        requires
            self.wf(),
        ensures
            self.unvisited_land().contains((row as int, col as int)) ==> as_cells(final(stack)@)
                == as_cells(old(stack)@).push((row as int, col as int)),
            !self.unvisited_land().contains((row as int, col as int)) ==> final(stack)@ == old(
                stack,
            )@,
    {
        if self.is_unvisited_land(row, col) {
            stack.push((row, col));
            assert(as_cells(stack@) =~= as_cells(old(stack)@).push((row as int, col as int)));
        }
    }

    fn flood(&mut self, row: usize, col: usize)
        requires
            old(self).wf(),
        ensures
            final(self).wf(),
            final(self).spec_world() == old(self).spec_world(),
            final(self).visited() == old(self).visited().union(
                reach_set(old(self).unvisited_land(), (row as int, col as int)),
            ),
            !old(self).unvisited_land().contains((row as int, col as int)) ==> final(self)@ == old(
                self,
            )@,
    {
        let ghost flags0 = self@;
        let ghost v0 = self.visited();
        let ghost u0 = self.unvisited_land();
        let ghost w0 = self.spec_world();
        let ghost s: Cell = (row as int, col as int);
        let mut stack: Vec<(usize, usize)> = Vec::new();
        assert(as_cells(stack@) =~= Seq::<Cell>::empty());
        self.push_if_unvisited_land(&mut stack, row, col);
        proof {
            if u0.contains(s) {
                crate::reach::lemma_reachable_refl(u0, s);
                lemma_push_contains(Seq::<Cell>::empty(), s, s);
            }
            assert forall|y: Cell| #[trigger] as_cells(stack@).contains(y) implies reachable(
                u0,
                s,
                y,
            ) by {
                if u0.contains(s) {
                    lemma_push_contains(Seq::<Cell>::empty(), s, y);
                }
            }
        }
        while stack.len() > 0
            invariant
                self.wf(),
                self.spec_world() == w0,
                u0 == w0.land().difference(v0),
                v0.subset_of(self.visited()),
                forall|q: Cell|
                    #[trigger] self.visited().contains(q) && !v0.contains(q) ==> reachable(
                        u0,
                        s,
                        q,
                    ),
                forall|y: Cell| #[trigger] as_cells(stack@).contains(y) ==> reachable(u0, s, y),
                forall|x: Cell, y: Cell|
                    self.visited().contains(x) && !v0.contains(x) && u0.contains(y)
                        && #[trigger] adjacent(x, y) ==> self.visited().contains(y) || as_cells(
                        stack@,
                    ).contains(y),
                u0.contains(s) ==> self.visited().contains(s) || as_cells(stack@).contains(s),
                !u0.contains(s) ==> stack@.len() == 0 && self@ == flags0,
            decreases 5 * count_false(self@) + stack.len(),
        {
            let ghost vis_before = self.visited();
            let ghost st_before = as_cells(stack@);
            let ghost flags_before = self@;
            let ghost len_before = stack.len();
            let (r, c) = match stack.pop() {
                Some(p) => p,
                None => (0, 0),
            };
            let ghost x: Cell = (r as int, c as int);
            let ghost rest = as_cells(stack@);
            proof {
                assert(st_before =~= rest.push(x));
                lemma_push_contains(rest, x, x);
                lemma_reachable_ends(u0, s, x);
                assert forall|y: Cell| #[trigger] rest.contains(y) implies st_before.contains(y) by {
                    lemma_push_contains(rest, x, y);
                }
                assert forall|y: Cell| #[trigger] st_before.contains(y) implies rest.contains(y) || y == x by {
                    lemma_push_contains(rest, x, y);
                }
            }
            if self.is_unvisited_land(r, c) {
                let ghost idx = flat_index(x.0, x.1, w0.spec_cols());
                proof {
                    lemma_flat_index_in_bounds(x.0, x.1, w0.spec_rows(), w0.spec_cols());
                    self.lemma_wf();
                }
                self.set_visited(r, c, true);
                proof {
                    lemma_count_false_mark(flags_before, idx);
                }
                let ghost unv = self.unvisited_land();
                let ghost mid = as_cells(stack@);
                if r > 0 {
                    self.push_if_unvisited_land(&mut stack, r - 1, c);
                }
                let ghost m1 = as_cells(stack@);
                self.push_if_unvisited_land(&mut stack, r + 1, c);
                let ghost m2 = as_cells(stack@);
                if c > 0 {
                    self.push_if_unvisited_land(&mut stack, r, c - 1);
                }
                let ghost m3 = as_cells(stack@);
                self.push_if_unvisited_land(&mut stack, r, c + 1);
                proof {
                    assert(r == 0 ==> !unv.contains((x.0 - 1, x.1)));
                    assert(c == 0 ==> !unv.contains((x.0, x.1 - 1)));
                    lemma_mark_step(
                        w0.land(),
                        v0,
                        u0,
                        s,
                        vis_before,
                        st_before,
                        rest,
                        x,
                        mid,
                        m1,
                        m2,
                        m3,
                        as_cells(stack@),
                    );
                }
            } else {
                proof {
                    assert(vis_before.contains(x));
                    assert forall|a: Cell, y: Cell|
                        vis_before.contains(a) && !v0.contains(a) && u0.contains(y)
                            && #[trigger] adjacent(a, y) implies vis_before.contains(y)
                        || rest.contains(y) by {
                        if !vis_before.contains(y) {
                            assert(st_before.contains(y));
                        }
                    }
                }
            }
        }
        proof {
            lemma_flood_done(u0, v0, s, self.visited(), as_cells(stack@));
        }
    }

    /// The visited flags, row by row, as a slice.
    pub fn iter(&self) -> (r: &[bool])
        ensures
            r@ == self@,
    {
        self.visited_list.iter()
    }

    /// The visited flags, row by row.
    pub fn into_vec(self) -> (r: Vec<bool>)
        ensures
            r@ == self@,
    {
        self.visited_list.into_vec()
    }

    /// The visited flags, row by row, as a mutable slice. The record is well formed
    /// again once the slice is released, as a slice cannot change its length.
    pub fn iter_mut(&mut self) -> (r: &mut [bool])
        requires
            old(self).wf(),
        ensures
            r@ == old(self)@,
            final(self)@ == final(r)@,
            final(self).spec_world() == old(self).spec_world(),
            final(r)@.len() == r@.len() ==> final(self).wf(),
    {
        self.visited_list.iter_mut()
    }
}

} // verus!
