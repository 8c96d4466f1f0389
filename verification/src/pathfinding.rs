use vstd::prelude::*;
use vstd::set_lib::lemma_len_subset;
use vstd::set_lib::set_int_range;
use vstd::set_lib::lemma_int_range;
use crate::map::Grid;
use crate::map::lemma_index_in_range;
use crate::map::lemma_index_injective;
use crate::map::filled;
use crate::coords::Coordinates;

verus! {

/// A navigation request: the grid cell an entity wants to reach.
#[derive(Clone, Copy, Debug, PartialEq, Eq)]
pub struct Destination(pub (i32, i32));

/// An ordered sequence of grid cells from a start cell to a goal cell.
#[derive(Clone, Debug)]
pub struct Path(pub Vec<(i32, i32)>);

/// The mathematical view of a cell list.
pub open spec fn cells_view(p: Seq<(i32, i32)>) -> Seq<(int, int)> {
    p.map_values(|c: (i32, i32)| (c.0 as int, c.1 as int))
}

/// The step at position `k` of a route is legal.
pub open spec fn route_step(g: Grid, s: Seq<(int, int)>, k: int) -> bool {
    g.step_ok(s[k].0, s[k].1, s[k + 1].0, s[k + 1].1)
}

/// Every consecutive pair of cells is a legal step.
pub open spec fn route_ok(g: Grid, s: Seq<(int, int)>) -> bool {
    forall |k: int| 0 <= k < s.len() - 1 ==> #[trigger] route_step(g, s, k)
}

/// The step at position `k` of a reversed cell list is legal: the list
/// is walked from its end toward its front.
pub open spec fn rev_step(g: Grid, s: Seq<(i32, i32)>, k: int) -> bool {
    g.step_ok(s[k + 1].0 as int, s[k + 1].1 as int, s[k].0 as int, s[k].1 as int)
}

/// `s` is a legal route that starts at `a` and ends at `b`.
pub open spec fn connects(g: Grid, s: Seq<(int, int)>, a: (int, int), b: (int, int)) -> bool {
    &&& s.len() >= 1
    &&& s[0] == a
    &&& s[s.len() - 1] == b
    &&& route_ok(g, s)
}

/// Some legal route leads from `a` to `b`.
pub open spec fn reachable(g: Grid, a: (int, int), b: (int, int)) -> bool {
    exists |s: Seq<(int, int)>| connects(g, s, a, b)
}

/// Reading a packed boolean array at a cell.
pub open spec fn bit_at(s: Seq<bool>, w: int, x: int, y: int) -> bool {
    s[y * w + x]
}

/// The working state of the route search. `disc` marks discovered
/// cells, `cl` and `closed` mark expanded cells, `gs` holds the cost
/// along the recorded parent chain, `par` the parent cell, and `open`
/// the frontier entries. `pend` names the one cell that has been
/// expanded but whose successors are not all discovered yet; a cell
/// outside the grid means there is none.
pub open spec fn search_inv(
    g: Grid,
    sc: (int, int),
    disc: Seq<bool>,
    cl: Seq<bool>,
    gs: Seq<u64>,
    par: Seq<(usize, usize)>,
    open: Seq<(u64, usize, usize)>,
    closed: Set<int>,
    pend: (int, int),
) -> bool {
    let wi = g.width as int;
    &&& disc.len() == g.count_spec()
    &&& cl.len() == g.count_spec()
    &&& gs.len() == g.count_spec()
    &&& par.len() == g.count_spec()
    &&& closed.finite()
    &&& closed.subset_of(set_int_range(0, g.count_spec()))
    &&& g.in_bounds(sc.0, sc.1)
    &&& bit_at(disc, wi, sc.0, sc.1)
    &&& gs[sc.1 * wi + sc.0] == 0
    &&& forall |x: int, y: int| g.in_bounds(x, y)
        ==> (#[trigger] bit_at(cl, wi, x, y) <==> closed.contains(y * wi + x))
    &&& forall |x: int, y: int| g.in_bounds(x, y) && #[trigger] bit_at(cl, wi, x, y)
        ==> bit_at(disc, wi, x, y)
    &&& forall |x: int, y: int| g.in_bounds(x, y) && #[trigger] bit_at(disc, wi, x, y)
        ==> reachable(g, sc, (x, y))
    &&& forall |x: int, y: int, x2: int, y2: int|
        g.in_bounds(x, y) && #[trigger] bit_at(cl, wi, x, y)
            && #[trigger] g.step_ok(x, y, x2, y2) && (x, y) != pend
        ==> bit_at(disc, wi, x2, y2)
    &&& forall |k: int| 0 <= k < open.len()
        ==> (#[trigger] open[k]).1 < g.width && open[k].2 < g.height
            && bit_at(disc, wi, open[k].1 as int, open[k].2 as int)
    &&& forall |x: int, y: int| g.in_bounds(x, y) && #[trigger] bit_at(disc, wi, x, y)
            && !bit_at(cl, wi, x, y)
        ==> exists |k: int| 0 <= k < open.len()
            && (#[trigger] open[k]).1 == x && open[k].2 == y
    &&& forall |x: int, y: int| g.in_bounds(x, y) && #[trigger] bit_at(disc, wi, x, y)
        ==> gs[y * wi + x] <= 145 * (closed.len() + 1)
    &&& forall |x: int, y: int| g.in_bounds(x, y) && #[trigger] bit_at(cl, wi, x, y)
        ==> gs[y * wi + x] <= 145 * closed.len()
    &&& forall |x: int, y: int| g.in_bounds(x, y) && #[trigger] bit_at(disc, wi, x, y)
            && (x, y) != sc
        ==> {
            let p = par[y * wi + x];
            &&& p.0 < g.width
            &&& p.1 < g.height
            &&& bit_at(cl, wi, p.0 as int, p.1 as int)
            &&& g.step_ok(p.0 as int, p.1 as int, x, y)
            &&& gs[p.1 as int * wi + p.0 as int] < gs[y * wi + x]
        }
}

/// A cell that stands for "no pending expansion".
pub open spec fn no_pending() -> (int, int) {
    (-1, -1)
}

/// Extending a route by one legal step keeps the target reachable.
proof fn lemma_reachable_step(g: Grid, a: (int, int), b: (int, int), c: (int, int))
    requires
        reachable(g, a, b),
        g.step_ok(b.0, b.1, c.0, c.1),
    ensures
        reachable(g, a, c),
{
    let s = choose |s: Seq<(int, int)>| connects(g, s, a, b);
    let s2 = s.push(c);
    assert(s2[s2.len() - 1] == c);
    assert forall |k: int| 0 <= k < s2.len() - 1
        implies #[trigger] route_step(g, s2, k) by {
        if k < s.len() - 1 {
            assert(route_step(g, s, k));
            assert(s2[k] == s[k] && s2[k + 1] == s[k + 1]);
        } else {
            assert(s2[k] == b && s2[k + 1] == c);
        }
    }
    assert(connects(g, s2, a, c));
}

/// If every closed cell has all its step successors discovered, every
/// discovered cell is closed, and a route's first cell is discovered,
/// then the route's last cell is discovered as well.
proof fn lemma_route_stays_discovered(
    g: Grid,
    disc: Seq<bool>,
    cl: Seq<bool>,
    s: Seq<(int, int)>,
)
    requires
        g.wf(),
        s.len() >= 1,
        route_ok(g, s),
        g.in_bounds(s[0].0, s[0].1),
        bit_at(disc, g.width as int, s[0].0, s[0].1),
        forall |x: int, y: int| g.in_bounds(x, y) && #[trigger] bit_at(disc, g.width as int, x, y)
            ==> bit_at(cl, g.width as int, x, y),
        forall |x: int, y: int, x2: int, y2: int|
            g.in_bounds(x, y) && #[trigger] bit_at(cl, g.width as int, x, y)
                && #[trigger] g.step_ok(x, y, x2, y2)
            ==> bit_at(disc, g.width as int, x2, y2),
    ensures
        g.in_bounds(s[s.len() - 1].0, s[s.len() - 1].1),
        bit_at(disc, g.width as int, s[s.len() - 1].0, s[s.len() - 1].1),
    decreases s.len(),
{
    if s.len() > 1 {
        let a = s[0];
        let b = s[1];
        assert(route_step(g, s, 0));
        assert(g.step_ok(a.0, a.1, b.0, b.1));
        assert(bit_at(cl, g.width as int, a.0, a.1));
        assert(bit_at(disc, g.width as int, b.0, b.1));
        let s2 = s.drop_first();
        assert(s2[0] == b);
        assert forall |k: int| 0 <= k < s2.len() - 1
            implies #[trigger] route_step(g, s2, k) by {
            assert(route_step(g, s, k + 1));
            assert(s2[k] == s[k + 1] && s2[k + 1] == s[k + 2]);
        }
        lemma_route_stays_discovered(g, disc, cl, s2);
        assert(s2[s2.len() - 1] == s[s.len() - 1]);
    }
}

/// A route to a cell that is not walkable can only be the trivial route,
/// so a distinct unwalkable cell is unreachable.
proof fn lemma_unwalkable_unreachable(g: Grid, a: (int, int), b: (int, int))
    requires
        g.wf(),
        !g.walkable(b.0, b.1),
        a != b,
    ensures
        !reachable(g, a, b),
{
    if reachable(g, a, b) {
        let s = choose |s: Seq<(int, int)>| connects(g, s, a, b);
        if s.len() >= 2 {
            let k = s.len() - 2;
            assert(route_step(g, s, k));
        }
    }
}

/// The invariant holds for the initial search state: only the start is
/// discovered, at cost zero, with one frontier entry for it.
proof fn lemma_search_init(g: Grid, sxu: usize, syu: usize, base: Seq<bool>, clz: Seq<bool>,
    zeros: Seq<u64>, pars: Seq<(usize, usize)>)
    requires
        g.wf(),
        g.in_bounds(sxu as int, syu as int),
        base.len() == g.count_spec(),
        clz.len() == g.count_spec(),
        zeros.len() == g.count_spec(),
        pars.len() == g.count_spec(),
        forall |i: int| 0 <= i < base.len() ==> !(#[trigger] base[i]),
        forall |i: int| 0 <= i < clz.len() ==> !(#[trigger] clz[i]),
        forall |i: int| 0 <= i < zeros.len() ==> (#[trigger] zeros[i]) == 0,
    ensures
        search_inv(g, (sxu as int, syu as int),
            base.update(syu as int * g.width as int + sxu as int, true),
            clz, zeros, pars,
            seq![(0u64, sxu, syu)], Set::empty(), no_pending()),
{
    let wi = g.width as int;
    let hi = g.height as int;
    let sc = (sxu as int, syu as int);
    let sidx = syu as int * wi + sxu as int;
    let disc = base.update(sidx, true);
    let open = seq![(0u64, sxu, syu)];
    let closed = Set::<int>::empty();
    lemma_index_in_range(wi, hi, sxu as int, syu as int);
    lemma_int_range(0, g.count_spec());
    assert(connects(g, seq![sc], sc, sc));
    assert forall |x: int, y: int| g.in_bounds(x, y)
        implies !bit_at(base, wi, x, y) && !bit_at(clz, wi, x, y) && zeros[y * wi + x] == 0
            && (bit_at(disc, wi, x, y) ==> (x, y) == sc) by {
        lemma_index_in_range(wi, hi, x, y);
        if y * wi + x == sidx {
            lemma_index_injective(wi, hi, x, y, sxu as int, syu as int);
        }
    }
    assert forall |x: int, y: int| g.in_bounds(x, y) && #[trigger] bit_at(disc, wi, x, y)
        implies reachable(g, sc, (x, y)) by {
        assert((x, y) == sc);
    }
    assert forall |x: int, y: int| g.in_bounds(x, y) && #[trigger] bit_at(disc, wi, x, y)
            && !bit_at(clz, wi, x, y)
        implies exists |k: int| 0 <= k < open.len()
            && (#[trigger] open[k]).1 == x && open[k].2 == y by {
        assert((x, y) == sc);
        assert(open[0].1 == x && open[0].2 == y);
    }
}

/// Removing a frontier entry that names an already closed cell keeps
/// the invariant: no open cell loses its only witness.
proof fn lemma_pop_closed(
    g: Grid,
    sc: (int, int),
    disc: Seq<bool>,
    cl: Seq<bool>,
    gs: Seq<u64>,
    par: Seq<(usize, usize)>,
    open: Seq<(u64, usize, usize)>,
    closed: Set<int>,
    pend: (int, int),
    m: int,
)
    requires
        g.wf(),
        search_inv(g, sc, disc, cl, gs, par, open, closed, pend),
        0 <= m < open.len(),
        bit_at(cl, g.width as int, open[m].1 as int, open[m].2 as int),
    ensures
        search_inv(g, sc, disc, cl, gs, par, open.remove(m), closed, pend),
{
    let wi = g.width as int;
    let hi = g.height as int;
    let open2 = open.remove(m);
    assert forall |k: int| 0 <= k < open2.len()
        implies (#[trigger] open2[k]).1 < g.width && open2[k].2 < g.height
            && bit_at(disc, wi, open2[k].1 as int, open2[k].2 as int) by {
        if k < m {
            assert(open2[k] == open[k]);
        } else {
            assert(open2[k] == open[k + 1]);
        }
    }
    assert forall |x: int, y: int| g.in_bounds(x, y) && #[trigger] bit_at(disc, wi, x, y)
            && !bit_at(cl, wi, x, y)
        implies exists |k: int| 0 <= k < open2.len()
            && (#[trigger] open2[k]).1 == x && open2[k].2 == y by {
        lemma_index_in_range(wi, hi, x, y);
        let k0 = choose |k0: int| 0 <= k0 < open.len()
            && (#[trigger] open[k0]).1 == x && open[k0].2 == y;
        assert(k0 != m) by {
            if k0 == m {
                lemma_index_injective(wi, hi, x, y, open[m].1 as int, open[m].2 as int);
            }
        }
        if k0 < m {
            assert(open2[k0] == open[k0]);
        } else {
            assert(open2[k0 - 1] == open[k0]);
        }
    }
}

/// Closing a popped frontier cell that was not yet closed keeps the
/// invariant, with the closed cell pending expansion.
proof fn lemma_close(
    g: Grid,
    sc: (int, int),
    disc: Seq<bool>,
    cl: Seq<bool>,
    gs: Seq<u64>,
    par: Seq<(usize, usize)>,
    open: Seq<(u64, usize, usize)>,
    closed: Set<int>,
    m: int,
)
    requires
        g.wf(),
        search_inv(g, sc, disc, cl, gs, par, open, closed, no_pending()),
        0 <= m < open.len(),
        !bit_at(cl, g.width as int, open[m].1 as int, open[m].2 as int),
    ensures
        ({
            let cxi = open[m].1 as int;
            let cyi = open[m].2 as int;
            let cidx = cyi * g.width as int + cxi;
            &&& !closed.contains(cidx)
            &&& closed.insert(cidx).len() == closed.len() + 1
            &&& gs[cidx] <= 145 * closed.insert(cidx).len()
            &&& search_inv(g, sc, disc, cl.update(cidx, true), gs, par,
                open.remove(m), closed.insert(cidx), (cxi, cyi))
        }),
{
    let wi = g.width as int;
    let hi = g.height as int;
    let cxi = open[m].1 as int;
    let cyi = open[m].2 as int;
    let cidx = cyi * wi + cxi;
    let cl2 = cl.update(cidx, true);
    let closed2 = closed.insert(cidx);
    let open2 = open.remove(m);
    lemma_index_in_range(wi, hi, cxi, cyi);
    assert(!closed.contains(cidx));
    assert(closed2.len() == closed.len() + 1);
    assert(bit_at(disc, wi, cxi, cyi));
    assert(gs[cidx] <= 145 * (closed.len() + 1));
    assert forall |x: int, y: int| g.in_bounds(x, y)
        implies (#[trigger] bit_at(cl2, wi, x, y) <==> closed2.contains(y * wi + x)) by {
        lemma_index_in_range(wi, hi, x, y);
        if y * wi + x == cidx {
        } else {
            assert(bit_at(cl2, wi, x, y) == bit_at(cl, wi, x, y));
        }
    }
    assert forall |x: int, y: int| g.in_bounds(x, y) && #[trigger] bit_at(cl2, wi, x, y)
        implies bit_at(disc, wi, x, y) by {
        lemma_index_in_range(wi, hi, x, y);
        if y * wi + x == cidx {
            lemma_index_injective(wi, hi, x, y, cxi, cyi);
        } else {
            assert(bit_at(cl, wi, x, y));
        }
    }
    assert forall |x: int, y: int, x2: int, y2: int|
            g.in_bounds(x, y) && #[trigger] bit_at(cl2, wi, x, y)
                && #[trigger] g.step_ok(x, y, x2, y2) && (x, y) != (cxi, cyi)
        implies bit_at(disc, wi, x2, y2) by {
        lemma_index_in_range(wi, hi, x, y);
        assert(y * wi + x != cidx) by {
            if y * wi + x == cidx {
                lemma_index_injective(wi, hi, x, y, cxi, cyi);
            }
        }
        assert(bit_at(cl, wi, x, y));
    }
    assert forall |k: int| 0 <= k < open2.len()
        implies (#[trigger] open2[k]).1 < g.width && open2[k].2 < g.height
            && bit_at(disc, wi, open2[k].1 as int, open2[k].2 as int) by {
        if k < m {
            assert(open2[k] == open[k]);
        } else {
            assert(open2[k] == open[k + 1]);
        }
    }
    assert forall |x: int, y: int| g.in_bounds(x, y) && #[trigger] bit_at(disc, wi, x, y)
            && !bit_at(cl2, wi, x, y)
        implies exists |k: int| 0 <= k < open2.len()
            && (#[trigger] open2[k]).1 == x && open2[k].2 == y by {
        lemma_index_in_range(wi, hi, x, y);
        assert(y * wi + x != cidx);
        assert(!bit_at(cl, wi, x, y));
        let k0 = choose |k0: int| 0 <= k0 < open.len()
            && (#[trigger] open[k0]).1 == x && open[k0].2 == y;
        assert(k0 != m) by {
            if k0 == m {
                lemma_index_injective(wi, hi, x, y, cxi, cyi);
            }
        }
        if k0 < m {
            assert(open2[k0] == open[k0]);
        } else {
            assert(open2[k0 - 1] == open[k0]);
        }
    }
    assert forall |x: int, y: int| g.in_bounds(x, y) && #[trigger] bit_at(disc, wi, x, y)
        implies gs[y * wi + x] <= 145 * (closed2.len() + 1) by {
        assert(gs[y * wi + x] <= 145 * (closed.len() + 1));
    }
    assert forall |x: int, y: int| g.in_bounds(x, y) && #[trigger] bit_at(cl2, wi, x, y)
        implies gs[y * wi + x] <= 145 * closed2.len() by {
        lemma_index_in_range(wi, hi, x, y);
        if y * wi + x == cidx {
            assert(gs[cidx] <= 145 * (closed.len() + 1));
        } else {
            assert(bit_at(cl, wi, x, y));
        }
    }
    assert forall |x: int, y: int| g.in_bounds(x, y) && #[trigger] bit_at(disc, wi, x, y)
            && (x, y) != sc
        implies {
            let p = par[y * wi + x];
            &&& p.0 < g.width
            &&& p.1 < g.height
            &&& bit_at(cl2, wi, p.0 as int, p.1 as int)
            &&& g.step_ok(p.0 as int, p.1 as int, x, y)
            &&& gs[p.1 as int * wi + p.0 as int] < gs[y * wi + x]
        } by {
        let p = par[y * wi + x];
        lemma_index_in_range(wi, hi, p.0 as int, p.1 as int);
        assert(bit_at(cl, wi, p.0 as int, p.1 as int));
        if p.1 as int * wi + p.0 as int == cidx {
            assert(bit_at(cl2, wi, p.0 as int, p.1 as int));
        }
    }
}

/// Relaxing a legal step out of the pending closed cell keeps the
/// invariant: the target is discovered at the parent's cost plus the
/// step cost, with a fresh frontier entry.
proof fn lemma_relax(
    g: Grid,
    sc: (int, int),
    disc: Seq<bool>,
    cl: Seq<bool>,
    gs: Seq<u64>,
    par: Seq<(usize, usize)>,
    open: Seq<(u64, usize, usize)>,
    closed: Set<int>,
    cxu: usize,
    cyu: usize,
    nxu: usize,
    nyu: usize,
    ng: u64,
    f: u64,
)
    requires
        g.wf(),
        search_inv(g, sc, disc, cl, gs, par, open, closed, (cxu as int, cyu as int)),
        g.in_bounds(cxu as int, cyu as int),
        bit_at(cl, g.width as int, cxu as int, cyu as int),
        g.step_ok(cxu as int, cyu as int, nxu as int, nyu as int),
        ng == gs[cyu as int * g.width as int + cxu as int]
            + Grid::step_cost(cxu as int, cyu as int, nxu as int, nyu as int),
        !bit_at(disc, g.width as int, nxu as int, nyu as int)
            || (!bit_at(cl, g.width as int, nxu as int, nyu as int)
                && ng < gs[nyu as int * g.width as int + nxu as int]),
    ensures
        ({
            let nidx = nyu as int * g.width as int + nxu as int;
            search_inv(g, sc, disc.update(nidx, true), cl, gs.update(nidx, ng),
                par.update(nidx, (cxu, cyu)), open.push((f, nxu, nyu)), closed,
                (cxu as int, cyu as int))
        }),
{
    let wi = g.width as int;
    let hi = g.height as int;
    let cxi = cxu as int;
    let cyi = cyu as int;
    let nxi = nxu as int;
    let nyi = nyu as int;
    let cidx = cyi * wi + cxi;
    let nidx = nyi * wi + nxi;
    let disc2 = disc.update(nidx, true);
    let gs2 = gs.update(nidx, ng);
    let par2 = par.update(nidx, (cxu, cyu));
    let open2 = open.push((f, nxu, nyu));
    lemma_index_in_range(wi, hi, cxi, cyi);
    lemma_index_in_range(wi, hi, nxi, nyi);
    // The relaxed cell is distinct from the closed parent and from the
    // start: the start costs zero and each step at least a hundred.
    assert(cidx != nidx) by {
        if cidx == nidx {
            lemma_index_injective(wi, hi, cxi, cyi, nxi, nyi);
            assert(bit_at(cl, wi, nxi, nyi));
            assert(bit_at(disc, wi, nxi, nyi));
        }
    }
    assert(!bit_at(cl, wi, nxi, nyi)) by {
        if bit_at(cl, wi, nxi, nyi) {
            assert(bit_at(disc, wi, nxi, nyi));
        }
    }
    assert((nxi, nyi) != sc) by {
        if (nxi, nyi) == sc {
            assert(bit_at(disc, wi, nxi, nyi));
            assert(gs[nidx] == 0);
        }
    }
    assert(gs[cidx] <= 145 * closed.len());
    assert(bit_at(disc2, wi, sc.0, sc.1)) by {
        lemma_index_in_range(wi, hi, sc.0, sc.1);
        if sc.1 * wi + sc.0 == nidx {
            lemma_index_injective(wi, hi, sc.0, sc.1, nxi, nyi);
        }
    }
    assert(gs2[sc.1 * wi + sc.0] == 0) by {
        lemma_index_in_range(wi, hi, sc.0, sc.1);
        if sc.1 * wi + sc.0 == nidx {
            lemma_index_injective(wi, hi, sc.0, sc.1, nxi, nyi);
        }
    }
    assert forall |x: int, y: int| g.in_bounds(x, y) && #[trigger] bit_at(cl, wi, x, y)
        implies bit_at(disc2, wi, x, y) by {
        lemma_index_in_range(wi, hi, x, y);
        if y * wi + x != nidx {
            assert(bit_at(disc, wi, x, y));
        }
    }
    assert(reachable(g, sc, (cxi, cyi)));
    lemma_reachable_step(g, sc, (cxi, cyi), (nxi, nyi));
    assert forall |x: int, y: int| g.in_bounds(x, y) && #[trigger] bit_at(disc2, wi, x, y)
        implies reachable(g, sc, (x, y)) by {
        lemma_index_in_range(wi, hi, x, y);
        if y * wi + x == nidx {
            lemma_index_injective(wi, hi, x, y, nxi, nyi);
        } else {
            assert(bit_at(disc, wi, x, y));
        }
    }
    assert forall |x: int, y: int, x2: int, y2: int|
            g.in_bounds(x, y) && #[trigger] bit_at(cl, wi, x, y)
                && #[trigger] g.step_ok(x, y, x2, y2) && (x, y) != (cxi, cyi)
        implies bit_at(disc2, wi, x2, y2) by {
        lemma_index_in_range(wi, hi, x2, y2);
        if y2 * wi + x2 != nidx {
            assert(bit_at(disc, wi, x2, y2));
        }
    }
    assert forall |k: int| 0 <= k < open2.len()
        implies (#[trigger] open2[k]).1 < g.width && open2[k].2 < g.height
            && bit_at(disc2, wi, open2[k].1 as int, open2[k].2 as int) by {
        if k < open.len() {
            assert(open2[k] == open[k]);
            lemma_index_in_range(wi, hi, open[k].1 as int, open[k].2 as int);
            if open[k].2 as int * wi + open[k].1 as int != nidx {
                assert(bit_at(disc, wi, open[k].1 as int, open[k].2 as int));
            }
        } else {
            assert(open2[k] == (f, nxu, nyu));
        }
    }
    assert forall |x: int, y: int| g.in_bounds(x, y) && #[trigger] bit_at(disc2, wi, x, y)
            && !bit_at(cl, wi, x, y)
        implies exists |k: int| 0 <= k < open2.len()
            && (#[trigger] open2[k]).1 == x && open2[k].2 == y by {
        lemma_index_in_range(wi, hi, x, y);
        if y * wi + x == nidx {
            lemma_index_injective(wi, hi, x, y, nxi, nyi);
            assert(open2[open2.len() - 1].1 == x && open2[open2.len() - 1].2 == y);
        } else {
            assert(bit_at(disc, wi, x, y));
            let k0 = choose |k0: int| 0 <= k0 < open.len()
                && (#[trigger] open[k0]).1 == x && open[k0].2 == y;
            assert(open2[k0] == open[k0]);
        }
    }
    assert forall |x: int, y: int| g.in_bounds(x, y) && #[trigger] bit_at(disc2, wi, x, y)
        implies gs2[y * wi + x] <= 145 * (closed.len() + 1) by {
        lemma_index_in_range(wi, hi, x, y);
        if y * wi + x == nidx {
        } else {
            assert(bit_at(disc, wi, x, y));
            assert(gs2[y * wi + x] == gs[y * wi + x]);
        }
    }
    assert forall |x: int, y: int| g.in_bounds(x, y) && #[trigger] bit_at(cl, wi, x, y)
        implies gs2[y * wi + x] <= 145 * closed.len() by {
        lemma_index_in_range(wi, hi, x, y);
        assert(y * wi + x != nidx) by {
            if y * wi + x == nidx {
                lemma_index_injective(wi, hi, x, y, nxi, nyi);
            }
        }
        assert(gs2[y * wi + x] == gs[y * wi + x]);
    }
    assert forall |x: int, y: int| g.in_bounds(x, y) && #[trigger] bit_at(disc2, wi, x, y)
            && (x, y) != sc
        implies {
            let p = par2[y * wi + x];
            &&& p.0 < g.width
            &&& p.1 < g.height
            &&& bit_at(cl, wi, p.0 as int, p.1 as int)
            &&& g.step_ok(p.0 as int, p.1 as int, x, y)
            &&& gs2[p.1 as int * wi + p.0 as int] < gs2[y * wi + x]
        } by {
        lemma_index_in_range(wi, hi, x, y);
        if y * wi + x == nidx {
            lemma_index_injective(wi, hi, x, y, nxi, nyi);
            let p = par2[y * wi + x];
            assert(p == (cxu, cyu));
            assert(gs2[cidx] == gs[cidx]);
            assert(gs2[nidx] == ng);
        } else {
            assert(bit_at(disc, wi, x, y));
            let p = par[y * wi + x];
            assert(p == par2[y * wi + x]);
            lemma_index_in_range(wi, hi, p.0 as int, p.1 as int);
            assert(p.1 as int * wi + p.0 as int != nidx) by {
                if p.1 as int * wi + p.0 as int == nidx {
                    lemma_index_injective(wi, hi, p.0 as int, p.1 as int, nxi, nyi);
                    assert(bit_at(cl, wi, nxi, nyi));
                }
            }
            assert(gs2[p.1 as int * wi + p.0 as int] == gs[p.1 as int * wi + p.0 as int]);
            assert(gs2[y * wi + x] == gs[y * wi + x]);
        }
    }
}

/// Once every legal step out of the pending cell is discovered, the
/// invariant holds with no pending cell.
proof fn lemma_finish_expand(
    g: Grid,
    sc: (int, int),
    disc: Seq<bool>,
    cl: Seq<bool>,
    gs: Seq<u64>,
    par: Seq<(usize, usize)>,
    open: Seq<(u64, usize, usize)>,
    closed: Set<int>,
    cxu: usize,
    cyu: usize,
)
    requires
        g.wf(),
        search_inv(g, sc, disc, cl, gs, par, open, closed, (cxu as int, cyu as int)),
        forall |x2: int, y2: int| #[trigger] g.step_ok(cxu as int, cyu as int, x2, y2)
            ==> bit_at(disc, g.width as int, x2, y2),
    ensures
        search_inv(g, sc, disc, cl, gs, par, open, closed, no_pending()),
{
    let wi = g.width as int;
    assert forall |x: int, y: int, x2: int, y2: int|
            g.in_bounds(x, y) && #[trigger] bit_at(cl, wi, x, y)
                && #[trigger] g.step_ok(x, y, x2, y2) && (x, y) != no_pending()
        implies bit_at(disc, wi, x2, y2) by {
        if (x, y) != (cxu as int, cyu as int) {
        }
    }
}

/// The search priority of a cell: exactly its squared euclidean
/// distance to the goal, scaled by one hundred. This deliberately
/// overweights distant cells compared with the linear edge costs; the
/// shape is kept as the simulation's route behaviour depends on it.
fn heuristic(x: usize, y: usize, gx: usize, gy: usize) -> (r: u64)
    requires
        x < 4096 && y < 4096 && gx < 4096 && gy < 4096,
    ensures
        r == ((x - gx) * (x - gx) + (y - gy) * (y - gy)) * 100,
        r <= 4000000000,
{
    let ax: u64 = if x >= gx { (x - gx) as u64 } else { (gx - x) as u64 };
    let ay: u64 = if y >= gy { (y - gy) as u64 } else { (gy - y) as u64 };
    assert(ax * ax <= 16777216 && ay * ay <= 16777216) by (nonlinear_arith)
        requires ax < 4096 && ay < 4096,
    ;
    proof {
        assert((ax * ax) as int == (x - gx) * (x - gx)) by (nonlinear_arith)
            requires ax as int == x - gx || ax as int == gx - x,
        ;
        assert((ay * ay) as int == (y - gy) * (y - gy)) by (nonlinear_arith)
            requires ay as int == y - gy || ay as int == gy - y,
        ;
    }
    (ax * ax + ay * ay) * 100
}

/// Compute a grid route from `start` to `destination` with an A* search
/// over the grid's exits. Edge weights are `Grid::step_cost`; the
/// priority adds the squared euclidean distance to the goal scaled by
/// one hundred, which overweights distant cells, so the returned route
/// is legal but not always the cheapest. The priority only orders the
/// expansion and cannot affect which cells are reachable.
///
/// Returns a route exactly when one exists: `Some(p)` holds a legal
/// route from `start` to `destination` inclusive, and `None` means no
/// legal route connects them.
#[verifier::rlimit(100)]
pub fn find_path(start: (i32, i32), destination: (i32, i32), map: &Grid) -> (r: Option<Path>)
    requires
        map.wf(),
        map.in_bounds(start.0 as int, start.1 as int),
    ensures
        match r {
            Some(p) => connects(
                *map,
                cells_view(p.0@),
                (start.0 as int, start.1 as int),
                (destination.0 as int, destination.1 as int),
            ),
            None => !reachable(
                *map,
                (start.0 as int, start.1 as int),
                (destination.0 as int, destination.1 as int),
            ),
        },
        r is Some <==> reachable(
            *map,
            (start.0 as int, start.1 as int),
            (destination.0 as int, destination.1 as int),
        ),
        match r {
            Some(p) => forall |k1: int, k2: int| 0 <= k1 < k2 < p.0@.len()
                ==> (#[trigger] p.0@[k1]) != (#[trigger] p.0@[k2]),
            None => true,
        },
{
    let g = map;
    let w = g.width();
    let h = g.height();
    let ghost wi = w as int;
    let ghost sc = (start.0 as int, start.1 as int);
    let ghost dc = (destination.0 as int, destination.1 as int);
    if start.0 == destination.0 && start.1 == destination.1 {
        let mut cells: Vec<(i32, i32)> = Vec::new();
        cells.push(start);
        proof {
            assert(cells_view(cells@) =~= seq![sc]);
            assert(connects(*g, cells_view(cells@), sc, dc));
        }
        return Some(Path(cells));
    }
    if destination.0 < 0 || destination.1 < 0
        || destination.0 >= w as i32 || destination.1 >= h as i32 {
        proof {
            lemma_unwalkable_unreachable(*g, sc, dc);
        }
        return None;
    }
    let sx = start.0 as usize;
    let sy = start.1 as usize;
    let gx = destination.0 as usize;
    let gy = destination.1 as usize;
    proof {
        lemma_index_in_range(wi, h as int, sx as int, sy as int);
        lemma_index_in_range(wi, h as int, gx as int, gy as int);
    }
    let count = g.count();

    let mut disc: Vec<bool> = filled(false, count);
    let mut cl: Vec<bool> = filled(false, count);
    let mut gs: Vec<u64> = filled(0u64, count);
    let mut par: Vec<(usize, usize)> = filled((0usize, 0usize), count);
    let mut open: Vec<(u64, usize, usize)> = Vec::new();

    let sidx = sy * w + sx;
    proof {
        lemma_search_init(*g, sx, sy, disc@, cl@, gs@, par@);
    }
    disc.set(sidx, true);
    open.push((0, sx, sy));
    let ghost mut closedidx: Set<int> = Set::empty();
    proof {
        assert(open@ =~= seq![(0u64, sx, sy)]);
        assert(!bit_at(cl@, wi, gx as int, gy as int)) by {
            lemma_int_range(0, count as int);
        }
    }

    loop
        invariant
            g.wf(),
            g == map,
            w == g.width,
            h == g.height,
            count == g.count_spec(),
            wi == w as int,
            sc == (start.0 as int, start.1 as int),
            dc == (destination.0 as int, destination.1 as int),
            sc == (sx as int, sy as int),
            dc == (gx as int, gy as int),
            sc != dc,
            sx < w && sy < h && gx < w && gy < h,
            search_inv(*g, sc, disc@, cl@, gs@, par@, open@, closedidx, no_pending()),
            !bit_at(cl@, wi, gx as int, gy as int),
        decreases count - closedidx.len(), open@.len(),
    {
        proof {
            lemma_int_range(0, count as int);
            lemma_len_subset(closedidx, set_int_range(0, count as int));
        }
        if open.len() == 0 {
            // The frontier is exhausted: everything discovered is closed,
            // the discovered set is closed under legal steps, and the
            // destination was never discovered, so no route reaches it.
            proof {
                assert forall |x: int, y: int| g.in_bounds(x, y)
                        && #[trigger] bit_at(disc@, wi, x, y)
                    implies bit_at(cl@, wi, x, y) by {
                    if !bit_at(cl@, wi, x, y) {
                        let k0 = choose |k0: int| 0 <= k0 < open@.len()
                            && (#[trigger] open@[k0]).1 == x && open@[k0].2 == y;
                        assert(false);
                    }
                }
                assert(!bit_at(disc@, wi, gx as int, gy as int));
                if reachable(*g, sc, dc) {
                    let s = choose |s: Seq<(int, int)>| connects(*g, s, sc, dc);
                    lemma_route_stays_discovered(*g, disc@, cl@, s);
                }
            }
            return None;
        }
        // Select the open entry with the least priority. Which entry is
        // picked only shapes the route; any choice stays correct.
        let mut m: usize = 0;
        let mut k: usize = 1;
        while k < open.len()
            invariant
                0 < open@.len(),
                m < open@.len(),
                k <= open@.len(),
                forall |j: int| 0 <= j < k ==> open@[m as int].0 <= (#[trigger] open@[j]).0,
            decreases open@.len() - k,
        {
            if open[k].0 < open[m].0 {
                m = k;
            }
            k = k + 1;
        }
        let ghost open_before = open@;
        let entry = open.remove(m);
        let cx = entry.1;
        let cy = entry.2;
        proof {
            assert(open_before[m as int].1 < w && open_before[m as int].2 < h
                && bit_at(disc@, wi, open_before[m as int].1 as int,
                    open_before[m as int].2 as int));
            lemma_index_in_range(wi, h as int, cx as int, cy as int);
        }
        let cidx = cy * w + cx;
        if cl[cidx] {
            // A stale entry for an already expanded cell.
            proof {
                assert(bit_at(cl@, wi, cx as int, cy as int)) by {
                    assert(cl@[cy as int * wi + cx as int]);
                }
                lemma_pop_closed(*g, sc, disc@, cl@, gs@, par@, open_before, closedidx,
                    no_pending(), m as int);
            }
            continue;
        }
        if cx == gx && cy == gy {
            // Reconstruct the route by following parent records back to
            // the start; the recorded cost strictly decreases, so the
            // walk terminates at the start cell.
            let mut rev: Vec<(i32, i32)> = Vec::new();
            rev.push((destination.0, destination.1));
            let mut curx = cx;
            let mut cury = cy;
            proof {
                assert(bit_at(disc@, wi, curx as int, cury as int));
            }
            while !(curx == sx && cury == sy)
                invariant
                    g.wf(),
                    w == g.width,
                    h == g.height,
                    count == g.count_spec(),
                    wi == w as int,
                    sc == (sx as int, sy as int),
                    dc == (gx as int, gy as int),
                    sx < w && sy < h,
                    curx < w && cury < h,
                    disc@.len() == count && cl@.len() == count && gs@.len() == count
                        && par@.len() == count,
                    bit_at(disc@, wi, curx as int, cury as int),
                    rev@.len() >= 1,
                    (rev@[0].0 as int, rev@[0].1 as int) == dc,
                    (rev@[rev@.len() - 1].0 as int, rev@[rev@.len() - 1].1 as int)
                        == (curx as int, cury as int),
                    forall |q: int| 0 <= q < rev@.len()
                        ==> 0 <= (#[trigger] rev@[q]).0 < w && 0 <= rev@[q].1 < h,
                    forall |q1: int, q2: int| 0 <= q1 < q2 < rev@.len()
                        ==> gs@[(#[trigger] rev@[q1]).1 as int * wi + rev@[q1].0 as int]
                            > gs@[(#[trigger] rev@[q2]).1 as int * wi + rev@[q2].0 as int],
                    forall |k2: int| 0 <= k2 < rev@.len() - 1 ==> #[trigger] rev_step(*g, rev@, k2),
                    forall |x: int, y: int| g.in_bounds(x, y) && #[trigger] bit_at(cl@, wi, x, y)
                        ==> bit_at(disc@, wi, x, y),
                    forall |x: int, y: int| g.in_bounds(x, y)
                            && #[trigger] bit_at(disc@, wi, x, y) && (x, y) != sc
                        ==> {
                            let p = par@[y * wi + x];
                            &&& p.0 < w
                            &&& p.1 < h
                            &&& bit_at(cl@, wi, p.0 as int, p.1 as int)
                            &&& g.step_ok(p.0 as int, p.1 as int, x, y)
                            &&& gs@[p.1 as int * wi + p.0 as int] < gs@[y * wi + x]
                        },
                decreases gs@[cury as int * wi + curx as int],
            {
                proof {
                    lemma_index_in_range(wi, h as int, curx as int, cury as int);
                    assert((curx as int, cury as int) != sc);
                }
                let ghost rev0 = rev@;
                let p = par[cury * w + curx];
                rev.push((p.0 as i32, p.1 as i32));
                proof {
                    lemma_index_in_range(wi, h as int, p.0 as int, p.1 as int);
                    assert(rev_step(*g, rev@, rev@.len() - 2));
                    assert forall |k2: int| 0 <= k2 < rev@.len() - 1
                        implies #[trigger] rev_step(*g, rev@, k2) by {
                        if k2 < rev@.len() - 2 {
                            assert(rev_step(*g, rev0, k2));
                            assert(rev@[k2] == rev0[k2] && rev@[k2 + 1] == rev0[k2 + 1]);
                        }
                    }
                    assert(bit_at(disc@, wi, p.0 as int, p.1 as int));
                    // The recorded cost strictly drops from each cell to
                    // its parent, so the walk never revisits a cell.
                    let l0 = rev0.len() as int;
                    assert forall |q1: int, q2: int| 0 <= q1 < q2 < rev@.len()
                        implies gs@[(#[trigger] rev@[q1]).1 as int * wi + rev@[q1].0 as int]
                            > gs@[(#[trigger] rev@[q2]).1 as int * wi + rev@[q2].0 as int] by {
                        if q2 < l0 {
                            assert(rev@[q1] == rev0[q1] && rev@[q2] == rev0[q2]);
                        } else {
                            assert(rev@[q2] == (p.0 as i32, p.1 as i32));
                            assert(gs@[p.1 as int * wi + p.0 as int]
                                < gs@[cury as int * wi + curx as int]);
                            assert(rev@[q1] == rev0[q1]);
                            if q1 < l0 - 1 {
                                assert(gs@[rev0[q1].1 as int * wi + rev0[q1].0 as int]
                                    > gs@[rev0[l0 - 1].1 as int * wi + rev0[l0 - 1].0 as int]);
                            }
                        }
                    }
                }
                curx = p.0;
                cury = p.1;
            }
            let mut cells: Vec<(i32, i32)> = Vec::new();
            let mut t = rev.len();
            while t > 0
                invariant
                    t <= rev@.len(),
                    cells@.len() == rev@.len() - t,
                    forall |j2: int| 0 <= j2 < cells@.len()
                        ==> #[trigger] cells@[j2] == rev@[rev@.len() - 1 - j2],
                decreases t,
            {
                t = t - 1;
                let c = rev[t];
                cells.push(c);
            }
            proof {
                let v = cells_view(cells@);
                let l = rev@.len() as int;
                assert(v.len() == l);
                assert(cells@[0] == rev@[l - 1]);
                assert(cells@[l - 1] == rev@[0]);
                assert(v[0] == sc);
                assert(v[l - 1] == dc);
                assert forall |k2: int| 0 <= k2 < v.len() - 1
                    implies #[trigger] route_step(*g, v, k2) by {
                    assert(cells@[k2] == rev@[l - 1 - k2]);
                    assert(cells@[k2 + 1] == rev@[l - 1 - (k2 + 1)]);
                    assert(rev_step(*g, rev@, l - 2 - k2));
                }
                assert(connects(*g, v, sc, dc));
                assert forall |k1: int, k2: int| 0 <= k1 < k2 < cells@.len()
                    implies (#[trigger] cells@[k1]) != (#[trigger] cells@[k2]) by {
                    assert(cells@[k1] == rev@[l - 1 - k1]);
                    assert(cells@[k2] == rev@[l - 1 - k2]);
                    if cells@[k1] == cells@[k2] {
                        assert(gs@[rev@[l - 1 - k2].1 as int * wi + rev@[l - 1 - k2].0 as int]
                            > gs@[rev@[l - 1 - k1].1 as int * wi + rev@[l - 1 - k1].0 as int]);
                    }
                }
            }
            return Some(Path(cells));
        }
        // Close the cell and relax every legal step out of it.
        proof {
            assert(!bit_at(cl@, wi, cx as int, cy as int)) by {
                assert(!cl@[cy as int * wi + cx as int]);
            }
            lemma_close(*g, sc, disc@, cl@, gs@, par@, open_before, closedidx, m as int);
        }
        cl.set(cidx, true);
        proof {
            closedidx = closedidx.insert(cidx as int);
            assert(!bit_at(cl@, wi, gx as int, gy as int)) by {
                if gy as int * wi + gx as int == cidx as int {
                    lemma_index_injective(wi, h as int, gx as int, gy as int,
                        cx as int, cy as int);
                }
            }
        }
        let ex = g.exits_from(cx, cy);
        let gv = gs[cidx];
        let mut j: usize = 0;
        while j < ex.len()
            invariant
                g.wf(),
                w == g.width,
                h == g.height,
                count == g.count_spec(),
                wi == w as int,
                sc == (sx as int, sy as int),
                dc == (gx as int, gy as int),
                sc != dc,
                sx < w && sy < h && gx < w && gy < h,
                cx < w && cy < h,
                cidx == cy * w + cx,
                (cx as int, cy as int) != dc,
                j <= ex@.len(),
                search_inv(*g, sc, disc@, cl@, gs@, par@, open@, closedidx,
                    (cx as int, cy as int)),
                !bit_at(cl@, wi, gx as int, gy as int),
                bit_at(cl@, wi, cx as int, cy as int),
                gs@[cidx as int] == gv,
                forall |k2: int| 0 <= k2 < ex@.len() ==> {
                    &&& (#[trigger] ex@[k2]).2 == Grid::step_cost(
                        cx as int, cy as int, ex@[k2].0 as int, ex@[k2].1 as int)
                    &&& g.step_ok(cx as int, cy as int, ex@[k2].0 as int, ex@[k2].1 as int)
                },
                forall |k2: int| 0 <= k2 < j
                    ==> bit_at(disc@, wi, (#[trigger] ex@[k2]).0 as int, ex@[k2].1 as int),
            decreases ex@.len() - j,
        {
            let (nx, ny, c) = ex[j];
            proof {
                assert(g.step_ok(cx as int, cy as int, nx as int, ny as int));
                lemma_index_in_range(wi, h as int, nx as int, ny as int);
                lemma_int_range(0, count as int);
                lemma_len_subset(closedidx, set_int_range(0, count as int));
                assert(bit_at(cl@, wi, cx as int, cy as int));
                assert(gs@[cidx as int] <= 145 * closedidx.len());
            }
            let nidx = ny * w + nx;
            let ng = gv + (c as u64);
            let relax = if !disc[nidx] {
                true
            } else if !cl[nidx] {
                ng < gs[nidx]
            } else {
                false
            };
            if relax {
                let ghost disc0 = disc@;
                let ghost gs0 = gs@;
                let ghost par0 = par@;
                let ghost open0 = open@;
                proof {
                    assert(!bit_at(disc@, wi, nx as int, ny as int)
                        || (!bit_at(cl@, wi, nx as int, ny as int)
                            && ng < gs@[ny as int * wi + nx as int]));
                }
                disc.set(nidx, true);
                gs.set(nidx, ng);
                par.set(nidx, (cx, cy));
                let f = ng + heuristic(nx, ny, gx, gy);
                open.push((f, nx, ny));
                proof {
                    lemma_relax(*g, sc, disc0, cl@, gs0, par0, open0, closedidx,
                        cx, cy, nx, ny, ng, f);
                    assert forall |k2: int| 0 <= k2 < j + 1
                        implies bit_at(disc@, wi, (#[trigger] ex@[k2]).0 as int,
                            ex@[k2].1 as int) by {
                        assert(g.step_ok(cx as int, cy as int, ex@[k2].0 as int,
                            ex@[k2].1 as int));
                        lemma_index_in_range(wi, h as int, ex@[k2].0 as int, ex@[k2].1 as int);
                        if k2 < j {
                            if ex@[k2].1 as int * wi + ex@[k2].0 as int != nidx as int {
                                assert(bit_at(disc0, wi, ex@[k2].0 as int, ex@[k2].1 as int));
                            }
                        }
                    }
                    assert(bit_at(cl@, wi, cx as int, cy as int));
                    assert(gs@[cidx as int] == gv) by {
                        if cidx as int == nidx as int {
                            lemma_index_injective(wi, h as int, cx as int, cy as int,
                                nx as int, ny as int);
                            assert(bit_at(cl@, wi, nx as int, ny as int));
                            assert(false);
                        }
                    }
                }
            } else {
                proof {
                    assert(bit_at(disc@, wi, nx as int, ny as int)) by {
                        assert(disc@[ny as int * wi + nx as int]);
                    }
                }
            }
            j = j + 1;
        }
        // Every legal step out of the closed cell is now discovered.
        proof {
            assert forall |x2: int, y2: int|
                    #[trigger] g.step_ok(cx as int, cy as int, x2, y2)
                implies bit_at(disc@, wi, x2, y2) by {
                assert(ex@.contains(
                    ((x2 as usize, y2 as usize,
                      Grid::step_cost(cx as int, cy as int, x2, y2) as u32))));
                let k0 = choose |k0: int| 0 <= k0 < ex@.len() && ex@[k0]
                    == ((x2 as usize, y2 as usize,
                         Grid::step_cost(cx as int, cy as int, x2, y2) as u32));
                assert(bit_at(disc@, wi, ex@[k0].0 as int, ex@[k0].1 as int));
                assert(x2 as usize as int == x2 && y2 as usize as int == y2);
            }
            lemma_finish_expand(*g, sc, disc@, cl@, gs@, par@, open@, closedidx, cx, cy);
            lemma_int_range(0, count as int);
            lemma_len_subset(closedidx, set_int_range(0, count as int));
        }
    }
}

// ---------------------------------------------------------------------
// Steering negotiation: turning a computed cell path into a per-tick
// velocity, with local collision avoidance by coordinate snapping.
// ---------------------------------------------------------------------

/// A movement rate, in thousandths of a tile per second.
#[derive(Clone, Copy, Debug, PartialEq, Eq, Structural)]
pub struct Speed(pub u64);

/// A velocity, in thousandths of a tile per second per axis.
#[derive(Clone, Copy, Debug, PartialEq, Eq, Structural)]
pub struct Velocity {
    pub x: i64,
    pub y: i64,
}

pub open spec fn abs_spec(v: int) -> int {
    if v >= 0 { v } else { -v }
}

/// The nearest coordinate inside cell `to` as approached from `from`:
/// the cell's low edge when `from` lies at or below it, otherwise the
/// cell's high edge.
pub open spec fn nearest_extreme_spec(from: int, to: int) -> int {
    if from <= to * 1000 {
        to * 1000
    } else {
        to * 1000 + 999
    }
}

/// See `nearest_extreme_spec`.
pub fn nearest_extreme(from: i64, to: i64) -> (r: i64)
    requires
        -5000 <= to <= 5000,
    ensures
        r == nearest_extreme_spec(from as int, to as int),
{
    let low = to * 1000;
    if from <= low {
        low
    } else {
        low + 999
    }
}

/// The position that cheat assignment aims for: per axis, keep the
/// coordinate when already inside the target cell's span, else snap it
/// to the nearest extreme of the target cell.
pub open spec fn cheat_target_spec(start: Coordinates, end: (int, int)) -> Coordinates {
    let x = if start.tile_x_spec() == end.0 { start.x as int }
        else { nearest_extreme_spec(start.x as int, end.0) };
    let y = if start.tile_y_spec() == end.1 { start.y as int }
        else { nearest_extreme_spec(start.y as int, end.1) };
    Coordinates { x: x as i64, y: y as i64 }
}

/// Try to place an entity inside the cell `end` without entering a
/// motion-blocked tile: returns the snapped position when its tile is
/// free, and nothing when that tile is blocked.
pub fn cheat_assign(
    start: Coordinates,
    end: (i32, i32),
    grid: &Grid,
    motion_blocked: &Vec<bool>,
) -> (r: Option<Coordinates>)
    requires
        grid.wf(),
        start.in_grid(grid.width as int, grid.height as int),
        grid.in_bounds(end.0 as int, end.1 as int),
        motion_blocked@.len() == grid.count_spec(),
    ensures
        ({
            let c = cheat_target_spec(start, (end.0 as int, end.1 as int));
            &&& c.in_grid(grid.width as int, grid.height as int)
            &&& r == if motion_blocked@[c.index_spec(grid.width as int)] { None::<Coordinates> }
                else { Some(c) }
        }),
{
    let x: i64 = if start.tile_x() == end.0 as i64 {
        start.x
    } else {
        nearest_extreme(start.x, end.0 as i64)
    };
    let y: i64 = if start.tile_y() == end.1 as i64 {
        start.y
    } else {
        nearest_extreme(start.y, end.1 as i64)
    };
    let point = Coordinates { x, y };
    proof {
        assert(point.in_grid(grid.width as int, grid.height as int));
    }
    let index = point.to_index(grid.width);
    proof {
        lemma_index_in_range(grid.width as int, grid.height as int,
            point.tile_x_spec(), point.tile_y_spec());
    }
    if motion_blocked[index] {
        None
    } else {
        Some(point)
    }
}

/// The first position of `cell` in `s` at or after `k`, or the length
/// of `s` when there is none.
pub open spec fn find_from(s: Seq<(i32, i32)>, cell: (i32, i32), k: int) -> int
    decreases s.len() - k,
{
    if k < 0 || k >= s.len() {
        s.len() as int
    } else if s[k] == cell {
        k
    } else {
        find_from(s, cell, k + 1)
    }
}

/// Where `find_from` lands: at a matching position, or one past the
/// end when there is no match.
pub proof fn lemma_find_from_props(s: Seq<(i32, i32)>, cell: (i32, i32), k: int)
    requires
        0 <= k <= s.len(),
    ensures
        k <= find_from(s, cell, k) <= s.len(),
        find_from(s, cell, k) < s.len() ==> s[find_from(s, cell, k)] == cell,
    decreases s.len() - k,
{
    if k < s.len() && s[k] != cell {
        lemma_find_from_props(s, cell, k + 1);
    }
}

/// The path after the consumed prefix is dropped: when `cell` occurs in
/// `s`, the spliced path restarts at `cell` and runs up to the next
/// later occurrence of `cell` (or the end); when it does not occur, the
/// path is unchanged.
pub open spec fn splice_spec(s: Seq<(i32, i32)>, cell: (i32, i32)) -> Seq<(i32, i32)> {
    let i = find_from(s, cell, 0);
    if i == s.len() {
        s
    } else {
        seq![cell] + s.subrange(i + 1, find_from(s, cell, i + 1))
    }
}

/// Locate `cell` in `path` from index `k0` on.
fn find_cell(path: &Vec<(i32, i32)>, cell: (i32, i32), k0: usize) -> (r: usize)
    requires
        k0 <= path@.len(),
    ensures
        r == find_from(path@, cell, k0 as int),
        k0 <= r <= path@.len(),
    decreases path@.len() - k0,
{
    let mut k = k0;
    while k < path.len()
        invariant
            k0 <= k <= path@.len(),
            find_from(path@, cell, k0 as int) == find_from(path@, cell, k as int),
        decreases path@.len() - k,
    {
        if path[k].0 == cell.0 && path[k].1 == cell.1 {
            proof {
                assert(path@[k as int] == cell);
            }
            return k;
        }
        k = k + 1;
    }
    path.len()
}

/// The scaled direction from `from` toward the centre of cell `to`:
/// the vector to the centre, normalised and scaled by `speed`, rounded
/// toward zero per axis. A zero vector stays zero.
pub open spec fn steer_velocity_spec(from: Coordinates, to: (int, int), speed: int) -> (int, int) {
    let dx = to.0 * 1000 + 500 - from.x;
    let dy = to.1 * 1000 + 500 - from.y;
    let n2 = dx * dx + dy * dy;
    if n2 == 0 {
        (0, 0)
    } else {
        let len = crate::coords::isqrt_spec(n2 as nat) as int;
        let mx = abs_spec(dx) * speed / len;
        let my = abs_spec(dy) * speed / len;
        (if dx >= 0 { mx } else { -mx }, if dy >= 0 { my } else { -my })
    }
}


/// Steering toward the centre of a cell from any other position, at a
/// speed of at least two units per second, always yields a nonzero
/// velocity whose components point toward that centre: an entity with
/// a remaining path and no obstruction never stalls short of it.
pub proof fn lemma_steering_aims_at_target(from: Coordinates, to: (int, int), speed: int)
    requires
        2 <= speed <= 1000000,
        -10000000 <= from.x <= 10000000,
        -10000000 <= from.y <= 10000000,
        -4096 <= to.0 <= 4096,
        -4096 <= to.1 <= 4096,
        (to.0 * 1000 + 500, to.1 * 1000 + 500) != (from.x as int, from.y as int),
    ensures
        ({
            let v = steer_velocity_spec(from, to, speed);
            &&& v != (0int, 0int)
            &&& (to.0 * 1000 + 500 - from.x > 0 ==> v.0 >= 0)
            &&& (to.0 * 1000 + 500 - from.x < 0 ==> v.0 <= 0)
            &&& (to.0 * 1000 + 500 - from.x == 0 ==> v.0 == 0)
            &&& (to.1 * 1000 + 500 - from.y > 0 ==> v.1 >= 0)
            &&& (to.1 * 1000 + 500 - from.y < 0 ==> v.1 <= 0)
            &&& (to.1 * 1000 + 500 - from.y == 0 ==> v.1 == 0)
        }),
{
    let dx = to.0 * 1000 + 500 - from.x;
    let dy = to.1 * 1000 + 500 - from.y;
    let n2 = dx * dx + dy * dy;
    assert(dx != 0 || dy != 0);
    assert(n2 > 0) by (nonlinear_arith)
        requires
            n2 == dx * dx + dy * dy,
            dx != 0 || dy != 0,
    ;
    crate::coords::lemma_isqrt_spec_bounds(n2 as nat);
    let len = crate::coords::isqrt_spec(n2 as nat) as int;
    assert(len >= 1) by (nonlinear_arith)
        requires (len + 1) * (len + 1) > n2 && n2 >= 1 && len >= 0,
    ;
    let m = if abs_spec(dx) >= abs_spec(dy) { abs_spec(dx) } else { abs_spec(dy) };
    assert(m >= 1);
    // The euclidean length never exceeds twice the larger component.
    assert(len <= 2 * m) by (nonlinear_arith)
        requires
            len * len <= n2,
            n2 == dx * dx + dy * dy,
            m >= abs_spec(dx) >= 0 && m >= abs_spec(dy) >= 0,
            (abs_spec(dx) == dx || abs_spec(dx) == -dx),
            (abs_spec(dy) == dy || abs_spec(dy) == -dy),
            len >= 0,
    ;
    // So the larger component, scaled and normalised, is at least one.
    assert(m * speed / len >= 1) by (nonlinear_arith)
        requires m >= 1 && speed >= 2 && 1 <= len && len <= 2 * m,
    ;
    assert(abs_spec(dx) * speed / len >= 0 && abs_spec(dy) * speed / len >= 0)
        by (nonlinear_arith)
        requires abs_spec(dx) >= 0 && abs_spec(dy) >= 0 && speed >= 0 && len >= 1,
    ;
    let v = steer_velocity_spec(from, to, speed);
    if abs_spec(dx) >= abs_spec(dy) {
        assert(abs_spec(v.0) == abs_spec(dx) * speed / len);
        assert(v != (0int, 0int));
    } else {
        assert(abs_spec(v.1) == abs_spec(dy) * speed / len);
        assert(v != (0int, 0int));
    }
    assert(dx == 0 ==> v.0 == 0) by {
        if dx == 0 {
            assert(abs_spec(dx) * speed / len == 0) by (nonlinear_arith)
                requires abs_spec(dx) == 0 && len >= 1,
            ;
        }
    }
    assert(dy == 0 ==> v.1 == 0) by {
        if dy == 0 {
            assert(abs_spec(dy) * speed / len == 0) by (nonlinear_arith)
                requires abs_spec(dy) == 0 && len >= 1,
            ;
        }
    }
}

/// A displacement over `dt` milliseconds at a velocity component `v`,
/// rounded toward zero.
pub open spec fn disp_spec(v: int, dt: int) -> int {
    if v >= 0 {
        v * dt / 1000
    } else {
        -((-v) * dt / 1000)
    }
}

/// What one negotiation step decides for one entity.
#[derive(Clone, Debug)]
pub struct Negotiation {
    /// The path after splicing away the consumed prefix.
    pub path: Path,
    /// The entity's position, possibly snapped by cheat assignment.
    pub coordinates: Coordinates,
    /// The velocity to apply this tick; nothing means leave it as it is.
    pub velocity: Option<Velocity>,
    /// The entity reached the end of its path: the caller clears the
    /// path and the destination.
    pub arrived: bool,
}

/// The tile cell under a position.
pub open spec fn cell_of_spec(c: Coordinates) -> (i32, i32) {
    (c.tile_x_spec() as i32, c.tile_y_spec() as i32)
}

/// What the steering negotiator decides, phase one: splice the path at
/// the entity's cell; when the entity has drifted off the path, try a
/// corrective snap toward the path's first cell.
pub open spec fn negotiate_coords1_spec(
    path: Seq<(i32, i32)>,
    coords: Coordinates,
    g: Grid,
    mb: Seq<bool>,
) -> Coordinates {
    let cell = cell_of_spec(coords);
    if find_from(path, cell, 0) == path.len() && path.len() >= 1
        && g.in_bounds(path[0].0 as int, path[0].1 as int) {
        let c1 = cheat_target_spec(coords, (path[0].0 as int, path[0].1 as int));
        if mb[c1.index_spec(g.width as int)] {
            coords
        } else {
            c1
        }
    } else {
        coords
    }
}

/// What the steering negotiator decides, phase two, for a spliced path
/// with at least two cells: position after any snap, velocity to apply
/// (nothing keeps the current velocity), and whether the entity halts.
pub open spec fn negotiate_move_spec(
    target: (i32, i32),
    c1: Coordinates,
    speed: int,
    dt: int,
    g: Grid,
    mb: Seq<bool>,
) -> (Coordinates, Option<Velocity>) {
    let wi = g.width as int;
    if !g.in_bounds(target.0 as int, target.1 as int) {
        (c1, Some(Velocity { x: 0, y: 0 }))
    } else {
        let v = steer_velocity_spec(c1, (target.0 as int, target.1 as int), speed);
        let dx = c1.x + disp_spec(v.0, dt);
        let dy = c1.y + disp_spec(v.1, dt);
        let dest = Coordinates { x: dx as i64, y: dy as i64 };
        if dest.in_grid(wi, g.height as int)
            && (dest.index_spec(wi) == c1.index_spec(wi) || !mb[dest.index_spec(wi)]) {
            (c1, Some(Velocity { x: v.0 as i64, y: v.1 as i64 }))
        } else {
            let t = cheat_target_spec(c1, (target.0 as int, target.1 as int));
            if mb[t.index_spec(wi)] {
                (c1, Some(Velocity { x: 0, y: 0 }))
            } else {
                let snapx = Coordinates { x: t.x, y: c1.y };
                let snapy = Coordinates { x: c1.x, y: t.y };
                if !mb[snapx.index_spec(wi)] {
                    (snapx, None)
                } else if !mb[snapy.index_spec(wi)] {
                    (snapy, None)
                } else {
                    (t, Some(Velocity { x: 0, y: 0 }))
                }
            }
        }
    }
}


/// Compute the velocity toward the centre of `target` at the given
/// speed, exactly as `steer_velocity_spec` states it.
fn steer_velocity(c1: Coordinates, target: (i32, i32), speed: Speed, grid: &Grid)
    -> (vel: Velocity)
    requires
        grid.wf(),
        c1.in_grid(grid.width as int, grid.height as int),
        grid.in_bounds(target.0 as int, target.1 as int),
        speed.0 <= 1000000,
    ensures
        ({
            let v = steer_velocity_spec(c1, (target.0 as int, target.1 as int), speed.0 as int);
            vel.x == v.0 && vel.y == v.1
        }),
        -1000000 <= vel.x <= 1000000,
        -1000000 <= vel.y <= 1000000,
{
    let dx: i64 = (target.0 as i64) * 1000 + 500 - c1.x;
    let dy: i64 = (target.1 as i64) * 1000 + 500 - c1.y;
    let adx: u64 = if dx >= 0 { dx as u64 } else { (-dx) as u64 };
    let ady: u64 = if dy >= 0 { dy as u64 } else { (-dy) as u64 };
    proof {
        assert(adx < 8000000 && ady < 8000000);
        assert(adx * adx < 64000000000000 && ady * ady < 64000000000000)
            by (nonlinear_arith)
            requires adx < 8000000 && ady < 8000000,
        ;
    }
    let n2: u64 = adx * adx + ady * ady;
    proof {
        assert((adx * adx) as int == (dx as int) * (dx as int)) by (nonlinear_arith)
            requires adx == dx || adx as int == -(dx as int),
        ;
        assert((ady * ady) as int == (dy as int) * (dy as int)) by (nonlinear_arith)
            requires ady == dy || ady as int == -(dy as int),
        ;
    }
    if n2 == 0 {
        Velocity { x: 0, y: 0 }
    } else {
        let len = crate::coords::isqrt(n2);
        proof {
            assert(len >= 1) by (nonlinear_arith)
                requires (len + 1) * (len + 1) > n2 && n2 >= 1,
            ;
            assert(adx <= len && ady <= len) by (nonlinear_arith)
                requires
                    len * len <= n2,
                    (len + 1) * (len + 1) > n2,
                    n2 == adx * adx + ady * ady,
            ;
            assert(adx * speed.0 <= 8000000000000) by (nonlinear_arith)
                requires adx < 8000000 && speed.0 <= 1000000,
            ;
            assert(ady * speed.0 <= 8000000000000) by (nonlinear_arith)
                requires ady < 8000000 && speed.0 <= 1000000,
            ;
            assert((adx as int) * (speed.0 as int) / (len as int) <= speed.0 as int)
                by (nonlinear_arith)
                requires adx <= len && 1 <= len,
            ;
            assert((ady as int) * (speed.0 as int) / (len as int) <= speed.0 as int)
                by (nonlinear_arith)
                requires ady <= len && 1 <= len,
            ;
        }
        let mx = adx * speed.0 / len;
        let my = ady * speed.0 / len;
        let vx: i64 = if dx >= 0 { mx as i64 } else { -(mx as i64) };
        let vy: i64 = if dy >= 0 { my as i64 } else { -(my as i64) };
        Velocity { x: vx, y: vy }
    }
}

/// One steering step for one entity, run once per tick. The path is
/// spliced to restart at the entity's cell
/// when the cell lies on it; an entity that drifted off its path is
/// nudged toward the path's first cell. With at least two cells left,
/// the entity is steered toward the second cell's centre, snapping
/// around a freshly blocked tile in the order: snap one axis, then the
/// other, then both, and halting only when every snap target is
/// blocked. With fewer than two cells left the entity has arrived and
/// the caller clears its path and destination.
#[verifier::rlimit(60)]
pub fn negotiate_step(
    path: &Path,
    coordinates: Coordinates,
    speed: Speed,
    dt_ms: u64,
    grid: &Grid,
    motion_blocked: &Vec<bool>,
) -> (r: Negotiation)
    requires
        grid.wf(),
        coordinates.in_grid(grid.width as int, grid.height as int),
        motion_blocked@.len() == grid.count_spec(),
        speed.0 <= 1000000,
        dt_ms <= 60000,
    ensures
        r.path.0@ == splice_spec(path.0@, cell_of_spec(coordinates)),
        r.coordinates.in_grid(grid.width as int, grid.height as int),
        r.arrived <==> splice_spec(path.0@, cell_of_spec(coordinates)).len() < 2,
        match r.velocity {
            Some(v) => -1000000 <= v.x <= 1000000 && -1000000 <= v.y <= 1000000,
            None => true,
        },
        ({
            let c1 = negotiate_coords1_spec(path.0@, coordinates, *grid, motion_blocked@);
            let spliced = splice_spec(path.0@, cell_of_spec(coordinates));
            if spliced.len() >= 2 {
                let m = negotiate_move_spec(spliced[1], c1, speed.0 as int, dt_ms as int,
                    *grid, motion_blocked@);
                r.coordinates == m.0 && r.velocity == m.1
            } else {
                r.coordinates == c1 && r.velocity == Some(Velocity { x: 0, y: 0 })
            }
        }),
{
    let ghost wi = grid.width as int;
    let ghost hi = grid.height as int;
    let cell: (i32, i32) = (coordinates.tile_x() as i32, coordinates.tile_y() as i32);
    proof {
        assert(cell == cell_of_spec(coordinates));
    }
    // Phase one: splice, or nudge a drifted entity toward the path.
    let i = find_cell(&path.0, cell, 0);
    proof {
        lemma_find_from_props(path.0@, cell, 0);
    }
    let mut spliced: Vec<(i32, i32)> = Vec::new();
    let mut c1 = coordinates;
    if i < path.0.len() {
        let j = find_cell(&path.0, cell, i + 1);
        proof {
            lemma_find_from_props(path.0@, cell, i as int + 1);
        }
        spliced.push(cell);
        let mut k = i + 1;
        while k < j
            invariant
                i < path.0@.len(),
                i + 1 <= k <= j <= path.0@.len(),
                path.0@[i as int] == cell,
                spliced@.len() == k - i,
                spliced@[0] == cell,
                forall |q: int| 1 <= q < spliced@.len()
                    ==> #[trigger] spliced@[q] == path.0@[i + q],
            decreases j - k,
        {
            let c = path.0[k];
            spliced.push(c);
            k = k + 1;
        }
        proof {
            let sp = splice_spec(path.0@, cell);
            assert(find_from(path.0@, cell, 0) == i as int);
            assert(sp == seq![cell] + path.0@.subrange(i as int + 1, j as int));
            assert(spliced@ =~= sp);
        }
    } else {
        // The entity drifted off its path: copy the path unchanged and
        // try to snap toward its first cell.
        let mut k: usize = 0;
        while k < path.0.len()
            invariant
                k <= path.0@.len(),
                spliced@ == path.0@.subrange(0, k as int),
            decreases path.0@.len() - k,
        {
            let c = path.0[k];
            spliced.push(c);
            proof {
                assert(spliced@ =~= path.0@.subrange(0, k + 1));
            }
            k = k + 1;
        }
        proof {
            assert(spliced@ =~= path.0@);
            assert(splice_spec(path.0@, cell) == path.0@);
        }
        if path.0.len() >= 1 {
            let first = path.0[0];
            if first.0 >= 0 && first.1 >= 0
                && (first.0 as usize) < grid.width && (first.1 as usize) < grid.height {
                if let Some(snapped) = cheat_assign(coordinates, first, grid, motion_blocked) {
                    c1 = snapped;
                }
            }
        }
    }
    proof {
        assert(c1 == negotiate_coords1_spec(path.0@, coordinates, *grid, motion_blocked@));
        assert(c1.in_grid(wi, hi));
    }
    // Phase two: steer toward the second cell, or arrive.
    if spliced.len() >= 2 {
        let target = spliced[1];
        if !(target.0 >= 0 && target.1 >= 0
            && (target.0 as usize) < grid.width && (target.1 as usize) < grid.height) {
            return Negotiation {
                path: Path(spliced),
                coordinates: c1,
                velocity: Some(Velocity { x: 0, y: 0 }),
                arrived: false,
            };
        }
        let vel = steer_velocity(c1, target, speed, grid);
        let mvx: u64 = if vel.x >= 0 { vel.x as u64 } else { (-vel.x) as u64 };
        let mvy: u64 = if vel.y >= 0 { vel.y as u64 } else { (-vel.y) as u64 };
        proof {
            assert(mvx <= 1000000 && mvy <= 1000000);
            assert(mvx * dt_ms <= 60000000000 && mvy * dt_ms <= 60000000000)
                by (nonlinear_arith)
                requires mvx <= 1000000 && mvy <= 1000000 && dt_ms <= 60000,
            ;
        }
        let sdx: u64 = mvx * dt_ms / 1000;
        let sdy: u64 = mvy * dt_ms / 1000;
        let destx: i64 = if vel.x >= 0 { c1.x + sdx as i64 } else { c1.x - sdx as i64 };
        let desty: i64 = if vel.y >= 0 { c1.y + sdy as i64 } else { c1.y - sdy as i64 };
        let dest = Coordinates { x: destx, y: desty };
        proof {
            assert(dest.x as int == c1.x + disp_spec(vel.x as int, dt_ms as int));
            assert(dest.y as int == c1.y + disp_spec(vel.y as int, dt_ms as int));
        }
        let in_grid = destx >= 0 && desty >= 0
            && destx < (grid.width as i64) * 1000 && desty < (grid.height as i64) * 1000;
        if in_grid {
            let didx = dest.to_index(grid.width);
            let cidx = c1.to_index(grid.width);
            proof {
                lemma_index_in_range(wi, hi, dest.tile_x_spec(), dest.tile_y_spec());
            }
            if didx == cidx || !motion_blocked[didx] {
                return Negotiation {
                    path: Path(spliced),
                    coordinates: c1,
                    velocity: Some(vel),
                    arrived: false,
                };
            }
        }
        // The projected step lands in a blocked tile (or off the grid):
        // snap around the obstruction, one axis at a time.
        match cheat_assign(c1, target, grid, motion_blocked) {
            None => {
                Negotiation {
                    path: Path(spliced),
                    coordinates: c1,
                    velocity: Some(Velocity { x: 0, y: 0 }),
                    arrived: false,
                }
            }
            Some(t) => {
                let snapx = Coordinates { x: t.x, y: c1.y };
                let snapy = Coordinates { x: c1.x, y: t.y };
                proof {
                    assert(snapx.in_grid(wi, hi) && snapy.in_grid(wi, hi));
                }
                let ix = snapx.to_index(grid.width);
                let iy = snapy.to_index(grid.width);
                proof {
                    lemma_index_in_range(wi, hi, snapx.tile_x_spec(), snapx.tile_y_spec());
                    lemma_index_in_range(wi, hi, snapy.tile_x_spec(), snapy.tile_y_spec());
                }
                if !motion_blocked[ix] {
                    Negotiation {
                        path: Path(spliced),
                        coordinates: snapx,
                        velocity: None,
                        arrived: false,
                    }
                } else if !motion_blocked[iy] {
                    Negotiation {
                        path: Path(spliced),
                        coordinates: snapy,
                        velocity: None,
                        arrived: false,
                    }
                } else {
                    Negotiation {
                        path: Path(spliced),
                        coordinates: t,
                        velocity: Some(Velocity { x: 0, y: 0 }),
                        arrived: false,
                    }
                }
            }
        }
    } else {
        Negotiation {
            path: Path(spliced),
            coordinates: c1,
            velocity: Some(Velocity { x: 0, y: 0 }),
            arrived: true,
        }
    }
}

} // verus!
