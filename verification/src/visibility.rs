use vstd::prelude::*;
use crate::map::Grid;
use crate::map::lemma_index_in_range;

verus! {

/// Per-tile flags: sight is obstructed here, by the tile itself or by
/// an occupant that blocks visibility.
#[derive(Clone, Debug)]
pub struct VisibilityBlocked(pub Vec<bool>);

/// Per-tile flags: some active viewer currently sees this tile.
#[derive(Clone, Debug)]
pub struct VisibleTiles(pub Vec<bool>);

/// Per-tile flags: some viewer has seen this tile at some point.
/// Monotonic: once set, a flag is only cleared by an explicit reset.
#[derive(Clone, Debug)]
pub struct RevealedTiles(pub Vec<bool>);

/// An agent's field of view: the cells currently visible from its
/// position, out to `range` tiles.
#[derive(Clone, Debug)]
pub struct Viewshed {
    pub visible: Vec<(i32, i32)>,
    pub range: u32,
}

/// The set of cells named by a cell list.
pub open spec fn cell_set(s: Seq<(i32, i32)>) -> Set<(int, int)> {
    s.map_values(|c: (i32, i32)| (c.0 as int, c.1 as int)).to_set()
}

impl Viewshed {
    pub fn new(range: u32) -> (r: Viewshed)
        ensures
            r.range == range,
            r.visible@.len() == 0,
    {
        Viewshed { visible: Vec::new(), range }
    }

    /// Whether a cell is currently in sight.
    pub fn is_visible(&self, point: (i32, i32)) -> (r: bool)
        ensures
            r == self.visible@.contains(point),
    {
        let mut k: usize = 0;
        while k < self.visible.len()
            invariant
                k <= self.visible@.len(),
                forall |q: int| 0 <= q < k ==> (#[trigger] self.visible@[q]) != point,
            decreases self.visible@.len() - k,
        {
            if self.visible[k].0 == point.0 && self.visible[k].1 == point.1 {
                proof {
                    assert(self.visible@[k as int] == point);
                }
                return true;
            }
            k = k + 1;
        }
        false
    }
}

/// A tile that sight cannot pass: outside the grid, or flagged in the
/// visibility-blocked bitmap.
pub open spec fn opaque_spec(vb: Seq<bool>, w: int, h: int, x: int, y: int) -> bool {
    if 0 <= x < w && 0 <= y < h {
        vb[y * w + x]
    } else {
        true
    }
}

/// The world offset of the tile in octant `oct` at depth `d`, lateral
/// column `c`.
pub open spec fn oct_off(oct: int, d: int, c: int) -> (int, int) {
    if oct == 0 { (c, -d) }
    else if oct == 1 { (d, -c) }
    else if oct == 2 { (d, c) }
    else if oct == 3 { (c, d) }
    else if oct == 4 { (-c, d) }
    else if oct == 5 { (-d, c) }
    else if oct == 6 { (-d, -c) }
    else { (-c, -d) }
}

/// What scanning one tile adds to the visible set: the tile's world
/// cell, when it is a wall or lies symmetrically inside the strip
/// between the current start slope and the row's end slope, and is in
/// range and on the grid.
pub open spec fn tile_reveal_spec(
    vb: Seq<bool>, w: int, h: int, ox: int, oy: int, range: int,
    oct: int, d: int, c: int, sn: int, sd: int, en: int, ed: int,
) -> Set<(int, int)> {
    let off = oct_off(oct, d, c);
    let x = ox + off.0;
    let y = oy + off.1;
    let op = opaque_spec(vb, w, h, x, y);
    let symmetric = c * sd >= d * sn && c * ed <= d * en;
    if (op || symmetric) && c * c + d * d <= range * range
        && 0 <= x < w && 0 <= y < h {
        Set::empty().insert((x, y))
    } else {
        Set::empty()
    }
}

/// One row of the octant scan, from column `c` to `maxc`. `prev` is
/// the kind of the previously scanned tile: none, wall or floor. A
/// wall-to-floor edge advances the start slope; a floor-to-wall edge
/// scans the next row early, bounded by the wall's slope; a row ending
/// in floor continues into the next row.
pub open spec fn row_spec(
    vb: Seq<bool>, w: int, h: int, ox: int, oy: int, range: int,
    oct: int, d: int, c: int, maxc: int, sn: int, sd: int, en: int, ed: int, prev: int,
) -> Set<(int, int)>
    decreases range - d, 1int, maxc - c + 1,
{
    if d < 1 || d > range || sd < 1 || ed < 1 || c < 0 {
        Set::empty()
    } else if c > maxc {
        if prev == 2 && d < range {
            scan_spec(vb, w, h, ox, oy, range, oct, d + 1, sn, sd, en, ed)
        } else {
            Set::empty()
        }
    } else {
        let off = oct_off(oct, d, c);
        let op = opaque_spec(vb, w, h, ox + off.0, oy + off.1);
        let found = tile_reveal_spec(vb, w, h, ox, oy, range, oct, d, c, sn, sd, en, ed);
        let deeper = if prev == 2 && op && c >= 1 && d < range {
            scan_spec(vb, w, h, ox, oy, range, oct, d + 1, sn, sd, 2 * c - 1, 2 * d)
        } else {
            Set::empty()
        };
        let sn2 = if prev == 1 && !op && c >= 1 { 2 * c - 1 } else { sn };
        let sd2 = if prev == 1 && !op && c >= 1 { 2 * d } else { sd };
        found + deeper + row_spec(vb, w, h, ox, oy, range, oct, d, c + 1, maxc,
            sn2, sd2, en, ed, if op { 1int } else { 2int })
    }
}

/// One row of the octant scan at depth `d`, over the columns between
/// the start and end slopes, rounding ties toward the strip's centre.
pub open spec fn scan_spec(
    vb: Seq<bool>, w: int, h: int, ox: int, oy: int, range: int,
    oct: int, d: int, sn: int, sd: int, en: int, ed: int,
) -> Set<(int, int)>
    decreases range - d, 2int, 0int,
{
    if d < 1 || d > range || sd < 1 || ed < 1 {
        Set::empty()
    } else {
        let minc = (2 * d * sn + sd) / (2 * sd);
        let maxc0 = (2 * d * en + ed - 1) / (2 * ed);
        let maxc = if maxc0 <= d { maxc0 } else { d };
        row_spec(vb, w, h, ox, oy, range, oct, d, minc, maxc, sn, sd, en, ed, 0)
    }
}

/// The full field of view from `(ox, oy)`: the origin plus eight
/// octant scans with full start and end slopes.
pub open spec fn fov_spec(
    vb: Seq<bool>, w: int, h: int, ox: int, oy: int, range: int,
) -> Set<(int, int)> {
    Set::empty().insert((ox, oy))
        + scan_spec(vb, w, h, ox, oy, range, 0, 1, 0, 1, 1, 1)
        + scan_spec(vb, w, h, ox, oy, range, 1, 1, 0, 1, 1, 1)
        + scan_spec(vb, w, h, ox, oy, range, 2, 1, 0, 1, 1, 1)
        + scan_spec(vb, w, h, ox, oy, range, 3, 1, 0, 1, 1, 1)
        + scan_spec(vb, w, h, ox, oy, range, 4, 1, 0, 1, 1, 1)
        + scan_spec(vb, w, h, ox, oy, range, 5, 1, 0, 1, 1, 1)
        + scan_spec(vb, w, h, ox, oy, range, 6, 1, 0, 1, 1, 1)
        + scan_spec(vb, w, h, ox, oy, range, 7, 1, 0, 1, 1, 1)
}

/// Recomputing a field of view under an unchanged origin, range and
/// blocking configuration yields exactly the same visible set.
pub proof fn lemma_fov_deterministic(
    r1: Seq<(i32, i32)>, r2: Seq<(i32, i32)>,
    vb: Seq<bool>, w: int, h: int, ox: int, oy: int, range: int,
)
    requires
        cell_set(r1) == fov_spec(vb, w, h, ox, oy, range),
        cell_set(r2) == fov_spec(vb, w, h, ox, oy, range),
    ensures
        cell_set(r1) == cell_set(r2),
{
}

/// Appending one cell to a list inserts its value into the cell set.
proof fn lemma_cell_set_push(s: Seq<(i32, i32)>, p: (i32, i32))
    ensures
        cell_set(s.push(p)) == cell_set(s).insert((p.0 as int, p.1 as int)),
{
    let f = |c: (i32, i32)| (c.0 as int, c.1 as int);
    s.lemma_push_map_commute(f, p);
    s.map_values(f).lemma_push_to_set_commute(f(p));
    assert(cell_set(s.push(p)) =~= cell_set(s).insert((p.0 as int, p.1 as int)));
}

/// Whether sight is obstructed at a world cell; anything off the grid
/// counts as obstructed.
fn opaque_at(vb: &Vec<bool>, w: usize, h: usize, x: i64, y: i64) -> (r: bool)
    requires
        1 <= w <= 4096,
        1 <= h <= 4096,
        vb@.len() == w * h,
        -20000 <= x <= 20000,
        -20000 <= y <= 20000,
    ensures
        r == opaque_spec(vb@, w as int, h as int, x as int, y as int),
{
    if x >= 0 && y >= 0 && x < w as i64 && y < h as i64 {
        proof {
            lemma_index_in_range(w as int, h as int, x as int, y as int);
        }
        vb[(y as usize) * w + (x as usize)]
    } else {
        true
    }
}

/// The world offset of the tile in octant `oct` at depth `d`, column `c`.
fn oct_offset(oct: u8, d: u64, c: u64) -> (r: (i64, i64))
    requires
        oct < 8,
        d <= 4096,
        c <= 4096,
    ensures
        r.0 as int == oct_off(oct as int, d as int, c as int).0,
        r.1 as int == oct_off(oct as int, d as int, c as int).1,
{
    let di = d as i64;
    let ci = c as i64;
    if oct == 0 { (ci, -di) }
    else if oct == 1 { (di, -ci) }
    else if oct == 2 { (di, ci) }
    else if oct == 3 { (ci, di) }
    else if oct == 4 { (-ci, di) }
    else if oct == 5 { (-di, ci) }
    else if oct == 6 { (-di, -ci) }
    else { (-ci, -di) }
}

/// Scan one row of one octant at depth `d`, between the start slope
/// `sn / sd` and the end slope `en / ed`, appending every revealed
/// cell, and recursing into deeper rows around opaque tiles.
#[verifier::rlimit(100)]
fn scan_octant(
    vb: &Vec<bool>, w: usize, h: usize, ox: i64, oy: i64, range: u64,
    oct: u8, d: u64, sn: u64, sd: u64, en: u64, ed: u64,
    acc: &mut Vec<(i32, i32)>,
)
    requires
        1 <= w <= 4096,
        1 <= h <= 4096,
        vb@.len() == w * h,
        0 <= ox < w,
        0 <= oy < h,
        range <= 4096,
        oct < 8,
        1 <= d <= range,
        1 <= sd <= 8192,
        sn <= 8192,
        1 <= ed <= 8192,
        en <= 8192,
    ensures
        cell_set(final(acc)@) == cell_set(old(acc)@)
            + scan_spec(vb@, w as int, h as int, ox as int, oy as int, range as int,
                oct as int, d as int, sn as int, sd as int, en as int, ed as int),
        forall |q: int| 0 <= q < final(acc)@.len()
            ==> 0 <= (#[trigger] final(acc)@[q]).0 < w && 0 <= final(acc)@[q].1 < h
                || old(acc)@.contains(final(acc)@[q]),
    decreases range - d,
{
    let ghost scan_args = (vb@, w as int, h as int, ox as int, oy as int, range as int,
        oct as int);
    proof {
        assert(2 * d * sn <= 67108864 && 2 * d * en <= 67108864) by (nonlinear_arith)
            requires d <= 4096 && sn <= 8192 && en <= 8192,
        ;
    }
    let minc: u64 = (2 * d * sn + sd) / (2 * sd);
    let maxc0: u64 = (2 * d * en + ed - 1) / (2 * ed);
    let maxc: u64 = if maxc0 <= d { maxc0 } else { d };
    proof {
        assert(scan_spec(vb@, w as int, h as int, ox as int, oy as int, range as int,
            oct as int, d as int, sn as int, sd as int, en as int, ed as int)
            == row_spec(vb@, w as int, h as int, ox as int, oy as int, range as int,
                oct as int, d as int, minc as int, maxc as int,
                sn as int, sd as int, en as int, ed as int, 0));
    }
    let mut c: u64 = minc;
    let mut cur_sn = sn;
    let mut cur_sd = sd;
    let mut prev: u8 = 0;
    let ghost acc_entry = acc@;
    while c <= maxc
        invariant
            1 <= w <= 4096,
            1 <= h <= 4096,
            vb@.len() == w * h,
            0 <= ox < w,
            0 <= oy < h,
            range <= 4096,
            oct < 8,
            1 <= d <= range,
            1 <= cur_sd <= 8192,
            cur_sn <= 8192,
            1 <= ed <= 8192,
            en <= 8192,
            maxc <= d,
            minc <= c,
            c <= maxc + 1 || c == minc,
            prev <= 2,
            c > minc ==> prev >= 1,
            cell_set(acc@) + row_spec(vb@, w as int, h as int, ox as int, oy as int,
                range as int, oct as int, d as int, c as int, maxc as int,
                cur_sn as int, cur_sd as int, en as int, ed as int, prev as int)
            == cell_set(acc_entry) + row_spec(vb@, w as int, h as int, ox as int, oy as int,
                range as int, oct as int, d as int, minc as int, maxc as int,
                sn as int, sd as int, en as int, ed as int, 0),
            forall |q: int| 0 <= q < acc@.len()
                ==> 0 <= (#[trigger] acc@[q]).0 < w && 0 <= acc@[q].1 < h
                    || acc_entry.contains(acc@[q]),
        decreases maxc + 1 - c,
    {
        let ghost row_now = row_spec(vb@, w as int, h as int, ox as int, oy as int,
            range as int, oct as int, d as int, c as int, maxc as int,
            cur_sn as int, cur_sd as int, en as int, ed as int, prev as int);
        let off = oct_offset(oct, d, c);
        let x = ox + off.0;
        let y = oy + off.1;
        let op = opaque_at(vb, w, h, x, y);
        // Reveal a wall, or a floor tile symmetric within the strip.
        proof {
            assert(c * cur_sd <= 67108864 && d * cur_sn <= 67108864
                && c * ed <= 67108864 && d * en <= 67108864
                && c * c <= 16777216 && d * d <= 16777216
                && range * range <= 16777216) by (nonlinear_arith)
                requires
                    c <= 4096 && d <= 4096 && range <= 4096
                        && cur_sd <= 8192 && cur_sn <= 8192 && ed <= 8192 && en <= 8192,
            ;
        }
        let symmetric = c * cur_sd >= d * cur_sn && c * ed <= d * en;
        if (op || symmetric) && c * c + d * d <= range * range
            && x >= 0 && y >= 0 && x < w as i64 && y < h as i64 {
            let ghost acc0 = acc@;
            acc.push((x as i32, y as i32));
            proof {
                lemma_cell_set_push(acc0, (x as i32, y as i32));
                assert(tile_reveal_spec(vb@, w as int, h as int, ox as int, oy as int,
                    range as int, oct as int, d as int, c as int,
                    cur_sn as int, cur_sd as int, en as int, ed as int)
                    == Set::empty().insert((x as int, y as int)));
                assert(cell_set(acc@) =~= cell_set(acc0) + tile_reveal_spec(vb@, w as int,
                    h as int, ox as int, oy as int, range as int, oct as int, d as int,
                    c as int, cur_sn as int, cur_sd as int, en as int, ed as int));
            }
        } else {
            proof {
                assert(tile_reveal_spec(vb@, w as int, h as int, ox as int, oy as int,
                    range as int, oct as int, d as int, c as int,
                    cur_sn as int, cur_sd as int, en as int, ed as int)
                    =~= Set::empty());
                assert(cell_set(acc@) =~= cell_set(acc@) + tile_reveal_spec(vb@, w as int,
                    h as int, ox as int, oy as int, range as int, oct as int, d as int,
                    c as int, cur_sn as int, cur_sd as int, en as int, ed as int));
            }
        }
        // A floor-to-wall edge: scan the next row up to the wall.
        if prev == 2 && op && c >= 1 && d < range {
            scan_octant(vb, w, h, ox, oy, range, oct, d + 1, cur_sn, cur_sd,
                2 * c - 1, 2 * d, acc);
        }
        // A wall-to-floor edge: the strip restarts at this tile's slope.
        if prev == 1 && !op && c >= 1 {
            cur_sn = 2 * c - 1;
            cur_sd = 2 * d;
        }
        prev = if op { 1 } else { 2 };
        c = c + 1;
        proof {
            assert(cell_set(acc@) + row_spec(vb@, w as int, h as int, ox as int, oy as int,
                range as int, oct as int, d as int, c as int, maxc as int,
                cur_sn as int, cur_sd as int, en as int, ed as int, prev as int)
                =~= cell_set(acc_entry) + row_spec(vb@, w as int, h as int, ox as int,
                    oy as int, range as int, oct as int, d as int, minc as int, maxc as int,
                    sn as int, sd as int, en as int, ed as int, 0));
        }
    }
    // A row that ends in floor carries on into the next row.
    if prev == 2 && d < range {
        scan_octant(vb, w, h, ox, oy, range, oct, d + 1, cur_sn, cur_sd, en, ed, acc);
    }
    proof {
        assert(cell_set(acc@) =~= cell_set(acc_entry)
            + scan_spec(vb@, w as int, h as int, ox as int, oy as int, range as int,
                oct as int, d as int, sn as int, sd as int, en as int, ed as int));
    }
}

/// Compute the set of grid cells visible from `origin` within the
/// circular radius `range`, by recursive shadowcasting over eight
/// octants: a tile is visible unless it lies in the shadow cast by a
/// nearer opaque tile, opacity being read from the visibility-blocked
/// bitmap. The result is exactly `fov_spec` of the inputs, so an
/// unchanged configuration always yields the same visible set.
pub fn compute_visible(
    vis_blocked: &VisibilityBlocked,
    grid: &Grid,
    origin: (usize, usize),
    range: u32,
) -> (r: Vec<(i32, i32)>)
    requires
        grid.wf(),
        vis_blocked.0@.len() == grid.count_spec(),
        origin.0 < grid.width,
        origin.1 < grid.height,
        range <= 4096,
    ensures
        cell_set(r@) == fov_spec(vis_blocked.0@, grid.width as int, grid.height as int,
            origin.0 as int, origin.1 as int, range as int),
        forall |q: int| 0 <= q < r@.len()
            ==> 0 <= (#[trigger] r@[q]).0 < grid.width && 0 <= r@[q].1 < grid.height,
{
    let w = grid.width;
    let h = grid.height;
    let ox = origin.0 as i64;
    let oy = origin.1 as i64;
    let mut acc: Vec<(i32, i32)> = Vec::new();
    acc.push((origin.0 as i32, origin.1 as i32));
    proof {
        lemma_cell_set_push(Seq::empty(), (origin.0 as i32, origin.1 as i32));
        assert(Seq::<(i32, i32)>::empty().map_values(
            |c: (i32, i32)| (c.0 as int, c.1 as int)).to_set() =~= Set::<(int, int)>::empty());
        assert(cell_set(acc@) =~= Set::empty().insert((ox as int, oy as int)));
    }
    if range == 0 {
        proof {
            assert(cell_set(acc@) =~= fov_spec(vis_blocked.0@, w as int, h as int,
                ox as int, oy as int, range as int));
        }
        return acc;
    }
    let mut oct: u8 = 0;
    while oct < 8
        invariant
            grid.wf(),
            w == grid.width,
            h == grid.height,
            vis_blocked.0@.len() == w * h,
            ox == origin.0 as i64,
            oy == origin.1 as i64,
            0 <= ox < w,
            0 <= oy < h,
            1 <= range <= 4096,
            oct <= 8,
            cell_set(acc@) == partial_fov_spec(vis_blocked.0@, w as int, h as int,
                ox as int, oy as int, range as int, oct as int),
            forall |q: int| 0 <= q < acc@.len()
                ==> 0 <= (#[trigger] acc@[q]).0 < w && 0 <= acc@[q].1 < h,
        decreases 8 - oct,
    {
        scan_octant(&vis_blocked.0, w, h, ox, oy, range as u64, oct, 1, 0, 1, 1, 1, &mut acc);
        oct = oct + 1;
        proof {
            assert(cell_set(acc@) =~= partial_fov_spec(vis_blocked.0@, w as int, h as int,
                ox as int, oy as int, range as int, oct as int));
        }
    }
    proof {
        reveal_with_fuel(partial_fov_spec, 10);
        assert(cell_set(acc@) =~= fov_spec(vis_blocked.0@, w as int, h as int,
            ox as int, oy as int, range as int));
    }
    acc
}

/// The origin plus the first `n` octant scans.
pub open spec fn partial_fov_spec(
    vb: Seq<bool>, w: int, h: int, ox: int, oy: int, range: int, n: int,
) -> Set<(int, int)>
    decreases n,
{
    if n <= 0 {
        Set::empty().insert((ox, oy))
    } else {
        partial_fov_spec(vb, w, h, ox, oy, range, n - 1)
            + scan_spec(vb, w, h, ox, oy, range, n - 1, 1, 0, 1, 1, 1)
    }
}

/// The cell, when it lies on the grid, is flagged in the bitmap.
pub open spec fn cell_marked(vb: Seq<bool>, w: int, h: int, c: (i32, i32)) -> bool {
    (0 <= c.0 < w && 0 <= c.1 < h) ==> vb[c.1 as int * w + c.0 as int]
}

/// Whether some viewshed in the list currently sees the tile with
/// row-major index `i`.
pub open spec fn seen_by_any(vs: Seq<Viewshed>, w: int, h: int, i: int) -> bool {
    exists |a: int, b: int| 0 <= a < vs.len() && 0 <= b < vs[a].visible@.len()
        && {
            let c = #[trigger] vs[a].visible@[b];
            &&& 0 <= c.0 < w
            &&& 0 <= c.1 < h
            &&& c.1 * w + c.0 == i
        }
}

/// Two viewshed lists whose entries hold the same visible cells see
/// the same tiles.
pub proof fn lemma_seen_by_any_same_views(a: Seq<Viewshed>, b: Seq<Viewshed>, w: int, h: int, i: int)
    requires
        a.len() == b.len(),
        forall |j: int| 0 <= j < a.len() ==> (#[trigger] a[j]).visible@ == b[j].visible@,
    ensures
        seen_by_any(a, w, h, i) == seen_by_any(b, w, h, i),
{
    if seen_by_any(a, w, h, i) {
        let (a2, b2) = choose |a2: int, b2: int| 0 <= a2 < a.len()
            && 0 <= b2 < a[a2].visible@.len()
            && {
                let c = #[trigger] a[a2].visible@[b2];
                &&& 0 <= c.0 < w
                &&& 0 <= c.1 < h
                &&& c.1 * w + c.0 == i
            };
        assert(b[a2].visible@[b2] == a[a2].visible@[b2]);
        assert(seen_by_any(b, w, h, i));
    }
    if seen_by_any(b, w, h, i) {
        let (a2, b2) = choose |a2: int, b2: int| 0 <= a2 < b.len()
            && 0 <= b2 < b[a2].visible@.len()
            && {
                let c = #[trigger] b[a2].visible@[b2];
                &&& 0 <= c.0 < w
                &&& 0 <= c.1 < h
                &&& c.1 * w + c.0 == i
            };
        assert(a[a2].visible@[b2] == b[a2].visible@[b2]);
        assert(seen_by_any(a, w, h, i));
    }
}

/// Rebuild the per-grid visibility snapshot from the active viewsheds:
/// the visible bitmap becomes exactly the union of the viewsheds'
/// current cells, and the revealed bitmap keeps everything it had and
/// gains the currently visible tiles. A revealed flag, once set, is
/// never cleared here: fog-of-war memory only grows.
pub fn map_visibility(
    visible: &mut VisibleTiles,
    revealed: &mut RevealedTiles,
    viewsheds: &Vec<Viewshed>,
    grid: &Grid,
)
    requires
        grid.wf(),
        old(visible).0@.len() == grid.count_spec(),
        old(revealed).0@.len() == grid.count_spec(),
    ensures
        final(visible).0@.len() == grid.count_spec(),
        final(revealed).0@.len() == grid.count_spec(),
        forall |i: int| 0 <= i < grid.count_spec()
            ==> (#[trigger] final(visible).0@[i]
                == seen_by_any(viewsheds@, grid.width as int, grid.height as int, i)),
        forall |i: int| 0 <= i < grid.count_spec()
            ==> (#[trigger] final(revealed).0@[i]
                == (old(revealed).0@[i] || final(visible).0@[i])),
        // Fog-of-war memory is monotone: nothing revealed is forgotten.
        forall |i: int| 0 <= i < grid.count_spec() && old(revealed).0@[i]
            ==> final(revealed).0@[i],
{
    let ghost wi = grid.width as int;
    let ghost hi = grid.height as int;
    let ghost rev0 = revealed.0@;
    let count = grid.count();
    // Clear the transient snapshot.
    let mut i: usize = 0;
    while i < count
        invariant
            i <= count,
            visible.0@.len() == count,
            forall |q: int| 0 <= q < i ==> !(#[trigger] visible.0@[q]),
        decreases count - i,
    {
        visible.0.set(i, false);
        i = i + 1;
    }
    // Mark the union of the viewsheds' cells.
    let mut a: usize = 0;
    while a < viewsheds.len()
        invariant
            grid.wf(),
            wi == grid.width as int,
            hi == grid.height as int,
            count == grid.count_spec(),
            a <= viewsheds@.len(),
            visible.0@.len() == count,
            revealed.0@.len() == count,
            rev0.len() == count,
            forall |i2: int| 0 <= i2 < count && #[trigger] visible.0@[i2]
                ==> seen_by_any(viewsheds@, wi, hi, i2),
            forall |a2: int, b2: int|
                0 <= a2 < a && 0 <= b2 < viewsheds@[a2].visible@.len()
                ==> cell_marked(visible.0@, wi, hi, #[trigger] viewsheds@[a2].visible@[b2]),
            forall |i2: int| 0 <= i2 < count
                ==> #[trigger] revealed.0@[i2] == (rev0[i2] || visible.0@[i2]),
        decreases viewsheds@.len() - a,
    {
        let vs = &viewsheds[a];
        let mut b: usize = 0;
        while b < vs.visible.len()
            invariant
                grid.wf(),
                wi == grid.width as int,
                hi == grid.height as int,
                count == grid.count_spec(),
                a < viewsheds@.len(),
                vs == viewsheds@[a as int],
                b <= vs.visible@.len(),
                visible.0@.len() == count,
                revealed.0@.len() == count,
                rev0.len() == count,
                forall |i2: int| 0 <= i2 < count && #[trigger] visible.0@[i2]
                    ==> seen_by_any(viewsheds@, wi, hi, i2),
                forall |a2: int, b2: int|
                    0 <= a2 < a && 0 <= b2 < viewsheds@[a2].visible@.len()
                    ==> cell_marked(visible.0@, wi, hi, #[trigger] viewsheds@[a2].visible@[b2]),
                forall |b2: int| 0 <= b2 < b
                    ==> cell_marked(visible.0@, wi, hi, #[trigger] vs.visible@[b2]),
                forall |i2: int| 0 <= i2 < count
                    ==> #[trigger] revealed.0@[i2] == (rev0[i2] || visible.0@[i2]),
            decreases vs.visible@.len() - b,
        {
            let c = vs.visible[b];
            if c.0 >= 0 && c.1 >= 0 && (c.0 as usize) < grid.width && (c.1 as usize) < grid.height {
                proof {
                    lemma_index_in_range(wi, hi, c.0 as int, c.1 as int);
                }
                let idx = (c.1 as usize) * grid.width + (c.0 as usize);
                let ghost vis0 = visible.0@;
                visible.0.set(idx, true);
                revealed.0.set(idx, true);
                proof {
                    assert(idx as int == c.1 as int * wi + c.0 as int);
                    assert(seen_by_any(viewsheds@, wi, hi, idx as int)) by {
                        assert(viewsheds@[a as int].visible@[b as int] == c);
                    }
                    assert(cell_marked(visible.0@, wi, hi, c));
                    assert forall |a2: int, b2: int|
                            0 <= a2 < a && 0 <= b2 < viewsheds@[a2].visible@.len()
                        implies cell_marked(visible.0@, wi, hi,
                            #[trigger] viewsheds@[a2].visible@[b2]) by {
                        assert(cell_marked(vis0, wi, hi, viewsheds@[a2].visible@[b2]));
                        let c2 = viewsheds@[a2].visible@[b2];
                        if 0 <= c2.0 < wi && 0 <= c2.1 < hi {
                            lemma_index_in_range(wi, hi, c2.0 as int, c2.1 as int);
                        }
                    }
                    assert forall |b2: int| 0 <= b2 < b
                        implies cell_marked(visible.0@, wi, hi,
                            #[trigger] vs.visible@[b2]) by {
                        assert(cell_marked(vis0, wi, hi, vs.visible@[b2]));
                        let c2 = vs.visible@[b2];
                        if 0 <= c2.0 < wi && 0 <= c2.1 < hi {
                            lemma_index_in_range(wi, hi, c2.0 as int, c2.1 as int);
                        }
                    }
                }
            } else {
                proof {
                    assert(!(0 <= c.0 < wi && 0 <= c.1 < hi));
                    assert(cell_marked(visible.0@, wi, hi, c));
                }
            }
            b = b + 1;
        }
        a = a + 1;
    }
    proof {
        assert forall |i2: int| 0 <= i2 < count
            implies (#[trigger] visible.0@[i2] == seen_by_any(viewsheds@, wi, hi, i2)) by {
            if seen_by_any(viewsheds@, wi, hi, i2) {
                let (a2, b2) = choose |a2: int, b2: int|
                    0 <= a2 < viewsheds@.len() && 0 <= b2 < viewsheds@[a2].visible@.len()
                    && {
                        let c = #[trigger] viewsheds@[a2].visible@[b2];
                        &&& 0 <= c.0 < wi
                        &&& 0 <= c.1 < hi
                        &&& c.1 * wi + c.0 == i2
                    };
                assert(cell_marked(visible.0@, wi, hi, viewsheds@[a2].visible@[b2]));
                assert(visible.0@[i2]);
            }
        }
    }
}

/// Mark every tile as already seen: the optional start-revealed mode
/// in which a new grid begins with its whole map known.
pub fn reveal_all(revealed: &mut RevealedTiles)
    ensures
        final(revealed).0@.len() == old(revealed).0@.len(),
        forall |i: int| 0 <= i < final(revealed).0@.len() ==> #[trigger] final(revealed).0@[i],
{
    let n = revealed.0.len();
    let mut i: usize = 0;
    while i < n
        invariant
            i <= n,
            revealed.0@.len() == n,
            forall |q: int| 0 <= q < i ==> #[trigger] revealed.0@[q],
        decreases n - i,
    {
        revealed.0.set(i, true);
        i = i + 1;
    }
}

/// Forget all fog-of-war memory: the explicit reset used when a new
/// level or game begins. This is the only way a revealed flag clears.
pub fn reset_revealed(revealed: &mut RevealedTiles)
    ensures
        final(revealed).0@.len() == old(revealed).0@.len(),
        forall |i: int| 0 <= i < final(revealed).0@.len() ==> !(#[trigger] final(revealed).0@[i]),
{
    let n = revealed.0.len();
    let mut i: usize = 0;
    while i < n
        invariant
            i <= n,
            revealed.0@.len() == n,
            forall |q: int| 0 <= q < i ==> !(#[trigger] revealed.0@[q]),
        decreases n - i,
    {
        revealed.0.set(i, false);
        i = i + 1;
    }
}

} // verus!
