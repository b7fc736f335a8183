use vstd::prelude::*;
use vstd::arithmetic::div_mod::{lemma_div_is_ordered, lemma_multiply_divide_le, lemma_div_pos_is_pos, lemma_div_by_multiple};
use vstd::seq_lib::lemma_seq_contains_after_push;
use crate::config::{GameConfig, MAX_CELLS, MAX_RESOURCE_CAP};
use crate::grid::{Grid, GridCell};
use crate::player::{Player, spec_max_resources};
use crate::world::WorldMap;

verus! {

/// What an expansion front pushes against: unclaimed space or a player.
/// Empty space is its own variant, so no numeric sentinel can collide with
/// a real player id.
#[derive(Clone, Copy, Debug, PartialEq, Eq, Structural)]
pub enum MoveTarget {
    EmptySpace,
    Enemy(u32),
}

/// A cell satisfies the predicate of a target: Available for empty space,
/// owned by the target player otherwise.
pub open spec fn matches_target(c: GridCell, t: MoveTarget) -> bool {
    match t {
        MoveTarget::EmptySpace => c is Available,
        MoveTarget::Enemy(id) => c == GridCell::PlayerId(id),
    }
}

fn matches_target_exec(c: GridCell, t: MoveTarget) -> (r: bool)
    ensures
        r == matches_target(c, t),
{
    match t {
        MoveTarget::EmptySpace => c == (GridCell::Available),
        MoveTarget::Enemy(id) => c == (GridCell::PlayerId(id)),
    }
}

/// The five probe offsets of a frontier cell, in bounds or nothing:
/// the cell itself (0), right (1), left (2), down (3), up (4).
pub open spec fn spec_shift(p: (usize, usize), k: int, w: int, h: int) -> Option<(usize, usize)> {
    let x = p.0 + (if k == 1 { 1int } else if k == 2 { -1int } else { 0int });
    let y = p.1 + (if k == 3 { 1int } else if k == 4 { -1int } else { 0int });
    if 0 <= x < w && 0 <= y < h {
        Some((x as usize, y as usize))
    } else {
        None
    }
}

fn shift_exec(x: usize, y: usize, k: usize, w: usize, h: usize) -> (r: Option<(usize, usize)>)
    requires
        x < w,
        y < h,
        k < 5,
    ensures
        r == spec_shift((x, y), k as int, w as int, h as int),
{
    if k == 1 {
        if x + 1 < w {
            Some((x + 1, y))
        } else {
            None
        }
    } else if k == 2 {
        if x >= 1 {
            Some((x - 1, y))
        } else {
            None
        }
    } else if k == 3 {
        if y + 1 < h {
            Some((x, y + 1))
        } else {
            None
        }
    } else if k == 4 {
        if y >= 1 {
            Some((x, y - 1))
        } else {
            None
        }
    } else {
        Some((x, y))
    }
}

/// The probe `k` from cell `q` lands in bounds and matches the target.
pub open spec fn matches_shifted(m: AttackMovement, g: Grid, q: (usize, usize), k: int) -> bool {
    match spec_shift(q, k, g.width as int, g.height as int) {
        Some(p) => matches_target(g.spec_cell(p.0 as int, p.1 as int), m.target),
        None => false,
    }
}

/// A cell of the initial frontier: owned by the source, with an edge
/// neighbor matching the target predicate.
pub open spec fn spec_is_start_pixel(m: AttackMovement, g: Grid, p: (usize, usize)) -> bool {
    &&& p.0 < g.width
    &&& p.1 < g.height
    &&& g.spec_cell(p.0 as int, p.1 as int) == GridCell::PlayerId(m.source)
    &&& exists|k: int| 1 <= k < 5 && matches_shifted(m, g, p, k)
}

/// A candidate of the next advance: reachable from some frontier cell
/// (including the cell itself) and matching the target predicate.
pub open spec fn spec_is_candidate(m: AttackMovement, g: Grid, p: (usize, usize)) -> bool {
    exists|j: int, k: int|
        {
            &&& 0 <= j < m.border_pixels@.len()
            &&& 0 <= k < 5
            &&& spec_shift(m.border_pixels@[j], k, g.width as int, g.height as int) == Some(p)
            &&& matches_target(g.spec_cell(p.0 as int, p.1 as int), m.target)
        }
}

/// A candidate whose witness lies strictly before probe `(j, k)` in the
/// scan order of `get_next_pixels`.
pub open spec fn spec_is_candidate_upto(
    m: AttackMovement,
    g: Grid,
    p: (usize, usize),
    j: int,
    k: int,
) -> bool {
    exists|a: int, b: int|
        {
            &&& 0 <= a < m.border_pixels@.len()
            &&& 0 <= b < 5
            &&& a < j || (a == j && b < k)
            &&& spec_shift(m.border_pixels@[a], b, g.width as int, g.height as int) == Some(p)
            &&& matches_target(g.spec_cell(p.0 as int, p.1 as int), m.target)
        }
}

/// Linear scan for a coordinate pair.
pub fn contains_pair(v: &Vec<(usize, usize)>, p: (usize, usize)) -> (r: bool)
    ensures
        r == v@.contains(p),
{
    let mut i: usize = 0;
    while i < v.len()
        invariant
            i <= v@.len(),
            forall|j: int| 0 <= j < i ==> v@[j] != p,
        decreases v@.len() - i,
    {
        let q: (usize, usize) = v[i];
        if q.0 == p.0 && q.1 == p.1 {
            assert(v@[i as int] == p);
            return true;
        }
        i = i + 1;
    }
    false
}

/// One expansion front from a source player against a target.
#[derive(Clone, Debug)]
pub struct AttackMovement {
    pub source: u32,
    pub target: MoveTarget,
    /// Resources committed and not yet spent; non-increasing over the
    /// movement's life.
    pub investment: i64,
    pub is_started: bool,
    /// The frontier: the cells whose neighborhood is probed next.
    pub border_pixels: Vec<(usize, usize)>,
}

impl AttackMovement {
    /// Structural validity against grid dimensions: a positive stake, the
    /// source never its own target, frontier coordinates in bounds.
    pub open spec fn wf(&self, width: int, height: int) -> bool {
        &&& 1 <= self.investment <= MAX_RESOURCE_CAP
        &&& self.target != MoveTarget::Enemy(self.source)
        &&& forall|i: int|
            0 <= i < self.border_pixels@.len() ==> (#[trigger] self.border_pixels@[i]).0 < width
                && self.border_pixels@[i].1 < height
    }

    /// A fresh, not yet started movement.
    pub fn new(source: u32, target: MoveTarget, investment: i64) -> (r: AttackMovement)
        ensures
            r.source == source,
            r.target == target,
            r.investment == investment,
            !r.is_started,
            r.border_pixels@.len() == 0,
    {
        AttackMovement { source, target, investment, is_started: false, border_pixels: Vec::new() }
    }

    /// One-time scan that seeds the frontier, then marks the movement
    /// started; a movement already started is left alone.
    pub fn start(&mut self, grid: &Grid)
        requires
            grid.wf(),
        ensures
            final(self).source == old(self).source,
            final(self).target == old(self).target,
            final(self).investment == old(self).investment,
            final(self).is_started,
            old(self).is_started ==> *final(self) == *old(self),
            !old(self).is_started ==> forall|p: (usize, usize)|
                final(self).border_pixels@.contains(p) <==> spec_is_start_pixel(
                    *old(self),
                    *grid,
                    p,
                ),
            old(self).wf(grid.width as int, grid.height as int) ==> final(self).wf(
                grid.width as int,
                grid.height as int,
            ),
    {
        if !self.is_started {
            let border = self.find_border_pixels(grid);
            self.border_pixels = border;
            self.is_started = true;
        }
    }

    /// Full scan for the initial frontier.
    fn find_border_pixels(&self, grid: &Grid) -> (r: Vec<(usize, usize)>)
        requires
            grid.wf(),
        ensures
            forall|p: (usize, usize)| r@.contains(p) <==> spec_is_start_pixel(*self, *grid, p),
            forall|i: int| 0 <= i < r@.len() ==> (#[trigger] r@[i]).0 < grid.width && r@[i].1
                < grid.height,
    {
        broadcast use lemma_seq_contains_after_push;

        let mut r: Vec<(usize, usize)> = Vec::new();
        let mut y: usize = 0;
        while y < grid.height
            invariant
                grid.wf(),
                y <= grid.height,
                forall|p: (usize, usize)|
                    r@.contains(p) <==> (spec_is_start_pixel(*self, *grid, p) && p.1 < y),
                forall|i: int| 0 <= i < r@.len() ==> (#[trigger] r@[i]).0 < grid.width && r@[i].1
                    < grid.height,
            decreases grid.height - y,
        {
            let mut x: usize = 0;
            while x < grid.width
                invariant
                    grid.wf(),
                    y < grid.height,
                    x <= grid.width,
                    forall|p: (usize, usize)|
                        r@.contains(p) <==> (spec_is_start_pixel(*self, *grid, p) && (p.1 < y || (
                        p.1 == y && p.0 < x))),
                    forall|i: int| 0 <= i < r@.len() ==> (#[trigger] r@[i]).0 < grid.width
                        && r@[i].1 < grid.height,
                decreases grid.width - x,
            {
                let ghost r0 = r@;
                let c: GridCell = grid.get(x, y);
                if c == (GridCell::PlayerId(self.source)) && self.has_matching_neighbor(
                    grid,
                    x,
                    y,
                ) {
                    r.push((x, y));
                    proof {
                        assert(spec_is_start_pixel(*self, *grid, (x, y)));
                        assert forall|p: (usize, usize)|
                            r@.contains(p) <==> (spec_is_start_pixel(*self, *grid, p) && (p.1 < y
                                || (p.1 == y && p.0 < x + 1))) by {
                            lemma_seq_contains_after_push(r0, (x, y), p);
                            if spec_is_start_pixel(*self, *grid, p) && (p.1 < y || (p.1 == y && p.0
                                < x + 1)) && !(p.1 < y || (p.1 == y && p.0 < x)) {
                                assert(p == (x, y));
                            }
                        }
                    }
                } else {
                    proof {
                        assert(!spec_is_start_pixel(*self, *grid, (x, y)));
                        assert forall|p: (usize, usize)|
                            r@.contains(p) <==> (spec_is_start_pixel(*self, *grid, p) && (p.1 < y
                                || (p.1 == y && p.0 < x + 1))) by {
                            if spec_is_start_pixel(*self, *grid, p) && (p.1 < y || (p.1 == y && p.0
                                < x + 1)) && !(p.1 < y || (p.1 == y && p.0 < x)) {
                                assert(p == (x, y));
                                assert(false);
                            }
                        }
                    }
                }
                x = x + 1;
            }
            proof {
                assert forall|p: (usize, usize)|
                    r@.contains(p) <==> (spec_is_start_pixel(*self, *grid, p) && p.1 < y + 1) by {
                    if spec_is_start_pixel(*self, *grid, p) && p.1 < y + 1 {
                        assert(p.0 < grid.width);
                    }
                }
            }
            y = y + 1;
        }
        r
    }

    /// Whether some edge neighbor of `(x, y)` matches the target predicate.
    fn has_matching_neighbor(&self, grid: &Grid, x: usize, y: usize) -> (r: bool)
        requires
            grid.wf(),
            x < grid.width,
            y < grid.height,
        ensures
            r == exists|k: int| 1 <= k < 5 && matches_shifted(*self, *grid, (x, y), k),
    {
        let mut k: usize = 1;
        let mut found: bool = false;
        while k < 5
            invariant
                grid.wf(),
                x < grid.width,
                y < grid.height,
                1 <= k <= 5,
                found == exists|j: int| 1 <= j < k && matches_shifted(*self, *grid, (x, y), j),
            decreases 5 - k,
        {
            match shift_exec(x, y, k, grid.width, grid.height) {
                Some(q) => {
                    if matches_target_exec(grid.get(q.0, q.1), self.target) {
                        assert(matches_shifted(*self, *grid, (x, y), k as int));
                        found = true;
                    }
                },
                None => (),
            }
            k = k + 1;
        }
        found
    }

    /// The candidates of the next advance: the union, over the frontier,
    /// of each cell and its edge neighbors that match the target predicate,
    /// deduplicated. A pure function of the movement and the grid, so
    /// recomputing it without an intervening advance changes nothing.
    pub fn get_next_pixels(&self, grid: &Grid) -> (r: Vec<(usize, usize)>)
        requires
            grid.wf(),
            self.wf(grid.width as int, grid.height as int),
        ensures
            forall|p: (usize, usize)| r@.contains(p) <==> spec_is_candidate(*self, *grid, p),
            forall|i: int, j: int| 0 <= i < j < r@.len() ==> r@[i] != r@[j],
            forall|i: int| 0 <= i < r@.len() ==> (#[trigger] r@[i]).0 < grid.width && r@[i].1
                < grid.height,
    {
        broadcast use lemma_seq_contains_after_push;

        let len: usize = self.border_pixels.len();
        let mut r: Vec<(usize, usize)> = Vec::new();
        let mut j: usize = 0;
        while j < len
            invariant
                grid.wf(),
                self.wf(grid.width as int, grid.height as int),
                j <= len,
                len == self.border_pixels@.len(),
                forall|p: (usize, usize)|
                    r@.contains(p) <==> spec_is_candidate_upto(*self, *grid, p, j as int, 0),
                forall|a: int, b: int| 0 <= a < b < r@.len() ==> r@[a] != r@[b],
                forall|i: int| 0 <= i < r@.len() ==> (#[trigger] r@[i]).0 < grid.width && r@[i].1
                    < grid.height,
            decreases len - j,
        {
            let q: (usize, usize) = self.border_pixels[j];
            let mut k: usize = 0;
            while k < 5
                invariant
                    grid.wf(),
                    self.wf(grid.width as int, grid.height as int),
                    j < len,
                    len == self.border_pixels@.len(),
                    k <= 5,
                    q == self.border_pixels@[j as int],
                    forall|p: (usize, usize)|
                        r@.contains(p) <==> spec_is_candidate_upto(
                            *self,
                            *grid,
                            p,
                            j as int,
                            k as int,
                        ),
                    forall|a: int, b: int| 0 <= a < b < r@.len() ==> r@[a] != r@[b],
                    forall|i: int| 0 <= i < r@.len() ==> (#[trigger] r@[i]).0 < grid.width
                        && r@[i].1 < grid.height,
                decreases 5 - k,
            {
                let ghost r0 = r@;
                match shift_exec(q.0, q.1, k, grid.width, grid.height) {
                    Some(p) => {
                        if matches_target_exec(grid.get(p.0, p.1), self.target) {
                            if !contains_pair(&r, p) {
                                r.push(p);
                            }
                            proof {
                                lemma_candidate_upto_step(*self, *grid, j as int, k as int, p);
                                assert forall|w: (usize, usize)|
                                    r@.contains(w) <==> spec_is_candidate_upto(
                                        *self,
                                        *grid,
                                        w,
                                        j as int,
                                        k + 1int,
                                    ) by {
                                    if r0.contains(p) {
                                        assert(r@ == r0);
                                    } else {
                                        lemma_seq_contains_after_push(r0, p, w);
                                    }
                                }
                            }
                        } else {
                            proof {
                                lemma_candidate_upto_skip(*self, *grid, j as int, k as int);
                            }
                        }
                    },
                    None => {
                        proof {
                            lemma_candidate_upto_skip(*self, *grid, j as int, k as int);
                        }
                    },
                }
                k = k + 1;
            }
            proof {
                lemma_candidate_upto_wrap(*self, *grid, j as int);
            }
            j = j + 1;
        }
        proof {
            assert forall|p: (usize, usize)| #[trigger]
                spec_is_candidate(*self, *grid, p) implies spec_is_candidate_upto(
                *self,
                *grid,
                p,
                len as int,
                0,
            ) by {
                let (a, b) = choose|a: int, b: int|
                    {
                        &&& 0 <= a < self.border_pixels@.len()
                        &&& 0 <= b < 5
                        &&& spec_shift(
                            self.border_pixels@[a],
                            b,
                            grid.width as int,
                            grid.height as int,
                        ) == Some(p)
                        &&& matches_target(
                            grid.spec_cell(p.0 as int, p.1 as int),
                            self.target,
                        )
                    };
                assert(spec_is_candidate_upto(*self, *grid, p, len as int, 0));
            }
        }
        r
    }
}

/// Total traversability, in permille, over a set of cells.
pub open spec fn spec_sum_trav(w: WorldMap, pts: Seq<(usize, usize)>) -> int
    decreases pts.len(),
{
    if pts.len() == 0 {
        0
    } else {
        spec_sum_trav(w, pts.drop_last()) + w.spec_trav(
            pts.last().0 as int,
            pts.last().1 as int,
        )
    }
}

/// The cost model of one advance over candidate cells `pts`, all permille
/// arithmetic, with `tau` the mean traversability:
/// - into empty space: source pays `n * (1 + (1 - tau))`, the ledger's
///   target side is `n`;
/// - into an opponent: from `base = n * (res/area) * (1 + (1 - tau))` and
///   `mult = 1 + res/(max_resources + 1)`, the source owes `2*base*mult`
///   and the target `base*mult`, clamped to the remaining investment and
///   the target's resources, reconciled so the source pays exactly twice
///   the target by shrinking the larger side (an odd clamped source cost
///   rounds down to keep the ratio exact), and floored at `n`.
pub open spec fn spec_costs(
    m: AttackMovement,
    pts: Seq<(usize, usize)>,
    tp: Option<Player>,
    w: WorldMap,
    cfg: GameConfig,
) -> (int, int) {
    let n = pts.len() as int;
    if n == 0 {
        (0int, 0int)
    } else {
        let tau = spec_sum_trav(w, pts) / n;
        match tp {
            None => ((n * (2000 - tau)) / 1000, n),
            Some(t) => {
                let base = (n * t.resources * (2000 - tau)) / (t.area * 1000);
                let mult = 1000 + (1000 * t.resources) / (spec_max_resources(t.area as int, cfg)
                    + 1);
                let s0 = (2 * base * mult) / 1000;
                let t0 = (base * mult) / 1000;
                let s1 = if s0 < m.investment { s0 } else { m.investment as int };
                let t1 = if t0 < t.resources { t0 } else { t.resources as int };
                let t2 = if s1 < 2 * t1 { s1 / 2 } else { t1 };
                (if 2 * t2 > n { 2 * t2 } else { n }, t2)
            },
        }
    }
}

impl AttackMovement {
    /// Cost of claiming the candidate cells `next_pixels` this advance:
    /// `(source_cost, target_cost)` per the cost model above. The source
    /// cost of a non-empty step is always at least one per candidate cell.
    pub fn get_next_pixels_costs(
        &self,
        next_pixels: &Vec<(usize, usize)>,
        target_player: Option<&Player>,
        world: &WorldMap,
        cfg: &GameConfig,
    ) -> (r: (i64, i64))
        requires
            cfg.wf(),
            world.wf(),
            next_pixels@.len() <= MAX_CELLS,
            forall|i: int|
                0 <= i < next_pixels@.len() ==> (#[trigger] next_pixels@[i]).0 < world.width
                    && next_pixels@[i].1 < world.height,
            0 <= self.investment <= MAX_RESOURCE_CAP,
            target_player matches Some(t) ==> t.wf(*cfg),
        ensures
            ({
                let tp = match target_player {
                    Some(t) => Some(*t),
                    None => None,
                };
                let sc = spec_costs(*self, next_pixels@, tp, *world, *cfg);
                &&& r.0 == sc.0
                &&& r.1 == sc.1
            }),
            next_pixels@.len() >= 1 ==> r.0 >= next_pixels@.len(),
            0 <= r.1,
            0 <= r.0,
            target_player matches Some(t) ==> r.1 <= t.resources,
            target_player is Some && next_pixels@.len() >= 1 ==> r.0 == (if 2 * r.1
                > next_pixels@.len() {
                2 * r.1
            } else {
                next_pixels@.len() as int
            }) && 2 * r.1 <= self.investment,
    {
        let n_usize: usize = next_pixels.len();
        if n_usize == 0 {
            return (0, 0);
        }
        let n: i64 = n_usize as i64;
        let sum: u64 = sum_traversability(next_pixels, world);
        proof {
            assert(spec_sum_trav(*world, next_pixels@) <= 1000 * n) by {
                lemma_sum_trav_bound(*world, next_pixels@);
            }
            assert(1000 * n == (n as int) * 1000) by (nonlinear_arith);
            lemma_multiply_divide_le(sum as int, n as int, 1000);
            lemma_div_pos_is_pos(sum as int, n as int);
        }
        let tau: i64 = (sum as i64) / n;
        match target_player {
            None => {
                proof {
                    assert(n * (2000 - tau) <= 2000000000) by (nonlinear_arith)
                        requires
                            1 <= n <= 1000000,
                            0 <= tau <= 1000,
                    ;
                    assert(n * 1000 <= n * (2000 - tau)) by (nonlinear_arith)
                        requires
                            1 <= n,
                            0 <= tau <= 1000,
                    ;
                    lemma_div_is_ordered(n * 1000, n * (2000 - tau), 1000);
                    lemma_div_by_multiple(n as int, 1000);
                    lemma_div_pos_is_pos(n * (2000 - tau), 1000);
                }
                let source_cost: i64 = (n * (2000 - tau)) / 1000;
                (source_cost, n)
            },
            Some(t) => {
                proof {
                    cfg.lemma_resource_cap_bound(t.area as int);
                    assert(n * t.resources <= 1000000000000000) by (nonlinear_arith)
                        requires
                            1 <= n <= 1000000,
                            0 <= t.resources <= 1000000000,
                    ;
                }
                let nres: i64 = n * t.resources;
                proof {
                    assert(nres * (2000 - tau) <= 2000000000000000000) by (nonlinear_arith)
                        requires
                            0 <= nres <= 1000000000000000,
                            0 <= tau <= 1000,
                    ;
                    lemma_div_pos_is_pos(nres * (2000 - tau), t.area * 1000);
                    assert(1000 <= t.area * 1000 <= 1000000000) by (nonlinear_arith)
                        requires
                            1 <= t.area <= 1000000,
                    ;
                    assert(nres * (2000 - tau) <= (t.area * 1000) * 2000000000000000)
                        by (nonlinear_arith)
                        requires
                            0 <= nres * (2000 - tau) <= 2000000000000000000,
                            1000 <= t.area * 1000,
                    ;
                    lemma_multiply_divide_le(
                        nres * (2000 - tau),
                        t.area * 1000,
                        2000000000000000,
                    );
                }
                let base: i64 = (nres * (2000 - tau)) / (t.area * 1000);
                let maxr: i64 = t.max_resources(cfg);
                proof {
                    assert(1000 * t.resources <= (maxr + 1) * 1000) by (nonlinear_arith)
                        requires
                            0 <= t.resources <= maxr,
                    ;
                    lemma_multiply_divide_le(1000 * t.resources, maxr + 1, 1000);
                    lemma_div_pos_is_pos(1000 * t.resources, maxr + 1);
                }
                let mult: i64 = 1000 + (1000 * t.resources) / (maxr + 1);
                proof {
                    assert((2 * base) * mult <= 8000000000000000000) by (nonlinear_arith)
                        requires
                            0 <= base <= 2000000000000000,
                            1000 <= mult <= 2000,
                    ;
                    assert(base * mult <= 4000000000000000000) by (nonlinear_arith)
                        requires
                            0 <= base <= 2000000000000000,
                            1000 <= mult <= 2000,
                    ;
                    lemma_div_pos_is_pos((2 * base) * mult, 1000);
                    lemma_div_pos_is_pos(base * mult, 1000);
                    assert(2 * base * mult == (2 * base) * mult) by (nonlinear_arith);
                }
                let s0: i64 = (2 * base * mult) / 1000;
                let t0: i64 = (base * mult) / 1000;
                let s1: i64 = if s0 < self.investment {
                    s0
                } else {
                    self.investment
                };
                let t1: i64 = if t0 < t.resources {
                    t0
                } else {
                    t.resources
                };
                let t2: i64 = if s1 < 2 * t1 {
                    s1 / 2
                } else {
                    t1
                };
                let source_cost: i64 = if 2 * t2 > n {
                    2 * t2
                } else {
                    n
                };
                (source_cost, t2)
            },
        }
    }
}

/// The permille sum over a candidate list is at most a thousand per cell.
proof fn lemma_sum_trav_bound(w: WorldMap, pts: Seq<(usize, usize)>)
    requires
        w.wf(),
        forall|i: int|
            0 <= i < pts.len() ==> (#[trigger] pts[i]).0 < w.width && pts[i].1 < w.height,
    ensures
        0 <= spec_sum_trav(w, pts) <= 1000 * pts.len(),
    decreases pts.len(),
{
    if pts.len() > 0 {
        lemma_sum_trav_bound(w, pts.drop_last());
        let p = pts.last();
        assert(pts[pts.len() - 1] == p);
        assert(0 <= (p.1 as int) * w.width + p.0 < w.width * w.height) by (nonlinear_arith)
            requires
                p.0 < w.width,
                p.1 < w.height,
                1 <= w.width,
                1 <= w.height,
        ;
        assert(w.spec_trav(p.0 as int, p.1 as int) <= 1000);
    }
}

/// Exact permille sum of traversability over the candidate cells.
fn sum_traversability(pts: &Vec<(usize, usize)>, world: &WorldMap) -> (r: u64)
    requires
        world.wf(),
        pts@.len() <= MAX_CELLS,
        forall|i: int|
            0 <= i < pts@.len() ==> (#[trigger] pts@[i]).0 < world.width && pts@[i].1
                < world.height,
    ensures
        r == spec_sum_trav(*world, pts@),
        r <= 1000 * pts@.len(),
{
    let mut sum: u64 = 0;
    let mut i: usize = 0;
    let len: usize = pts.len();
    while i < len
        invariant
            world.wf(),
            i <= len,
            len == pts@.len(),
            len <= MAX_CELLS,
            forall|j: int|
                0 <= j < pts@.len() ==> (#[trigger] pts@[j]).0 < world.width && pts@[j].1
                    < world.height,
            sum == spec_sum_trav(*world, pts@.take(i as int)),
            sum <= 1000 * i,
        decreases len - i,
    {
        let p: (usize, usize) = pts[i];
        let t: u64 = world.trav_at(p.0, p.1);
        proof {
            assert(pts@.take(i + 1int).drop_last() =~= pts@.take(i as int));
            assert(pts@.take(i + 1int).last() == pts@[i as int]);
        }
        sum = sum + t;
        i = i + 1;
    }
    proof {
        assert(pts@.take(len as int) =~= pts@);
    }
    sum
}

/// After probe `(j, k)` found candidate `p`, the candidates seen so far
/// are the previous ones plus `p`.
proof fn lemma_candidate_upto_step(m: AttackMovement, g: Grid, j: int, k: int, p: (usize, usize))
    requires
        0 <= j < m.border_pixels@.len(),
        0 <= k < 5,
        spec_shift(m.border_pixels@[j], k, g.width as int, g.height as int) == Some(p),
        matches_target(g.spec_cell(p.0 as int, p.1 as int), m.target),
    ensures
        forall|q: (usize, usize)|
            spec_is_candidate_upto(m, g, q, j, k + 1) <==> (spec_is_candidate_upto(m, g, q, j, k)
                || q == p),
{
    assert forall|q: (usize, usize)| #[trigger]
        spec_is_candidate_upto(m, g, q, j, k + 1) implies (spec_is_candidate_upto(m, g, q, j, k)
        || q == p) by {
        let (a, b) = choose|a: int, b: int|
            {
                &&& 0 <= a < m.border_pixels@.len()
                &&& 0 <= b < 5
                &&& a < j || (a == j && b < k + 1)
                &&& spec_shift(m.border_pixels@[a], b, g.width as int, g.height as int) == Some(q)
                &&& matches_target(g.spec_cell(q.0 as int, q.1 as int), m.target)
            };
        if a == j && b == k {
            assert(q == p);
        } else {
            assert(spec_is_candidate_upto(m, g, q, j, k));
        }
    }
    assert forall|q: (usize, usize)|
        spec_is_candidate_upto(m, g, q, j, k) || q == p implies #[trigger] spec_is_candidate_upto(
        m,
        g,
        q,
        j,
        k + 1,
    ) by {
        if q == p {
            assert(spec_is_candidate_upto(m, g, q, j, k + 1));
        } else {
            let (a, b) = choose|a: int, b: int|
                {
                    &&& 0 <= a < m.border_pixels@.len()
                    &&& 0 <= b < 5
                    &&& a < j || (a == j && b < k)
                    &&& spec_shift(m.border_pixels@[a], b, g.width as int, g.height as int)
                        == Some(q)
                    &&& matches_target(g.spec_cell(q.0 as int, q.1 as int), m.target)
                };
            assert(spec_is_candidate_upto(m, g, q, j, k + 1));
        }
    }
}

/// A probe that found nothing keeps the candidate set unchanged.
proof fn lemma_candidate_upto_skip(m: AttackMovement, g: Grid, j: int, k: int)
    requires
        0 <= j < m.border_pixels@.len(),
        0 <= k < 5,
        !(spec_shift(m.border_pixels@[j], k, g.width as int, g.height as int) matches Some(p)
            && matches_target(g.spec_cell(p.0 as int, p.1 as int), m.target)),
    ensures
        forall|q: (usize, usize)|
            spec_is_candidate_upto(m, g, q, j, k + 1) <==> spec_is_candidate_upto(m, g, q, j, k),
{
    assert forall|q: (usize, usize)| #[trigger]
        spec_is_candidate_upto(m, g, q, j, k + 1) implies spec_is_candidate_upto(
        m,
        g,
        q,
        j,
        k,
    ) by {
        let (a, b) = choose|a: int, b: int|
            {
                &&& 0 <= a < m.border_pixels@.len()
                &&& 0 <= b < 5
                &&& a < j || (a == j && b < k + 1)
                &&& spec_shift(m.border_pixels@[a], b, g.width as int, g.height as int) == Some(q)
                &&& matches_target(g.spec_cell(q.0 as int, q.1 as int), m.target)
            };
        if a == j && b == k {
            assert(false);
        } else {
            assert(spec_is_candidate_upto(m, g, q, j, k));
        }
    }
    assert forall|q: (usize, usize)| #[trigger]
        spec_is_candidate_upto(m, g, q, j, k) implies spec_is_candidate_upto(
        m,
        g,
        q,
        j,
        k + 1,
    ) by {
        let (a, b) = choose|a: int, b: int|
            {
                &&& 0 <= a < m.border_pixels@.len()
                &&& 0 <= b < 5
                &&& a < j || (a == j && b < k)
                &&& spec_shift(m.border_pixels@[a], b, g.width as int, g.height as int) == Some(q)
                &&& matches_target(g.spec_cell(q.0 as int, q.1 as int), m.target)
            };
        assert(spec_is_candidate_upto(m, g, q, j, k + 1));
    }
}

/// Exhausting the five probes of frontier cell `j` is the same as being
/// about to start frontier cell `j + 1`.
proof fn lemma_candidate_upto_wrap(m: AttackMovement, g: Grid, j: int)
    ensures
        forall|q: (usize, usize)|
            spec_is_candidate_upto(m, g, q, j, 5) <==> spec_is_candidate_upto(m, g, q, j + 1, 0),
{
    assert forall|q: (usize, usize)| #[trigger]
        spec_is_candidate_upto(m, g, q, j, 5) implies spec_is_candidate_upto(
        m,
        g,
        q,
        j + 1,
        0,
    ) by {
        let (a, b) = choose|a: int, b: int|
            {
                &&& 0 <= a < m.border_pixels@.len()
                &&& 0 <= b < 5
                &&& a < j || (a == j && b < 5)
                &&& spec_shift(m.border_pixels@[a], b, g.width as int, g.height as int) == Some(q)
                &&& matches_target(g.spec_cell(q.0 as int, q.1 as int), m.target)
            };
        assert(spec_is_candidate_upto(m, g, q, j + 1, 0));
    }
    assert forall|q: (usize, usize)| #[trigger]
        spec_is_candidate_upto(m, g, q, j + 1, 0) implies spec_is_candidate_upto(
        m,
        g,
        q,
        j,
        5,
    ) by {
        let (a, b) = choose|a: int, b: int|
            {
                &&& 0 <= a < m.border_pixels@.len()
                &&& 0 <= b < 5
                &&& a < j + 1
                &&& spec_shift(m.border_pixels@[a], b, g.width as int, g.height as int) == Some(q)
                &&& matches_target(g.spec_cell(q.0 as int, q.1 as int), m.target)
            };
        assert(spec_is_candidate_upto(m, g, q, j, 5));
    }
}

/// Recomputing the candidate set without an intervening advance yields the
/// same set: the computation is a pure function of the movement and the
/// grid, so two runs contain exactly the same cells.
pub proof fn lemma_candidates_idempotent(
    m: AttackMovement,
    g: Grid,
    r1: Seq<(usize, usize)>,
    r2: Seq<(usize, usize)>,
)
    requires
        forall|p: (usize, usize)| r1.contains(p) <==> spec_is_candidate(m, g, p),
        forall|p: (usize, usize)| r2.contains(p) <==> spec_is_candidate(m, g, p),
    ensures
        r1.to_set() == r2.to_set(),
{
    assert(r1.to_set() =~= r2.to_set());
}

} // verus!
