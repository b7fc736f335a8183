use vstd::prelude::*;
use crate::attack::{MoveTarget, spec_shift};
use crate::grid::{Grid, GridCell};
use crate::state::GameState;

verus! {

/// Probe `k` from `p` lands in bounds on a cell holding exactly `c`.
pub open spec fn spec_probe_hits(g: Grid, p: (usize, usize), k: int, c: GridCell) -> bool {
    (#[trigger] spec_shift(p, k, g.width as int, g.height as int)) matches Some(q)
        && g.spec_cell(q.0 as int, q.1 as int) == c
}

/// Player `id` owns a cell whose edge neighborhood holds `c`.
pub open spec fn spec_touches(g: Grid, id: u32, c: GridCell) -> bool {
    exists|p: (usize, usize), k: int|
        {
            &&& p.0 < g.width
            &&& p.1 < g.height
            &&& g.spec_cell(p.0 as int, p.1 as int) == GridCell::PlayerId(id)
            &&& 1 <= k < 5
            &&& #[trigger] spec_probe_hits(g, p, k, c)
        }
}

/// Sum of the weight entries from `from` to the end.
pub open spec fn spec_wsum(ws: Seq<(u32, u32)>, from: int) -> int
    decreases ws.len() - from,
{
    if from < 0 || from >= ws.len() {
        0
    } else {
        ws[from].1 + spec_wsum(ws, from + 1)
    }
}

proof fn lemma_wsum_nonneg(ws: Seq<(u32, u32)>, from: int)
    ensures
        spec_wsum(ws, from) >= 0,
    decreases ws.len() - from,
{
    if 0 <= from < ws.len() {
        lemma_wsum_nonneg(ws, from + 1);
    }
}

impl GameState {
    /// The coordinates of every cell a player owns.
    pub fn get_player_cells(&self, player_id: u32) -> (r: Vec<(usize, usize)>)
        requires
            self.wf(),
        ensures
            forall|p: (usize, usize)|
                r@.contains(p) <==> (p.0 < self.grid.width && p.1 < self.grid.height
                    && self.grid.spec_cell(p.0 as int, p.1 as int) == GridCell::PlayerId(
                    player_id,
                )),
    {
        broadcast use vstd::seq_lib::lemma_seq_contains_after_push;

        let mut r: Vec<(usize, usize)> = Vec::new();
        let mut y: usize = 0;
        while y < self.grid.height
            invariant
                self.wf(),
                y <= self.grid.height,
                forall|p: (usize, usize)|
                    r@.contains(p) <==> (p.0 < self.grid.width && p.1 < y
                        && self.grid.spec_cell(p.0 as int, p.1 as int) == GridCell::PlayerId(
                        player_id,
                    )),
            decreases self.grid.height - y,
        {
            let mut x: usize = 0;
            while x < self.grid.width
                invariant
                    self.wf(),
                    y < self.grid.height,
                    x <= self.grid.width,
                    forall|p: (usize, usize)|
                        r@.contains(p) <==> ((p.0 < self.grid.width && p.1 < y
                            && self.grid.spec_cell(p.0 as int, p.1 as int) == GridCell::PlayerId(
                            player_id,
                        )) || (p.1 == y && p.0 < x && self.grid.spec_cell(p.0 as int, p.1 as int)
                            == GridCell::PlayerId(player_id))),
                decreases self.grid.width - x,
            {
                let ghost r0 = r@;
                let c: GridCell = self.grid.get(x, y);
                if c == (GridCell::PlayerId(player_id)) {
                    r.push((x, y));
                }
                proof {
                    assert forall|p: (usize, usize)|
                        r@.contains(p) <==> ((p.0 < self.grid.width && p.1 < y
                            && self.grid.spec_cell(p.0 as int, p.1 as int) == GridCell::PlayerId(
                            player_id,
                        )) || (p.1 == y && p.0 < x + 1 && self.grid.spec_cell(
                            p.0 as int,
                            p.1 as int,
                        ) == GridCell::PlayerId(player_id))) by {
                        if c == GridCell::PlayerId(player_id) {
                            vstd::seq_lib::lemma_seq_contains_after_push(r0, (x, y), p);
                        }
                        if p.1 == y && p.0 < x + 1 && !(p.0 < x) {
                            assert(p == (x, y));
                        }
                    }
                }
                x = x + 1;
            }
            proof {
                assert forall|p: (usize, usize)|
                    r@.contains(p) <==> (p.0 < self.grid.width && p.1 < y + 1
                        && self.grid.spec_cell(p.0 as int, p.1 as int) == GridCell::PlayerId(
                        player_id,
                    )) by {}
            }
            y = y + 1;
        }
        r
    }

    /// Pick a target next to a player's territory: empty space with the
    /// configured chance when any borders it, otherwise an adjacent
    /// opponent weighted by how often it borders. Whatever comes back
    /// really borders the territory, and nothing comes back only for a
    /// player whose territory borders neither empty space nor an
    /// opponent.
    pub fn find_random_neighbor(&mut self, player_id: u32) -> (r: Option<MoveTarget>)
        requires
            old(self).wf(),
        ensures
            final(self).wf(),
            *final(self) == (GameState { rng: final(self).rng, ..*old(self) }),
            r matches Some(t) ==> match t {
                MoveTarget::EmptySpace => spec_touches(
                    old(self).grid,
                    player_id,
                    GridCell::Available,
                ),
                MoveTarget::Enemy(e) => e != player_id && spec_touches(
                    old(self).grid,
                    player_id,
                    GridCell::PlayerId(e),
                ),
            },
            r is None ==> !spec_touches(old(self).grid, player_id, GridCell::Available) && (
            forall|e: u32|
                e != player_id ==> !spec_touches(
                    old(self).grid,
                    player_id,
                    GridCell::PlayerId(e),
                )),
    {
        let cells: Vec<(usize, usize)> = self.get_player_cells(player_id);
        let mut weights: Vec<(u32, u32)> = Vec::new();
        let mut has_empty_space: bool = false;
        let len: usize = cells.len();
        let mut i: usize = 0;
        while i < len
            invariant
                self.wf(),
                *self == *old(self),
                len == cells@.len(),
                i <= len,
                forall|p: (usize, usize)|
                    cells@.contains(p) <==> (p.0 < self.grid.width && p.1 < self.grid.height
                        && self.grid.spec_cell(p.0 as int, p.1 as int) == GridCell::PlayerId(
                        player_id,
                    )),
                has_empty_space ==> spec_touches(self.grid, player_id, GridCell::Available),
                forall|j: int|
                    0 <= j < weights@.len() ==> (#[trigger] weights@[j]).0 != player_id
                        && spec_touches(
                        self.grid,
                        player_id,
                        GridCell::PlayerId(weights@[j].0),
                    ),
                forall|j: int| 0 <= j < weights@.len() ==> (#[trigger] weights@[j]).1 >= 1,
                !has_empty_space ==> forall|a: int, kk: int|
                    0 <= a < i && 1 <= kk < 5 ==> !(#[trigger] spec_probe_hits(
                        self.grid,
                        cells@[a],
                        kk,
                        GridCell::Available,
                    )),
                forall|a: int, kk: int, e: u32|
                    0 <= a < i && 1 <= kk < 5 && e != player_id && #[trigger] spec_probe_hits(
                        self.grid,
                        cells@[a],
                        kk,
                        GridCell::PlayerId(e),
                    ) ==> exists|j: int|
                        0 <= j < weights@.len() && (#[trigger] weights@[j]).0 == e,
            decreases len - i,
        {
            let p: (usize, usize) = cells[i];
            proof {
                assert(cells@.contains(cells@[i as int]));
            }
            let mut k: usize = 1;
            while k < 5
                invariant
                    self.wf(),
                    *self == *old(self),
                    p.0 < self.grid.width,
                    p.1 < self.grid.height,
                    self.grid.spec_cell(p.0 as int, p.1 as int) == GridCell::PlayerId(player_id),
                    1 <= k <= 5,
                    has_empty_space ==> spec_touches(self.grid, player_id, GridCell::Available),
                    forall|j: int|
                        0 <= j < weights@.len() ==> (#[trigger] weights@[j]).0 != player_id
                            && spec_touches(
                            self.grid,
                            player_id,
                            GridCell::PlayerId(weights@[j].0),
                        ),
                    forall|j: int| 0 <= j < weights@.len() ==> (#[trigger] weights@[j]).1 >= 1,
                    i < len,
                    p == cells@[i as int],
                    len == cells@.len(),
                    !has_empty_space ==> forall|a: int, kk: int|
                        ((0 <= a < i && 1 <= kk < 5) || (a == i && 1 <= kk < k)) ==> !(
                        #[trigger] spec_probe_hits(
                            self.grid,
                            cells@[a],
                            kk,
                            GridCell::Available,
                        )),
                    forall|a: int, kk: int, e: u32|
                        ((0 <= a < i && 1 <= kk < 5) || (a == i && 1 <= kk < k)) && e != player_id
                            && #[trigger] spec_probe_hits(
                            self.grid,
                            cells@[a],
                            kk,
                            GridCell::PlayerId(e),
                        ) ==> exists|j: int|
                            0 <= j < weights@.len() && (#[trigger] weights@[j]).0 == e,
                decreases 5 - k,
            {
                let ghost w0 = weights@;
                match crate::territory::shift_probe(&self.grid, p, k) {
                    Some(c) => {
                        proof {
                            assert(spec_probe_hits(self.grid, p, k as int, c));
                            assert forall|c2: GridCell|
                                c2 != c implies !spec_probe_hits(
                                self.grid,
                                p,
                                k as int,
                                c2,
                            ) by {}
                        }
                        match c {
                            GridCell::Available => {
                                has_empty_space = true;
                            },
                            GridCell::PlayerId(nid) => {
                                if nid != player_id {
                                    bump_weight(&mut weights, nid);
                                    proof {
                                        assert(spec_touches(
                                            self.grid,
                                            player_id,
                                            GridCell::PlayerId(nid),
                                        ));
                                        assert forall|j: int|
                                            0 <= j < weights@.len() implies (
                                        #[trigger] weights@[j]).0 != player_id && spec_touches(
                                            self.grid,
                                            player_id,
                                            GridCell::PlayerId(weights@[j].0),
                                        ) by {
                                            if j < w0.len() {
                                                assert(weights@[j].0 == w0[j].0);
                                            } else {
                                                assert(weights@[j].0 == nid);
                                            }
                                        }
                                        assert forall|a: int, kk: int, e: u32|
                                            ((0 <= a < i && 1 <= kk < 5) || (a == i && 1 <= kk < k
                                                + 1)) && e != player_id
                                                && #[trigger] spec_probe_hits(
                                                self.grid,
                                                cells@[a],
                                                kk,
                                                GridCell::PlayerId(e),
                                            ) implies exists|j: int|
                                            0 <= j < weights@.len() && (#[trigger] weights@[j]).0
                                                == e by {
                                            if a == i && kk == k {
                                                assert(e == nid);
                                            } else {
                                                let j = choose|j: int|
                                                    0 <= j < w0.len() && (#[trigger] w0[j]).0
                                                        == e;
                                                assert(weights@[j].0 == e);
                                            }
                                        }
                                    }
                                }
                            },
                            _ => (),
                        }
                    },
                    None => (),
                }
                k = k + 1;
            }
            i = i + 1;
        }
        let ghost g = self.grid;
        let ghost wfinal = weights@;
        let ghost empty_seen = has_empty_space;
        let r: Option<MoveTarget> = self.choose_expansion_target(
            player_id,
            &weights,
            has_empty_space,
        );
        proof {
            if r is None {
                assert(!empty_seen && wfinal.len() == 0);
                assert(!spec_touches(g, player_id, GridCell::Available)) by {
                    if spec_touches(g, player_id, GridCell::Available) {
                        let (p2, k2) = choose|p2: (usize, usize), k2: int|
                            {
                                &&& p2.0 < g.width
                                &&& p2.1 < g.height
                                &&& g.spec_cell(p2.0 as int, p2.1 as int) == GridCell::PlayerId(
                                    player_id,
                                )
                                &&& 1 <= k2 < 5
                                &&& #[trigger] spec_probe_hits(
                                    g,
                                    p2,
                                    k2,
                                    GridCell::Available,
                                )
                            };
                        assert(cells@.contains(p2));
                        let a = choose|a: int| 0 <= a < cells@.len() && cells@[a] == p2;
                        assert(!spec_probe_hits(g, cells@[a], k2, GridCell::Available));
                    }
                }
                assert forall|e: u32|
                    e != player_id implies !spec_touches(
                    g,
                    player_id,
                    GridCell::PlayerId(e),
                ) by {
                    if spec_touches(g, player_id, GridCell::PlayerId(e)) {
                        let (p2, k2) = choose|p2: (usize, usize), k2: int|
                            {
                                &&& p2.0 < g.width
                                &&& p2.1 < g.height
                                &&& g.spec_cell(p2.0 as int, p2.1 as int) == GridCell::PlayerId(
                                    player_id,
                                )
                                &&& 1 <= k2 < 5
                                &&& #[trigger] spec_probe_hits(
                                    g,
                                    p2,
                                    k2,
                                    GridCell::PlayerId(e),
                                )
                            };
                        assert(cells@.contains(p2));
                        let a = choose|a: int| 0 <= a < cells@.len() && cells@[a] == p2;
                        assert(spec_probe_hits(g, cells@[a], k2, GridCell::PlayerId(e)));
                        assert(exists|j: int|
                            0 <= j < wfinal.len() && (#[trigger] wfinal[j]).0 == e);
                    }
                }
            }
        }
        r
    }

    /// The weighted decision itself: empty space when the territory
    /// borders any and either no opponent borders it or the chance draw
    /// says so; otherwise a walk through the border-frequency weights.
    fn choose_expansion_target(
        &mut self,
        player_id: u32,
        weights: &Vec<(u32, u32)>,
        has_empty_space: bool,
    ) -> (r: Option<MoveTarget>)
        requires
            old(self).wf(),
            has_empty_space ==> spec_touches(old(self).grid, player_id, GridCell::Available),
            forall|j: int|
                0 <= j < weights@.len() ==> (#[trigger] weights@[j]).0 != player_id
                    && spec_touches(
                    old(self).grid,
                    player_id,
                    GridCell::PlayerId(weights@[j].0),
                ),
            forall|j: int| 0 <= j < weights@.len() ==> (#[trigger] weights@[j]).1 >= 1,
        ensures
            final(self).wf(),
            *final(self) == (GameState { rng: final(self).rng, ..*old(self) }),
            r matches Some(t) ==> match t {
                MoveTarget::EmptySpace => spec_touches(
                    old(self).grid,
                    player_id,
                    GridCell::Available,
                ),
                MoveTarget::Enemy(e) => e != player_id && spec_touches(
                    old(self).grid,
                    player_id,
                    GridCell::PlayerId(e),
                ),
            },
            r is None ==> !has_empty_space && weights@.len() == 0,
    {
        let chance: u64 = self.config.expansion_chance_permille;
        if has_empty_space {
            if weights.len() == 0 {
                return Some(MoveTarget::EmptySpace);
            }
            let draw: u64 = self.rng.draw_below(1000);
            if draw < chance {
                return Some(MoveTarget::EmptySpace);
            }
        }
        if weights.len() == 0 {
            return None;
        }
        let wlen: usize = weights.len();
        let mut total: u128 = 0;
        let mut j: usize = wlen;
        while j > 0
            invariant
                wlen == weights@.len(),
                j <= wlen,
                total == spec_wsum(weights@, j as int),
                total <= (wlen - j) * 0x100000000,
            decreases j,
        {
            proof {
                assert(total + weights@[j - 1] .1 <= (wlen - j + 1) * 0x100000000)
                    by (nonlinear_arith)
                    requires
                        total <= (wlen - j) * 0x100000000,
                        weights@[j - 1] .1 < 0x100000000,
                ;
            }
            j = j - 1;
            total = (weights[j].1 as u128) + total;
        }
        proof {
            lemma_wsum_nonneg(weights@, 1);
            assert(total >= weights@[0].1);
        }
        if total > 0x100000000 {
            // A degenerate weight table: fall back on the first entry.
            return Some(MoveTarget::Enemy(weights[0].0));
        }
        let mut choice: u64 = self.rng.draw_below(total as u64);
        let mut l: usize = 0;
        while l < wlen
            invariant
                wlen == weights@.len(),
                l <= wlen,
                (choice as int) < spec_wsum(weights@, l as int),
                forall|u: int|
                    0 <= u < wlen ==> (#[trigger] weights@[u]).0 != player_id && spec_touches(
                        old(self).grid,
                        player_id,
                        GridCell::PlayerId(weights@[u].0),
                    ),
                self.wf(),
                *self == (GameState { rng: self.rng, ..*old(self) }),
            decreases wlen - l,
        {
            let w: u64 = weights[l].1 as u64;
            if choice < w {
                return Some(MoveTarget::Enemy(weights[l].0));
            }
            proof {
                lemma_wsum_nonneg(weights@, l + 1int);
            }
            choice = choice - w;
            l = l + 1;
        }
        proof {
            // The walk cannot fall off the end: past the last entry the
            // remaining weight is zero, yet the draw still undercuts it.
            assert(spec_wsum(weights@, wlen as int) == 0);
            assert(false);
        }
        None
    }
}

/// The grid cell one step from `p` in direction `k`, if in bounds.
fn shift_probe(grid: &Grid, p: (usize, usize), k: usize) -> (r: Option<GridCell>)
    requires
        grid.wf(),
        p.0 < grid.width,
        p.1 < grid.height,
        1 <= k < 5,
    ensures
        ({
            match spec_shift(p, k as int, grid.width as int, grid.height as int) {
                Some(q) => r == Some(grid.spec_cell(q.0 as int, q.1 as int)),
                None => r is None,
            }
        }),
{
    let x: usize = p.0;
    let y: usize = p.1;
    let q: Option<(usize, usize)> = if k == 1 {
        if x + 1 < grid.width {
            Some((x + 1, y))
        } else {
            None
        }
    } else if k == 2 {
        if x >= 1 {
            Some((x - 1, y))
        } else {
            None
        }
    } else if k == 3 {
        if y + 1 < grid.height {
            Some((x, y + 1))
        } else {
            None
        }
    } else {
        if y >= 1 {
            Some((x, y - 1))
        } else {
            None
        }
    };
    match q {
        Some(c) => Some(grid.get(c.0, c.1)),
        None => None,
    }
}

/// Count one more border contact for `nid` in the weight table.
fn bump_weight(weights: &mut Vec<(u32, u32)>, nid: u32)
    requires
        forall|j: int| 0 <= j < old(weights)@.len() ==> (#[trigger] old(weights)@[j]).1 >= 1,
    ensures
        forall|j: int|
            0 <= j < old(weights)@.len() ==> (#[trigger] final(weights)@[j]).0 == old(
                weights,
            )@[j].0,
        final(weights)@.len() == old(weights)@.len() || (final(weights)@.len() == old(
            weights,
        )@.len() + 1 && final(weights)@[old(weights)@.len() as int].0 == nid),
        forall|j: int| 0 <= j < final(weights)@.len() ==> (#[trigger] final(weights)@[j]).1 >= 1,
        exists|j: int| 0 <= j < final(weights)@.len() && (#[trigger] final(weights)@[j]).0 == nid,
{
    let len: usize = weights.len();
    let mut i: usize = 0;
    while i < len
        invariant
            len == weights@.len(),
            i <= len,
            weights@ == old(weights)@,
            forall|j: int| 0 <= j < weights@.len() ==> (#[trigger] weights@[j]).1 >= 1,
        decreases len - i,
    {
        if weights[i].0 == nid {
            let w: (u32, u32) = weights[i];
            let bumped: u32 = if w.1 < 0xffffffff {
                w.1 + 1
            } else {
                w.1
            };
            weights.set(i, (nid, bumped));
            proof {
                assert(final(weights)@[i as int].0 == nid);
            }
            return ;
        }
        i = i + 1;
    }
    weights.push((nid, 1));
    proof {
        assert(weights@[weights@.len() - 1].0 == nid);
    }
}

} // verus!
