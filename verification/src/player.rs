use vstd::prelude::*;
use vstd::arithmetic::div_mod::{lemma_multiply_divide_le, lemma_div_pos_is_pos};
use crate::config::{GameConfig, ExpansionGate, MAX_RESOURCE_CAP};
use crate::config::MAX_CELLS;
use crate::attack::MoveTarget;
use crate::MAX_PLAYER_ID;

verus! {

/// `max_resources(area)`: the resource cap grows with territory but never
/// falls below the configured floor.
pub open spec fn spec_max_resources(area: int, cfg: GameConfig) -> int {
    if area * cfg.max_resources_multiplier > cfg.resource_floor {
        area * cfg.max_resources_multiplier
    } else {
        cfg.resource_floor as int
    }
}

/// Damping factor `max(1 - (res/maxr)^2, 0)` in permille, written over
/// integers: `floor(1000 * (maxr^2 - res^2) / maxr^2)`.
pub open spec fn spec_damp_permille(res: int, maxr: int) -> int {
    ((maxr * maxr - res * res) * 1000) / (maxr * maxr)
}

/// Effective interest rate in permille: `base_rate * damping`.
pub open spec fn spec_interest_rate_permille(p: Player, cfg: GameConfig) -> int {
    (p.base_interest_rate_permille * spec_damp_permille(
        p.resources as int,
        spec_max_resources(p.area as int, cfg),
    )) / 1000
}

/// Interest earned in one resource cycle: `floor(res * rate)`.
pub open spec fn spec_interest(p: Player, cfg: GameConfig) -> int {
    (p.resources * spec_interest_rate_permille(p, cfg)) / 1000
}

/// Resources after one accrual: `min(res + area + interest, maxr)`.
pub open spec fn spec_updated_resources(p: Player, cfg: GameConfig) -> int {
    let sum = p.resources + p.area + spec_interest(p, cfg);
    let maxr = spec_max_resources(p.area as int, cfg);
    if sum > maxr {
        maxr
    } else {
        sum
    }
}

/// Per-agent economic state.
#[derive(Clone, Copy, Debug)]
pub struct Player {
    pub id: u32,
    /// Seed position of the starting territory.
    pub x: usize,
    pub y: usize,
    pub resources: i64,
    /// Owned-cell count as of the last recount; never tracked incrementally.
    pub area: i64,
    pub base_interest_rate_permille: u64,
    /// Center of mass of the territory, in thousandths of a cell.
    pub center_x_milli: u64,
    pub center_y_milli: u64,
    /// Mean livability of the territory, in permille.
    pub average_land_value_permille: u64,
}

/// Snapshot of the fields broadcast on the player-info channel.
#[derive(Clone, Copy, Debug, PartialEq, Eq, Structural)]
pub struct PlayerInfo {
    pub id: u32,
    pub resources: i64,
    pub center_x_milli: u64,
    pub center_y_milli: u64,
}

impl Player {
    /// Economic validity: resources stay inside `[0, max_resources(area)]`,
    /// the area is a positive cell count, and all rates are permille values.
    pub open spec fn wf(&self, cfg: GameConfig) -> bool {
        &&& 1 <= self.id <= MAX_PLAYER_ID
        &&& self.x < cfg.grid_width
        &&& self.y < cfg.grid_height
        &&& 1 <= self.area <= cfg.grid_width * cfg.grid_height
        &&& 0 <= self.resources <= spec_max_resources(self.area as int, cfg)
        &&& self.base_interest_rate_permille <= 1000
        &&& self.average_land_value_permille <= 1000
        &&& self.center_x_milli <= 1000 * cfg.grid_width
        &&& self.center_y_milli <= 1000 * cfg.grid_height
    }

    /// A fresh player: 1000 starting resources, a counted area of 1, the
    /// configured base interest rate, centered on its seed cell.
    pub fn new(id: u32, x: usize, y: usize, cfg: &GameConfig) -> (r: Player)
        requires
            cfg.wf(),
            1 <= id <= MAX_PLAYER_ID,
            x < cfg.grid_width,
            y < cfg.grid_height,
            cfg.resource_floor >= 1000,
        ensures
            r.wf(*cfg),
            r.id == id,
            r.x == x,
            r.y == y,
            r.resources == 1000,
            r.area == 1,
            r.base_interest_rate_permille == cfg.base_interest_rate_permille,
            r.center_x_milli == 1000 * x,
            r.center_y_milli == 1000 * y,
            r.average_land_value_permille == 1000,
    {
        proof {
            assert(cfg.grid_width <= MAX_CELLS && cfg.grid_height <= MAX_CELLS) by (nonlinear_arith)
                requires
                    cfg.grid_width * cfg.grid_height <= MAX_CELLS,
                    1 <= cfg.grid_width,
                    1 <= cfg.grid_height,
            ;
            assert(1000 * x <= 1000 * cfg.grid_width) by (nonlinear_arith)
                requires
                    x < cfg.grid_width,
            ;
            assert(1000 * y <= 1000 * cfg.grid_height) by (nonlinear_arith)
                requires
                    y < cfg.grid_height,
            ;
            assert(1 * cfg.max_resources_multiplier == cfg.max_resources_multiplier);
            assert(1 <= cfg.grid_width * cfg.grid_height) by (nonlinear_arith)
                requires
                    1 <= cfg.grid_width,
                    1 <= cfg.grid_height,
            ;
        }
        Player {
            id,
            x,
            y,
            resources: 1000,
            area: 1,
            base_interest_rate_permille: cfg.base_interest_rate_permille,
            center_x_milli: 1000 * (x as u64),
            center_y_milli: 1000 * (y as u64),
            average_land_value_permille: 1000,
        }
    }

    /// The broadcast view of this player.
    pub fn to_info(&self) -> (r: PlayerInfo)
        ensures
            r.id == self.id,
            r.resources == self.resources,
            r.center_x_milli == self.center_x_milli,
            r.center_y_milli == self.center_y_milli,
    {
        PlayerInfo {
            id: self.id,
            resources: self.resources,
            center_x_milli: self.center_x_milli,
            center_y_milli: self.center_y_milli,
        }
    }

    /// Resource cap for the current area.
    pub fn max_resources(&self, cfg: &GameConfig) -> (r: i64)
        requires
            cfg.wf(),
            1 <= self.area <= MAX_CELLS,
        ensures
            r == spec_max_resources(self.area as int, *cfg),
            cfg.resource_floor <= r <= MAX_RESOURCE_CAP,
    {
        proof {
            cfg.lemma_resource_cap_bound(self.area as int);
        }
        let scaled: i64 = self.area * cfg.max_resources_multiplier;
        if scaled > cfg.resource_floor {
            scaled
        } else {
            cfg.resource_floor
        }
    }

    /// The effective interest rate in permille: the base rate damped
    /// quadratically as resources approach the cap.
    pub fn interest_rate_permille(&self, cfg: &GameConfig) -> (r: u64)
        requires
            self.wf(*cfg),
            cfg.wf(),
        ensures
            r == spec_interest_rate_permille(*self, *cfg),
            r <= 1000,
    {
        let maxr: i64 = self.max_resources(cfg);
        let res: i64 = self.resources;
        proof {
            assert((maxr as int) * (maxr as int) <= 1000000000000000000) by (nonlinear_arith)
                requires
                    0 <= maxr <= 1000000000,
            ;
            assert((res as int) * (res as int) <= 1000000000000000000) by (nonlinear_arith)
                requires
                    0 <= res <= 1000000000,
            ;
        }
        let m2: u128 = (maxr as u128) * (maxr as u128);
        let r2: u128 = (res as u128) * (res as u128);
        proof {
            assert(res * res <= maxr * maxr) by (nonlinear_arith)
                requires
                    0 <= res <= maxr,
            ;
            assert(m2 > 0) by (nonlinear_arith)
                requires
                    maxr >= 1,
                    m2 == maxr * maxr,
            ;
        }
        let damp: u128 = ((m2 - r2) * 1000) / m2;
        proof {
            assert((m2 - r2) * 1000 <= m2 * 1000) by (nonlinear_arith)
                requires
                    r2 >= 0,
            ;
            lemma_div_pos_is_pos(((m2 - r2) * 1000) as int, m2 as int);
            lemma_multiply_divide_le(((m2 - r2) * 1000) as int, m2 as int, 1000);
            assert((self.base_interest_rate_permille as int) * (damp as int) <= 1000000)
                by (nonlinear_arith)
                requires
                    self.base_interest_rate_permille <= 1000,
                    0 <= damp <= 1000,
            ;
        }
        let rate: u128 = ((self.base_interest_rate_permille as u128) * damp) / 1000;
        proof {
            lemma_multiply_divide_le(
                (self.base_interest_rate_permille * damp) as int,
                1000,
                1000,
            );
            lemma_div_pos_is_pos((self.base_interest_rate_permille * damp) as int, 1000);
        }
        rate as u64
    }

    /// One interest accrual: gain `area + floor(res * rate)`, where the rate
    /// damps itself quadratically as resources approach the cap, then clamp
    /// at the cap. The cap is never exceeded and resources never go negative.
    pub fn update_resources(&mut self, cfg: &GameConfig)
        requires
            old(self).wf(*cfg),
            cfg.wf(),
        ensures
            final(self).wf(*cfg),
            *final(self) == (Player { resources: final(self).resources, ..*old(self) }),
            final(self).resources == spec_updated_resources(*old(self), *cfg),
            0 <= final(self).resources <= spec_max_resources(final(self).area as int, *cfg),
    {
        let maxr: i64 = self.max_resources(cfg);
        let res: i64 = self.resources;
        proof {
            assert((maxr as int) * (maxr as int) <= 1000000000000000000) by (nonlinear_arith)
                requires
                    0 <= maxr <= 1000000000,
            ;
            assert((res as int) * (res as int) <= 1000000000000000000) by (nonlinear_arith)
                requires
                    0 <= res <= 1000000000,
            ;
        }
        let m2: u128 = (maxr as u128) * (maxr as u128);
        let r2: u128 = (res as u128) * (res as u128);
        proof {
            assert(res * res <= maxr * maxr) by (nonlinear_arith)
                requires
                    0 <= res <= maxr,
            ;
            assert(m2 > 0) by (nonlinear_arith)
                requires
                    maxr >= 1,
                    m2 == maxr * maxr,
            ;
        }
        let damp: u128 = ((m2 - r2) * 1000) / m2;
        proof {
            assert((m2 - r2) * 1000 <= m2 * 1000) by (nonlinear_arith)
                requires
                    r2 >= 0,
            ;
            lemma_div_pos_is_pos(((m2 - r2) * 1000) as int, m2 as int);
            lemma_multiply_divide_le(((m2 - r2) * 1000) as int, m2 as int, 1000);
            assert((self.base_interest_rate_permille as int) * (damp as int) <= 1000000)
                by (nonlinear_arith)
                requires
                    self.base_interest_rate_permille <= 1000,
                    0 <= damp <= 1000,
            ;
        }
        let rate: u128 = ((self.base_interest_rate_permille as u128) * damp) / 1000;
        proof {
            assert(self.base_interest_rate_permille * damp <= 1000 * 1000) by (nonlinear_arith)
                requires
                    self.base_interest_rate_permille <= 1000,
                    0 <= damp <= 1000,
            ;
            lemma_multiply_divide_le(
                (self.base_interest_rate_permille * damp) as int,
                1000,
                1000,
            );
            assert((res as int) * (rate as int) <= 1000 * res) by (nonlinear_arith)
                requires
                    0 <= res,
                    0 <= rate <= 1000,
            ;
        }
        let interest: u128 = ((res as u128) * rate) / 1000;
        proof {
            lemma_multiply_divide_le((res * rate) as int, 1000, res as int);
            lemma_div_pos_is_pos((res * rate) as int, 1000);
        }
        let gain: i64 = self.area + (interest as i64);
        let sum: i64 = res + gain;
        self.resources = if sum > maxr {
            maxr
        } else {
            sum
        };
    }

    /// The expansion gate: either the deterministic resource floor or a
    /// draw against a chance scaled by the resource ratio.
    pub fn try_expand(&self, cfg: &GameConfig, draw: u64) -> (r: bool)
        requires
            self.wf(*cfg),
            cfg.wf(),
            draw < 1000,
        ensures
            r == spec_try_expand(*self, *cfg, draw),
    {
        match cfg.expansion_gate {
            ExpansionGate::ResourceFloor => self.resources >= cfg.min_expansion_cost,
            ExpansionGate::Probabilistic => {
                let maxr: i64 = self.max_resources(cfg);
                proof {
                    assert(self.resources * 1000 <= maxr * 1000) by (nonlinear_arith)
                        requires
                            0 <= self.resources <= maxr,
                    ;
                }
                let scaled: i64 = self.resources * 1000;
                proof {
                    assert(self.resources * 1000 <= maxr * 1000) by (nonlinear_arith)
                        requires
                            0 <= self.resources <= maxr,
                    ;
                    lemma_multiply_divide_le(self.resources * 1000, maxr as int, 1000);
                    lemma_div_pos_is_pos(self.resources * 1000, maxr as int);
                }
                let ratio: i64 = scaled / maxr;
                proof {
                    assert((cfg.expansion_chance_permille as int) * (ratio as int) <= 1000000)
                        by (nonlinear_arith)
                        requires
                            cfg.expansion_chance_permille <= 1000,
                            0 <= ratio <= 1000,
                    ;
                }
                let threshold: u64 = (cfg.expansion_chance_permille * (ratio as u64)) / 1000;
                draw < threshold
            },
        }
    }

    /// Pick an investment from the configured ratio range:
    /// `floor(res * ratio / 1000)` for a ratio drawn in
    /// `[invest_ratio_min, invest_ratio_max)`, floored at the minimum
    /// expansion cost and capped at the current resources.
    pub fn calculate_expansion_investment(&self, cfg: &GameConfig, ratio_draw: u64) -> (r: i64)
        requires
            self.wf(*cfg),
            cfg.wf(),
        ensures
            r == spec_investment(*self, *cfg, ratio_draw),
            0 <= r <= self.resources,
            self.resources >= cfg.min_expansion_cost ==> r >= cfg.min_expansion_cost,
    {
        let span: u64 = cfg.invest_ratio_max_permille - cfg.invest_ratio_min_permille;
        let ratio: u64 = if span == 0 {
            cfg.invest_ratio_min_permille
        } else {
            cfg.invest_ratio_min_permille + ratio_draw % span
        };
        proof {
            assert(ratio <= 1000);
            cfg.lemma_resource_cap_bound(self.area as int);
            assert(self.resources * ratio <= 1000 * self.resources) by (nonlinear_arith)
                requires
                    0 <= self.resources,
                    0 <= ratio <= 1000,
            ;
            assert(1000 * self.resources <= 1000 * MAX_RESOURCE_CAP) by (nonlinear_arith)
                requires
                    0 <= self.resources <= MAX_RESOURCE_CAP,
            ;
            lemma_multiply_divide_le(self.resources * ratio, 1000, self.resources as int);
            lemma_div_pos_is_pos(self.resources * ratio, 1000);
        }
        let base: i64 = (self.resources * (ratio as i64)) / 1000;
        let floored: i64 = if base < cfg.min_expansion_cost {
            cfg.min_expansion_cost
        } else {
            base
        };
        if floored > self.resources {
            self.resources
        } else {
            floored
        }
    }

    /// Choose a target among the given neighbors and an investment for
    /// it, or decline: nothing comes back for an empty slice, a losing
    /// gate roll, or an investment below the minimum cost.
    pub fn get_target(
        &self,
        neighbors: &Vec<MoveTarget>,
        cfg: &GameConfig,
        gate_draw: u64,
        idx_draw: u64,
        ratio_draw: u64,
    ) -> (r: Option<(MoveTarget, i64)>)
        requires
            self.wf(*cfg),
            cfg.wf(),
        ensures
            r == spec_get_target(*self, neighbors@, *cfg, gate_draw, idx_draw, ratio_draw),
            r matches Some(ti) ==> {
                &&& neighbors@.contains(ti.0)
                &&& cfg.min_expansion_cost <= ti.1 <= self.resources
            },
    {
        if neighbors.len() == 0 {
            return None;
        }
        if gate_draw % 1000 >= cfg.expansion_chance_permille {
            return None;
        }
        let idx: usize = (idx_draw % (neighbors.len() as u64)) as usize;
        let target: MoveTarget = neighbors[idx];
        let investment: i64 = self.calculate_expansion_investment(cfg, ratio_draw);
        if investment >= cfg.min_expansion_cost {
            Some((target, investment))
        } else {
            None
        }
    }
}

/// Meaning of the expansion gate.
pub open spec fn spec_try_expand(p: Player, cfg: GameConfig, draw: u64) -> bool {
    match cfg.expansion_gate {
        ExpansionGate::ResourceFloor => p.resources >= cfg.min_expansion_cost,
        ExpansionGate::Probabilistic => draw < (cfg.expansion_chance_permille * ((p.resources
            * 1000) / spec_max_resources(p.area as int, cfg))) / 1000,
    }
}

/// Meaning of the drawn investment: a bounded random fraction of the
/// current resources, floored at the minimum expansion cost and capped
/// at the current resources.
pub open spec fn spec_investment(p: Player, cfg: GameConfig, ratio_draw: u64) -> int {
    let span = cfg.invest_ratio_max_permille - cfg.invest_ratio_min_permille;
    let ratio = if span == 0 {
        cfg.invest_ratio_min_permille as int
    } else {
        cfg.invest_ratio_min_permille + ratio_draw % (span as u64)
    };
    let base = (p.resources * ratio) / 1000;
    let floored = if base < cfg.min_expansion_cost {
        cfg.min_expansion_cost as int
    } else {
        base
    };
    if floored > p.resources {
        p.resources as int
    } else {
        floored
    }
}

/// Meaning of target selection.
pub open spec fn spec_get_target(
    p: Player,
    neighbors: Seq<MoveTarget>,
    cfg: GameConfig,
    gate_draw: u64,
    idx_draw: u64,
    ratio_draw: u64,
) -> Option<(MoveTarget, i64)> {
    if neighbors.len() == 0 {
        None
    } else if gate_draw % 1000 >= cfg.expansion_chance_permille {
        None
    } else {
        let target = neighbors[(idx_draw % (neighbors.len() as u64)) as int];
        let investment = spec_investment(p, cfg, ratio_draw);
        if investment >= cfg.min_expansion_cost {
            Some((target, investment as i64))
        } else {
            None
        }
    }
}

} // verus!
