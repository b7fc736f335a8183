use vstd::prelude::*;
use crate::MAX_PLAYER_ID;

verus! {

/// Upper bound on `grid_width * grid_height`; keeps every cost and
/// resource computation inside `i64`.
pub const MAX_CELLS: usize = 1000000;

/// Upper bound on `max_resources` for any player; follows from the bounds
/// on `max_resources_multiplier`, `resource_floor` and `MAX_CELLS`.
pub const MAX_RESOURCE_CAP: i64 = 1000000000;

/// Which gate decides whether a player attempts an expansion this cycle.
#[derive(Clone, Copy, Debug, PartialEq, Eq, Structural)]
pub enum ExpansionGate {
    /// Deterministic: expand whenever resources reach the minimum cost.
    ResourceFloor,
    /// Probabilistic: expand with a chance scaled by the resource ratio.
    Probabilistic,
}

/// Simulation parameters, fixed at startup.
///
/// All fractions are fixed-point values scaled by 1000 (permille), so the
/// core never touches floating point: a rate of 10 stands for 1%.
#[derive(Clone, Copy, Debug)]
pub struct GameConfig {
    /// Number of players seeded at initialization.
    pub num_players: u32,
    /// Grid width in cells.
    pub grid_width: usize,
    /// Grid height in cells.
    pub grid_height: usize,
    /// A player whose recounted area falls below this is eliminated.
    pub min_area_threshold: i64,
    /// Base interest rate, in permille per resource cycle.
    pub base_interest_rate_permille: u64,
    /// `max_resources = max(area * max_resources_multiplier, resource_floor)`.
    pub max_resources_multiplier: i64,
    /// Lower bound of the resource cap, independent of area.
    pub resource_floor: i64,
    /// Smallest investment an expansion attempt may commit.
    pub min_expansion_cost: i64,
    /// Expansion gate policy.
    pub expansion_gate: ExpansionGate,
    /// Chance, in permille, used by the probabilistic gate and by target
    /// selection.
    pub expansion_chance_permille: u64,
    /// Lower bound (inclusive) of the random investment ratio, permille.
    pub invest_ratio_min_permille: u64,
    /// Upper bound (exclusive) of the random investment ratio, permille.
    pub invest_ratio_max_permille: u64,
    /// Ticks between attack-movement advances.
    pub attack_interval: u64,
    /// Ticks between resource accruals.
    pub resource_interval: u64,
    /// Ticks between expansion attempts.
    pub expansion_interval: u64,
    /// Ticks between area recounts.
    pub area_interval: u64,
    /// Ticks between neighbor-graph refreshes.
    pub neighbor_interval: u64,
    /// Ticks between center-of-mass refreshes.
    pub center_of_mass_interval: u64,
    /// Every this many ticks the livability bonus is paid out.
    pub bonus_interval: u64,
    /// Sampling stride of the neighbor-graph scan.
    pub reduction_factor: usize,
}

impl GameConfig {
    /// Bounds that every configuration must satisfy; they keep all
    /// arithmetic of the engine inside `i64`.
    pub open spec fn wf(&self) -> bool {
        &&& self.num_players <= MAX_PLAYER_ID
        &&& 1 <= self.grid_width
        &&& 1 <= self.grid_height
        &&& self.grid_width * self.grid_height <= MAX_CELLS
        &&& 1 <= self.min_area_threshold
        &&& self.base_interest_rate_permille <= 1000
        &&& 1 <= self.max_resources_multiplier <= 1000
        &&& 1 <= self.resource_floor <= MAX_RESOURCE_CAP
        &&& 1 <= self.min_expansion_cost
        &&& self.expansion_chance_permille <= 1000
        &&& self.invest_ratio_min_permille <= self.invest_ratio_max_permille
        &&& self.invest_ratio_max_permille <= 1000
        &&& 1 <= self.attack_interval
        &&& 1 <= self.resource_interval
        &&& 1 <= self.expansion_interval
        &&& 1 <= self.area_interval
        &&& 1 <= self.neighbor_interval
        &&& 1 <= self.center_of_mass_interval
        &&& 1 <= self.bonus_interval
        &&& 1 <= self.reduction_factor
    }

    /// The largest value `max_resources` can take under this configuration.
    pub proof fn lemma_resource_cap_bound(&self, area: int)
        requires
            self.wf(),
            0 <= area <= MAX_CELLS,
        ensures
            area * self.max_resources_multiplier <= MAX_RESOURCE_CAP,
    {
        assert(area * self.max_resources_multiplier <= MAX_CELLS * 1000) by (nonlinear_arith)
            requires
                0 <= area <= MAX_CELLS,
                1 <= self.max_resources_multiplier <= 1000,
        ;
    }
}

} // verus!
