use vstd::prelude::*;
use vstd::arithmetic::div_mod::{lemma_multiply_divide_le, lemma_div_pos_is_pos};
use crate::config::GameConfig;
use crate::grid::{Grid, GridCell, count_owned};
use crate::neighbors::find_all_possible_targets;
use crate::player::Player;
use crate::attack::MoveTarget;
use crate::state::{GameState, players_wf, movement_refs_ok};
use crate::update::{spec_sum_liv_owned, lemma_sum_liv_owned_bound};
use crate::world::WorldMap;

verus! {

/// What a cell is before anyone claims it: terrain where the world's
/// masks say so, Available elsewhere; the mountain mask wins ties.
pub open spec fn spec_base_cell(w: WorldMap, x: int, y: int) -> GridCell {
    if w.spec_mountain(x, y) {
        GridCell::Mountain
    } else if w.spec_water(x, y) {
        GridCell::Water
    } else {
        GridCell::Available
    }
}

/// Every cell is its base value or a claimed non-terrain cell: terrain
/// stands exactly where the masks put it.
pub open spec fn spec_terrain_consistent(g: Grid, w: WorldMap) -> bool {
    forall|x: int, y: int|
        0 <= x < g.width && 0 <= y < g.height ==> ((#[trigger] g.spec_cell(x, y))
            == spec_base_cell(w, x, y) || (!w.spec_mountain(x, y) && !w.spec_water(x, y)
            && g.spec_cell(x, y) is PlayerId))
}

/// Clearance radius demanded around a new player's seed cell.
pub const PLACEMENT_CLEARANCE: i32 = 5;

/// Half-width of the starting territory block.
pub const START_TERRITORY_RADIUS: i64 = 3;

/// How many random placements are tried per player before initialization
/// gives up.
pub const MAX_PLACEMENT_ATTEMPTS: u32 = 1000;

impl Grid {
    /// Claim the in-bounds part of a square around `(x, y)` for `id`:
    /// every cell of the clipped square becomes the player's, every other
    /// cell stays as it was.
    fn claim_square(&mut self, x: usize, y: usize, radius: i64, id: u32)
        requires
            old(self).wf(),
            x < old(self).width,
            y < old(self).height,
            0 <= radius <= 1000000,
        ensures
            final(self).wf(),
            final(self).width == old(self).width,
            final(self).height == old(self).height,
            final(self).cells@.len() == old(self).cells@.len(),
            forall|c: int|
                0 <= c < old(self).cells@.len() ==> final(self).cells@[c] == old(self).cells@[c]
                    || final(self).cells@[c] == GridCell::PlayerId(id),
            forall|x2: int, y2: int|
                0 <= x2 < old(self).width && 0 <= y2 < old(self).height ==> final(self).spec_cell(
                    x2,
                    y2,
                ) == (if x - radius <= x2 <= x + radius && y - radius <= y2 <= y + radius {
                    GridCell::PlayerId(id)
                } else {
                    old(self).spec_cell(x2, y2)
                }),
    {
        proof {
            assert(self.width <= 1000000 && self.height <= 1000000) by (nonlinear_arith)
                requires
                    1 <= self.width,
                    1 <= self.height,
                    self.width * self.height <= 1000000,
            ;
        }
        let side: i64 = 2 * radius + 1;
        let mut i: i64 = 0;
        while i < side
            invariant
                self.width <= 1000000,
                self.height <= 1000000,
                self.wf(),
                self.width == old(self).width,
                self.height == old(self).height,
                self.cells@.len() == old(self).cells@.len(),
                x < self.width,
                y < self.height,
                0 <= radius <= 1000000,
                side == 2 * radius + 1,
                0 <= i <= side,
                forall|c: int|
                    0 <= c < old(self).cells@.len() ==> self.cells@[c] == old(self).cells@[c]
                        || self.cells@[c] == GridCell::PlayerId(id),
                forall|x2: int, y2: int|
                    0 <= x2 < self.width && 0 <= y2 < self.height ==> self.spec_cell(x2, y2) == (
                    if x - radius <= x2 <= x + radius && y - radius <= y2 < y - radius + i {
                        GridCell::PlayerId(id)
                    } else {
                        old(self).spec_cell(x2, y2)
                    }),
            decreases side - i,
        {
            let dy: i64 = i - radius;
            let mut k: i64 = 0;
            while k < side
                invariant
                    self.width <= 1000000,
                    self.height <= 1000000,
                    self.wf(),
                    self.width == old(self).width,
                    self.height == old(self).height,
                    self.cells@.len() == old(self).cells@.len(),
                    x < self.width,
                    y < self.height,
                    0 <= radius <= 1000000,
                    side == 2 * radius + 1,
                    0 <= i < side,
                    dy == i - radius,
                    0 <= k <= side,
                    forall|c: int|
                        0 <= c < old(self).cells@.len() ==> self.cells@[c] == old(self).cells@[c]
                            || self.cells@[c] == GridCell::PlayerId(id),
                    forall|x2: int, y2: int|
                        0 <= x2 < self.width && 0 <= y2 < self.height ==> self.spec_cell(x2, y2)
                            == (if (x - radius <= x2 <= x + radius && y - radius <= y2 < y + dy)
                            || (y2 == y + dy && x - radius <= x2 < x - radius + k) {
                            GridCell::PlayerId(id)
                        } else {
                            old(self).spec_cell(x2, y2)
                        }),
                decreases side - k,
            {
                let dx: i64 = k - radius;
                let cx: i64 = (x as i64) + dx;
                let cy: i64 = (y as i64) + dy;
                let ghost gview = *self;
                if 0 <= cx && cx < self.width as i64 && 0 <= cy && cy < self.height as i64 {
                    let ghost gpre = self.cells@;
                    self.set(cx as usize, cy as usize, GridCell::PlayerId(id));
                    proof {
                        let xi = cx as usize;
                        let yi = cy as usize;
                        let idx = (yi as int) * self.width + (xi as int);
                        self.lemma_index(xi as int, yi as int);
                        assert(self.cells@ == gpre.update(idx, GridCell::PlayerId(id)));
                        assert forall|c2: int|
                            0 <= c2 < old(self).cells@.len() implies self.cells@[c2] == old(self).cells@[c2] || self.cells@[c2] == GridCell::PlayerId(id) by {
                            if c2 != idx {
                                assert(self.cells@[c2] == gpre[c2]);
                            }
                        }
                        assert forall|x2: int, y2: int|
                            0 <= x2 < self.width && 0 <= y2 < self.height implies self.spec_cell(
                            x2,
                            y2,
                        ) == (if (x - radius <= x2 <= x + radius && y - radius <= y2 < y + dy) || (
                        y2 == y + dy && x - radius <= x2 < x - radius + k + 1) {
                            GridCell::PlayerId(id)
                        } else {
                            old(self).spec_cell(x2, y2)
                        }) by {
                            self.lemma_index(x2, y2);
                            if x2 == xi as int && y2 == yi as int {
                                assert(self.spec_cell(x2, y2) == GridCell::PlayerId(id));
                            } else {
                                gview.lemma_index_injective(x2, y2, xi as int, yi as int);
                                assert(self.cells@[y2 * self.width + x2] == gpre[y2 * self.width
                                    + x2]);
                                assert(self.spec_cell(x2, y2) == gview.spec_cell(x2, y2));
                            }
                        }
                    }
                } else {
                    proof {
                        assert forall|x2: int, y2: int|
                            0 <= x2 < self.width && 0 <= y2 < self.height implies self.spec_cell(
                            x2,
                            y2,
                        ) == (if (x - radius <= x2 <= x + radius && y - radius <= y2 < y + dy) || (
                        y2 == y + dy && x - radius <= x2 < x - radius + k + 1) {
                            GridCell::PlayerId(id)
                        } else {
                            old(self).spec_cell(x2, y2)
                        }) by {
                            if y2 == y + dy && x2 == x + dx {
                                assert(false);
                            }
                        }
                    }
                }
                k = k + 1;
            }
            i = i + 1;
        }
    }
}

/// Build a fresh, fully seeded game over a world artifact; the free-
/// standing entry point the server boots through.
pub fn initialize_game(config: GameConfig, world_map: WorldMap, seed: u64) -> (r: Option<
    GameState,
>)
    requires
        config.wf(),
        world_map.wf(),
        world_map.width == config.grid_width,
        world_map.height == config.grid_height,
        config.resource_floor >= 1000,
    ensures
        r matches Some(st) ==> {
            &&& st.wf()
            &&& st.config == config
            &&& st.players@.len() == config.num_players
            &&& st.update_count == 0
            &&& spec_terrain_consistent(st.grid, world_map)
        },
        config.num_players == 0 ==> r is Some,
{
    GameState::initialize_game(config, world_map, seed)
}

impl GameState {
    /// Build the world grid and seed the players. Terrain comes first:
    /// every mountain- or water-masked cell becomes immutable terrain.
    /// Each player then gets a random seed position whose surroundings are
    /// clear, a starting block of territory around it, and a mean land
    /// value computed from that territory. Initialization fails (with
    /// nothing built) only when some player finds no clear position
    /// within the bounded number of attempts.
    pub fn initialize_game(config: GameConfig, world_map: WorldMap, seed: u64) -> (r: Option<
        GameState,
    >)
        requires
            config.wf(),
            world_map.wf(),
            world_map.width == config.grid_width,
            world_map.height == config.grid_height,
            config.resource_floor >= 1000,
        ensures
            r matches Some(st) ==> {
                &&& st.wf()
                &&& st.config == config
                &&& st.players@.len() == config.num_players
                &&& forall|k: int|
                    0 <= k < st.players@.len() ==> (#[trigger] st.players@[k]).id == k + 1
                &&& st.update_count == 0
                &&& st.attack_movements@.len() == 0
                &&& spec_terrain_consistent(st.grid, world_map)
                &&& forall|k: int, dx: int, dy: int|
                    0 <= k < st.players@.len() && -START_TERRITORY_RADIUS <= dx
                        <= START_TERRITORY_RADIUS && -START_TERRITORY_RADIUS <= dy
                        <= START_TERRITORY_RADIUS && 0 <= st.players@[k].x + dx < st.grid.width
                        && 0 <= st.players@[k].y + dy < st.grid.height ==> (
                    #[trigger] st.grid.spec_cell(
                        st.players@[k].x + dx,
                        st.players@[k].y + dy,
                    )) == GridCell::PlayerId((k + 1) as u32)
                &&& forall|pr: crate::neighbors::NeighborPair|
                    st.neighbor_pairs@.contains(pr) <==> crate::neighbors::spec_pair_in_graph(
                        st.grid,
                        config.reduction_factor as int,
                        pr,
                    )
            },
            config.num_players == 0 ==> r is Some,
    {
        let mut st: GameState = GameState::new(config, world_map, seed);
        // Terrain.
        let ghost cells0 = st.grid.cells@;
        let n: usize = st.grid.cells.len();
        let mut c: usize = 0;
        while c < n
            invariant
                st.config == config,
                config.wf(),
                st.grid.wf(),
                st.grid.width == config.grid_width,
                st.grid.height == config.grid_height,
                st.world_map.wf(),
                st.world_map == world_map,
                world_map.width == config.grid_width,
                world_map.height == config.grid_height,
                st.players@.len() == 0,
                st.attack_movements@.len() == 0,
                st.neighbor_pairs@.len() == 0,
                st.update_count == 0,
                st.update_timers.le_tick(0),
                n == st.grid.cells@.len(),
                c <= n,
                forall|c2: int|
                    0 <= c2 < c ==> (#[trigger] st.grid.cells@[c2]) == (
                    if world_map.mountain@[c2] {
                        GridCell::Mountain
                    } else if world_map.water@[c2] {
                        GridCell::Water
                    } else {
                        GridCell::Available
                    }),
                forall|c2: int|
                    c <= c2 < n ==> (#[trigger] st.grid.cells@[c2]) == GridCell::Available,
            decreases n - c,
        {
            proof {
                assert(st.grid.width * st.grid.height == st.world_map.width
                    * st.world_map.height);
            }
            let mountain: bool = st.world_map.mountain[c];
            let water: bool = st.world_map.water[c];
            if mountain {
                st.grid.cells.set(c, GridCell::Mountain);
            } else if water {
                st.grid.cells.set(c, GridCell::Water);
            }
            c = c + 1;
        }
        proof {
            assert(spec_terrain_consistent(st.grid, world_map)) by {
                assert forall|x2: int, y2: int|
                    0 <= x2 < st.grid.width && 0 <= y2 < st.grid.height implies ((
                #[trigger] st.grid.spec_cell(x2, y2)) == spec_base_cell(world_map, x2, y2) || (
                !world_map.spec_mountain(x2, y2) && !world_map.spec_water(x2, y2)
                    && st.grid.spec_cell(x2, y2) is PlayerId)) by {
                    st.grid.lemma_index(x2, y2);
                }
            }
        }
        // Players.
        proof {
            assert(st.grid.width <= 1000000 && st.grid.height <= 1000000) by (nonlinear_arith)
                requires
                    1 <= st.grid.width,
                    1 <= st.grid.height,
                    st.grid.width * st.grid.height <= 1000000,
            ;
        }
        let count: u32 = config.num_players;
        let mut id: u32 = 1;
        while id <= count
            invariant
                st.config == config,
                config.wf(),
                st.wf(),
                st.grid.width <= 1000000,
                st.grid.height <= 1000000,
                st.world_map == world_map,
                st.attack_movements@.len() == 0,
                st.neighbor_pairs@.len() == 0,
                st.update_count == 0,
                1 <= id <= count + 1,
                count == config.num_players,
                config.resource_floor >= 1000,
                st.players@.len() == id - 1,
                forall|k: int| 0 <= k < st.players@.len() ==> (#[trigger] st.players@[k]).id == k
                    + 1,
                spec_terrain_consistent(st.grid, world_map),
                forall|k: int, dx: int, dy: int|
                    0 <= k < st.players@.len() && -START_TERRITORY_RADIUS <= dx
                        <= START_TERRITORY_RADIUS && -START_TERRITORY_RADIUS <= dy
                        <= START_TERRITORY_RADIUS && 0 <= st.players@[k].x + dx < st.grid.width
                        && 0 <= st.players@[k].y + dy < st.grid.height ==> (
                    #[trigger] st.grid.spec_cell(
                        st.players@[k].x + dx,
                        st.players@[k].y + dy,
                    )) == GridCell::PlayerId((k + 1) as u32),
            decreases count - id + 1,
        {
            let mut attempts: u32 = 0;
            let mut placed: bool = false;
            while attempts < MAX_PLACEMENT_ATTEMPTS && !placed
                invariant
                    st.config == config,
                    config.wf(),
                    st.wf(),
                    st.grid.width <= 1000000,
                    st.grid.height <= 1000000,
                    st.world_map == world_map,
                    st.attack_movements@.len() == 0,
                    st.neighbor_pairs@.len() == 0,
                    st.update_count == 0,
                    1 <= id <= count,
                    count == config.num_players,
                    config.num_players <= 250,
                    config.resource_floor >= 1000,
                    attempts <= MAX_PLACEMENT_ATTEMPTS,
                    !placed ==> st.players@.len() == id - 1,
                    placed ==> st.players@.len() == id,
                    forall|k: int| 0 <= k < st.players@.len() ==> (#[trigger] st.players@[k]).id
                        == k + 1,
                    spec_terrain_consistent(st.grid, world_map),
                    forall|k: int, dx: int, dy: int|
                        0 <= k < st.players@.len() && -START_TERRITORY_RADIUS <= dx
                            <= START_TERRITORY_RADIUS && -START_TERRITORY_RADIUS <= dy
                            <= START_TERRITORY_RADIUS && 0 <= st.players@[k].x + dx < st.grid.width
                            && 0 <= st.players@[k].y + dy < st.grid.height ==> (
                        #[trigger] st.grid.spec_cell(
                            st.players@[k].x + dx,
                            st.players@[k].y + dy,
                        )) == GridCell::PlayerId((k + 1) as u32),
                decreases MAX_PLACEMENT_ATTEMPTS - attempts + (if placed { 0int } else { 1int }),
            {
                let ghost grid_pre = st.grid;
                let ghost players_pre = st.players@;
                placed = st.try_place_player(id);
                proof {
                    if placed {
                        let np = st.players@[st.players@.len() - 1];
                        assert(spec_terrain_consistent(st.grid, world_map)) by {
                            assert forall|x2: int, y2: int|
                                0 <= x2 < st.grid.width && 0 <= y2 < st.grid.height implies ((
                            #[trigger] st.grid.spec_cell(x2, y2)) == spec_base_cell(
                                world_map,
                                x2,
                                y2,
                            ) || (!world_map.spec_mountain(x2, y2) && !world_map.spec_water(
                                x2,
                                y2,
                            ) && st.grid.spec_cell(x2, y2) is PlayerId)) by {
                                if np.x - START_TERRITORY_RADIUS <= x2 <= np.x
                                    + START_TERRITORY_RADIUS && np.y - START_TERRITORY_RADIUS
                                    <= y2 <= np.y + START_TERRITORY_RADIUS {
                                    assert(grid_pre.spec_cell(x2, y2) == GridCell::Available);
                                    assert(spec_base_cell(world_map, x2, y2)
                                        == GridCell::Available);
                                } else {
                                    assert(st.grid.spec_cell(x2, y2) == grid_pre.spec_cell(
                                        x2,
                                        y2,
                                    ));
                                }
                            }
                        }
                        assert forall|k: int, dx: int, dy: int|
                            0 <= k < st.players@.len() && -START_TERRITORY_RADIUS <= dx
                                <= START_TERRITORY_RADIUS && -START_TERRITORY_RADIUS <= dy
                                <= START_TERRITORY_RADIUS && 0 <= st.players@[k].x + dx
                                < st.grid.width && 0 <= st.players@[k].y + dy
                                < st.grid.height implies (#[trigger] st.grid.spec_cell(
                            st.players@[k].x + dx,
                            st.players@[k].y + dy,
                        )) == GridCell::PlayerId((k + 1) as u32) by {
                            let cx = st.players@[k].x + dx;
                            let cy = st.players@[k].y + dy;
                            if k == st.players@.len() - 1 {
                                assert(np.x - START_TERRITORY_RADIUS <= cx <= np.x
                                    + START_TERRITORY_RADIUS && np.y - START_TERRITORY_RADIUS
                                    <= cy <= np.y + START_TERRITORY_RADIUS);
                                assert(st.grid.spec_cell(cx, cy) == GridCell::PlayerId(id));
                            } else {
                                assert(st.players@[k] == players_pre[k]);
                                assert(grid_pre.spec_cell(cx, cy) == GridCell::PlayerId(
                                    (k + 1) as u32,
                                ));
                                if np.x - START_TERRITORY_RADIUS <= cx <= np.x
                                    + START_TERRITORY_RADIUS && np.y - START_TERRITORY_RADIUS
                                    <= cy <= np.y + START_TERRITORY_RADIUS {
                                    assert(grid_pre.spec_cell(cx, cy) == GridCell::Available);
                                }
                                assert(st.grid.spec_cell(cx, cy) == grid_pre.spec_cell(cx, cy));
                            }
                        }
                    }
                }
                if !placed {
                    attempts = attempts + 1;
                }
            }
            if !placed {
                return None;
            }
            id = id + 1;
        }
        // The first neighbor graph.
        let pairs = find_all_possible_targets(&st.grid, config.reduction_factor);
        st.neighbor_pairs = pairs;
        Some(st)
    }

    /// One placement attempt for player `id`: a random seed position, a
    /// clearance check, and on success the starting territory block plus
    /// the roster entry with its measured mean land value.
    fn try_place_player(&mut self, id: u32) -> (placed: bool)
        requires
            old(self).wf(),
            old(self).config.resource_floor >= 1000,
            1 <= id,
            id as int == old(self).players@.len() + 1,
            id <= 250,
            forall|k: int|
                0 <= k < old(self).players@.len() ==> (#[trigger] old(self).players@[k]).id == k
                    + 1,
        ensures
            final(self).wf(),
            final(self).config == old(self).config,
            final(self).world_map == old(self).world_map,
            final(self).attack_movements@ == old(self).attack_movements@,
            final(self).neighbor_pairs@ == old(self).neighbor_pairs@,
            final(self).update_count == old(self).update_count,
            final(self).update_timers == old(self).update_timers,
            !placed ==> final(self).players@ == old(self).players@,
            !placed ==> final(self).grid == old(self).grid,
            placed ==> final(self).players@.len() == old(self).players@.len() + 1,
            forall|k: int|
                0 <= k < old(self).players@.len() ==> final(self).players@[k] == old(self).players@[k],
            forall|k: int|
                0 <= k < final(self).players@.len() ==> (#[trigger] final(self).players@[k]).id
                    == k + 1,
            final(self).grid.width == old(self).grid.width,
            final(self).grid.height == old(self).grid.height,
            placed ==> ({
                let p = final(self).players@[final(self).players@.len() - 1];
                &&& p.id == id
                &&& forall|x2: int, y2: int|
                    0 <= x2 < old(self).grid.width && 0 <= y2 < old(self).grid.height ==> final(self).grid.spec_cell(x2, y2) == (if p.x - START_TERRITORY_RADIUS <= x2 <= p.x
                        + START_TERRITORY_RADIUS && p.y - START_TERRITORY_RADIUS <= y2 <= p.y
                        + START_TERRITORY_RADIUS {
                        GridCell::PlayerId(id)
                    } else {
                        old(self).grid.spec_cell(x2, y2)
                    })
                &&& forall|x2: int, y2: int|
                    0 <= x2 < old(self).grid.width && 0 <= y2 < old(self).grid.height && p.x
                        - START_TERRITORY_RADIUS <= x2 <= p.x + START_TERRITORY_RADIUS && p.y
                        - START_TERRITORY_RADIUS <= y2 <= p.y + START_TERRITORY_RADIUS ==> old(self).grid.spec_cell(x2, y2) == GridCell::Available
            }),
    {
        proof {
            assert(self.grid.width <= 1000000 && self.grid.height <= 1000000) by (nonlinear_arith)
                requires
                    1 <= self.grid.width,
                    1 <= self.grid.height,
                    self.grid.width * self.grid.height <= 1000000,
            ;
        }
        let config: GameConfig = self.config;
        let x: usize = self.rng.draw_below(self.grid.width as u64) as usize;
        let y: usize = self.rng.draw_below(self.grid.height as u64) as usize;
        if !self.is_position_available(x as i32, y as i32, PLACEMENT_CLEARANCE) {
            return false;
        }
        proof {
            assert forall|x2: int, y2: int|
                0 <= x2 < self.grid.width && 0 <= y2 < self.grid.height && x
                    - START_TERRITORY_RADIUS <= x2 <= x + START_TERRITORY_RADIUS && y
                    - START_TERRITORY_RADIUS <= y2 <= y + START_TERRITORY_RADIUS implies
                self.grid.spec_cell(x2, y2) == GridCell::Available by {
                let dx = x2 - x;
                let dy2 = y2 - y;
                assert(-5 <= dx <= 5 && -5 <= dy2 <= 5);
                assert(self.grid.spec_cell(x + dx, y + dy2) is Available);
                assert(self.grid.spec_cell(x2, y2) is Available);
                assert(self.grid.spec_cell(x2, y2) == GridCell::Available);
            }
        }
        self.grid.claim_square(x, y, START_TERRITORY_RADIUS, id);
        let mut p: Player = Player::new(id, x, y, &config);
        let liv: (u64, u64) = self.livability_stats(id);
        let avg: u64 = if liv.1 > 0 {
            proof {
                lemma_sum_liv_owned_bound(self.grid.cells@, self.world_map.livability@, id);
                assert(1000 * count_owned(self.grid.cells@, id) == count_owned(
                    self.grid.cells@,
                    id,
                ) * 1000) by (nonlinear_arith);
                lemma_multiply_divide_le(liv.0 as int, liv.1 as int, 1000);
                lemma_div_pos_is_pos(liv.0 as int, liv.1 as int);
            }
            liv.0 / liv.1
        } else {
            1000
        };
        p.average_land_value_permille = avg;
        let ghost prev = self.players@;
        self.players.push(p);
        proof {
            assert(players_wf(self.players@, self.config)) by {
                assert(forall|k: int|
                    0 <= k < prev.len() ==> (#[trigger] self.players@[k]) == prev[k]);
            }
            assert forall|i: int|
                0 <= i < self.attack_movements@.len() implies movement_refs_ok(
                #[trigger] self.attack_movements@[i],
                self.players@,
            ) by {
                let m = self.attack_movements@[i];
                assert(movement_refs_ok(m, prev));
                let ws = choose|k: int| 0 <= k < prev.len() && (#[trigger] prev[k]).id == m.source;
                assert(self.players@[ws].id == m.source);
                match m.target {
                    MoveTarget::Enemy(t) => {
                        let wt = choose|k: int|
                            0 <= k < prev.len() && (#[trigger] prev[k]).id == t;
                        assert(self.players@[wt].id == t);
                    },
                    MoveTarget::EmptySpace => {},
                }
            }
        }
        true
    }

    /// Livability total and owned-cell count of one player, as the bonus
    /// phase computes them.
    fn livability_stats(&self, id: u32) -> (r: (u64, u64))
        requires
            self.grid.wf(),
            self.world_map.wf(),
            self.grid.width == self.world_map.width,
            self.grid.height == self.world_map.height,
        ensures
            r.0 == spec_sum_liv_owned(self.grid.cells@, self.world_map.livability@, id),
            r.1 == count_owned(self.grid.cells@, id),
            r.0 <= 1000 * r.1,
    {
        self.livability_of_owner(id)
    }
}

} // verus!
