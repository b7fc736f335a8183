use vstd::prelude::*;
use crate::attack::{AttackMovement, MoveTarget};
use crate::config::{GameConfig, MAX_RESOURCE_CAP};
use crate::grid::{Grid, GridCell};
use crate::neighbors::NeighborPair;
use crate::player::Player;
use crate::rng::Prng;
use crate::world::WorldMap;

verus! {

/// Last tick at which each subsystem ran; a subsystem is due when
/// `update_count - last_run >= interval`.
#[derive(Clone, Copy, Debug, PartialEq, Eq, Structural)]
pub struct UpdateTimers {
    pub last_attack_update: u64,
    pub last_expansion_update: u64,
    pub last_resource_update: u64,
    pub last_area_update: u64,
    pub last_neighbor_update: u64,
    pub last_center_of_mass_update: u64,
}

/// The timers' starting value: every subsystem as if it ran at tick zero.
pub open spec fn spec_timers_zero() -> UpdateTimers {
    UpdateTimers {
        last_attack_update: 0,
        last_expansion_update: 0,
        last_resource_update: 0,
        last_area_update: 0,
        last_neighbor_update: 0,
        last_center_of_mass_update: 0,
    }
}

impl UpdateTimers {
    pub open spec fn le_tick(&self, tick: u64) -> bool {
        &&& self.last_attack_update <= tick
        &&& self.last_expansion_update <= tick
        &&& self.last_resource_update <= tick
        &&& self.last_area_update <= tick
        &&& self.last_neighbor_update <= tick
        &&& self.last_center_of_mass_update <= tick
    }
}

impl Default for UpdateTimers {
    fn default() -> (r: UpdateTimers)
        ensures
            r == spec_timers_zero(),
    {
        UpdateTimers {
            last_attack_update: 0,
            last_expansion_update: 0,
            last_resource_update: 0,
            last_area_update: 0,
            last_neighbor_update: 0,
            last_center_of_mass_update: 0,
        }
    }
}

/// Every player is economically valid and ids never repeat.
pub open spec fn players_wf(players: Seq<Player>, cfg: GameConfig) -> bool {
    &&& forall|i: int| 0 <= i < players.len() ==> (#[trigger] players[i]).wf(cfg)
    &&& forall|i: int, j: int|
        0 <= i < j < players.len() ==> (#[trigger] players[i]).id != (#[trigger] players[j]).id
}

/// Some roster entry carries this id.
pub open spec fn spec_has_player(players: Seq<Player>, id: u32) -> bool {
    exists|i: int| 0 <= i < players.len() && (#[trigger] players[i]).id == id
}

/// Index of the first roster entry with this id, or -1.
pub open spec fn spec_find_player(players: Seq<Player>, id: u32) -> int
    decreases players.len(),
{
    if players.len() == 0 {
        -1
    } else if players[0].id == id {
        0
    } else {
        let rest = spec_find_player(players.drop_first(), id);
        if rest == -1 {
            -1
        } else {
            rest + 1
        }
    }
}

pub proof fn lemma_find_player_properties(players: Seq<Player>, id: u32)
    ensures
        spec_find_player(players, id) >= -1,
        spec_find_player(players, id) == -1 ==> !spec_has_player(players, id),
        spec_find_player(players, id) >= 0 ==> {
            let i = spec_find_player(players, id);
            &&& i < players.len()
            &&& players[i].id == id
            &&& forall|j: int| 0 <= j < i ==> (#[trigger] players[j]).id != id
        },
    decreases players.len(),
{
    if players.len() > 0 && players[0].id != id {
        lemma_find_player_properties(players.drop_first(), id);
        let rest = spec_find_player(players.drop_first(), id);
        assert(rest >= -1);
        if rest == -1 {
            if spec_has_player(players, id) {
                let w = choose|i: int| 0 <= i < players.len() && (#[trigger] players[i]).id == id;
                assert(players.drop_first()[w - 1] == players[w]);
                assert(spec_has_player(players.drop_first(), id));
            }
        } else {
            assert(players[rest + 1].id == players.drop_first()[rest].id);
            assert forall|j: int| 0 <= j < rest + 1 implies (#[trigger] players[j]).id != id by {
                if j > 0 {
                    assert(players[j] == players.drop_first()[j - 1]);
                }
            }
        }
    }
}

proof fn lemma_find_player_skips(players: Seq<Player>, id: u32, i: int)
    requires
        0 <= i < players.len(),
        players[i].id == id,
        forall|j: int| 0 <= j < i ==> (#[trigger] players[j]).id != id,
    ensures
        spec_find_player(players, id) == i,
    decreases players.len(),
{
    if i > 0 {
        assert forall|k: int| 0 <= k < i - 1 implies (#[trigger] players.drop_first()[k]).id
            != id by {
            assert(players.drop_first()[k] == players[k + 1]);
        }
        assert(players.drop_first()[i - 1] == players[i]);
        lemma_find_player_skips(players.drop_first(), id, i - 1);
    }
}

proof fn lemma_find_player_all_checked(players: Seq<Player>, id: u32)
    requires
        forall|j: int| 0 <= j < players.len() ==> (#[trigger] players[j]).id != id,
    ensures
        spec_find_player(players, id) == -1,
    decreases players.len(),
{
    if players.len() > 0 {
        assert forall|k: int| 0 <= k < players.len() - 1 implies (
        #[trigger] players.drop_first()[k]).id != id by {
            assert(players.drop_first()[k] == players[k + 1]);
        }
        lemma_find_player_all_checked(players.drop_first(), id);
    }
}

/// A movement only ever names roster members.
pub open spec fn movement_refs_ok(m: AttackMovement, players: Seq<Player>) -> bool {
    &&& spec_has_player(players, m.source)
    &&& (m.target matches MoveTarget::Enemy(t) ==> spec_has_player(players, t))
}

/// Index of the first movement running exactly opposite to
/// `source -> Enemy(target)`, or -1; a front into empty space has no
/// opposite.
pub open spec fn spec_find_reverse(ms: Seq<AttackMovement>, source: u32, target: MoveTarget) -> int
    decreases ms.len(),
{
    if ms.len() == 0 {
        -1
    } else if target matches MoveTarget::Enemy(t) && ms[0].source == t && ms[0].target
        == MoveTarget::Enemy(source) {
        0
    } else {
        let rest = spec_find_reverse(ms.drop_first(), source, target);
        if rest == -1 {
            -1
        } else {
            rest + 1
        }
    }
}

pub proof fn lemma_find_reverse_properties(ms: Seq<AttackMovement>, source: u32, target: MoveTarget)
    ensures
        spec_find_reverse(ms, source, target) >= -1,
        spec_find_reverse(ms, source, target) >= 0 ==> {
            let j = spec_find_reverse(ms, source, target);
            &&& j < ms.len()
            &&& (target matches MoveTarget::Enemy(t) && ms[j].source == t && ms[j].target
                == MoveTarget::Enemy(source))
        },
    decreases ms.len(),
{
    if ms.len() > 0 {
        lemma_find_reverse_properties(ms.drop_first(), source, target);
        let rest = spec_find_reverse(ms.drop_first(), source, target);
        if rest >= 0 {
            assert(ms[rest + 1] == ms.drop_first()[rest]);
        }
    }
}

proof fn lemma_find_reverse_skips(ms: Seq<AttackMovement>, source: u32, target: MoveTarget, i: int)
    requires
        0 <= i < ms.len(),
        target matches MoveTarget::Enemy(t) && ms[i].source == t && ms[i].target
            == MoveTarget::Enemy(source),
        forall|j: int|
            0 <= j < i ==> !(target matches MoveTarget::Enemy(t) && (#[trigger] ms[j]).source == t
                && ms[j].target == MoveTarget::Enemy(source)),
    ensures
        spec_find_reverse(ms, source, target) == i,
    decreases ms.len(),
{
    if i > 0 {
        assert forall|k: int| 0 <= k < i - 1 implies !(target matches MoveTarget::Enemy(t) && (
        #[trigger] ms.drop_first()[k]).source == t && ms.drop_first()[k].target
            == MoveTarget::Enemy(source)) by {
            assert(ms.drop_first()[k] == ms[k + 1]);
        }
        assert(ms.drop_first()[i - 1] == ms[i]);
        lemma_find_reverse_skips(ms.drop_first(), source, target, i - 1);
    }
}

proof fn lemma_find_reverse_all_checked(ms: Seq<AttackMovement>, source: u32, target: MoveTarget)
    requires
        forall|j: int|
            0 <= j < ms.len() ==> !(target matches MoveTarget::Enemy(t) && (
            #[trigger] ms[j]).source == t && ms[j].target == MoveTarget::Enemy(source)),
    ensures
        spec_find_reverse(ms, source, target) == -1,
    decreases ms.len(),
{
    if ms.len() > 0 {
        assert forall|k: int| 0 <= k < ms.len() - 1 implies !(target matches MoveTarget::Enemy(t)
            && (#[trigger] ms.drop_first()[k]).source == t && ms.drop_first()[k].target
            == MoveTarget::Enemy(source)) by {
            assert(ms.drop_first()[k] == ms[k + 1]);
        }
        lemma_find_reverse_all_checked(ms.drop_first(), source, target);
    }
}

proof fn lemma_find_reverse_none_for_empty(
    ms: Seq<AttackMovement>,
    source: u32,
    target: MoveTarget,
)
    requires
        target is EmptySpace,
    ensures
        spec_find_reverse(ms, source, target) == -1,
    decreases ms.len(),
{
    if ms.len() > 0 {
        lemma_find_reverse_none_for_empty(ms.drop_first(), source, target);
    }
}

/// Index of the first movement with exactly this source and target, or -1.
pub open spec fn spec_find_same(ms: Seq<AttackMovement>, source: u32, target: MoveTarget) -> int
    decreases ms.len(),
{
    if ms.len() == 0 {
        -1
    } else if ms[0].source == source && ms[0].target == target {
        0
    } else {
        let rest = spec_find_same(ms.drop_first(), source, target);
        if rest == -1 {
            -1
        } else {
            rest + 1
        }
    }
}

pub proof fn lemma_find_same_properties(ms: Seq<AttackMovement>, source: u32, target: MoveTarget)
    ensures
        spec_find_same(ms, source, target) >= -1,
        spec_find_same(ms, source, target) >= 0 ==> {
            let q = spec_find_same(ms, source, target);
            &&& q < ms.len()
            &&& ms[q].source == source
            &&& ms[q].target == target
        },
    decreases ms.len(),
{
    if ms.len() > 0 {
        lemma_find_same_properties(ms.drop_first(), source, target);
        let rest = spec_find_same(ms.drop_first(), source, target);
        if rest >= 0 {
            assert(ms[rest + 1] == ms.drop_first()[rest]);
        }
    }
}

proof fn lemma_find_same_skips(ms: Seq<AttackMovement>, source: u32, target: MoveTarget, i: int)
    requires
        0 <= i < ms.len(),
        ms[i].source == source && ms[i].target == target,
        forall|j: int|
            0 <= j < i ==> !((#[trigger] ms[j]).source == source && ms[j].target == target),
    ensures
        spec_find_same(ms, source, target) == i,
    decreases ms.len(),
{
    if i > 0 {
        assert forall|k: int| 0 <= k < i - 1 implies !((#[trigger] ms.drop_first()[k]).source
            == source && ms.drop_first()[k].target == target) by {
            assert(ms.drop_first()[k] == ms[k + 1]);
        }
        assert(ms.drop_first()[i - 1] == ms[i]);
        lemma_find_same_skips(ms.drop_first(), source, target, i - 1);
    }
}

proof fn lemma_find_same_all_checked(ms: Seq<AttackMovement>, source: u32, target: MoveTarget)
    requires
        forall|j: int|
            0 <= j < ms.len() ==> !((#[trigger] ms[j]).source == source && ms[j].target == target),
    ensures
        spec_find_same(ms, source, target) == -1,
    decreases ms.len(),
{
    if ms.len() > 0 {
        assert forall|k: int| 0 <= k < ms.len() - 1 implies !((
        #[trigger] ms.drop_first()[k]).source == source && ms.drop_first()[k].target == target) by {
            assert(ms.drop_first()[k] == ms[k + 1]);
        }
        lemma_find_same_all_checked(ms.drop_first(), source, target);
    }
}

/// A merged front's stake: the two stakes added, clamped at the cap.
pub open spec fn spec_merged_investment(prior: i64, leftover: int) -> int {
    if prior + leftover > MAX_RESOURCE_CAP {
        MAX_RESOURCE_CAP as int
    } else {
        prior + leftover
    }
}

/// Every cell of a clipped square around `(x, y)` is Available.
pub open spec fn spec_square_available(g: Grid, x: int, y: int, radius: int) -> bool {
    forall|dx: int, dy: int|
        -radius <= dx <= radius && -radius <= dy <= radius && g.in_bounds(x + dx, y + dy) ==> (
        #[trigger] g.spec_cell(x + dx, y + dy)) is Available
}

/// Whether a fresh attack would actually start: known, distinct source
/// and target, and an investment the source can pay.
pub open spec fn spec_attack_admissible(
    s: GameState,
    source: u32,
    target: MoveTarget,
    investment: i64,
) -> bool {
    &&& spec_has_player(s.players@, source)
    &&& 1 <= investment <= s.players@[spec_find_player(s.players@, source)].resources
    &&& target != MoveTarget::Enemy(source)
    &&& (target matches MoveTarget::Enemy(t) ==> spec_has_player(s.players@, t))
}

/// The fields `AttackMovement::new` fills in.
pub open spec fn is_fresh_movement(
    m: AttackMovement,
    source: u32,
    target: MoveTarget,
    investment: int,
) -> bool {
    &&& m.source == source
    &&& m.target == target
    &&& m.investment == investment
    &&& !m.is_started
    &&& m.border_pixels@.len() == 0
}

/// The stake cancelled by netting: the smaller of the fresh investment
/// and the opposite movement's remaining stake; zero without an opposite.
pub open spec fn spec_netting_cancelled(
    ms: Seq<AttackMovement>,
    source: u32,
    target: MoveTarget,
    investment: i64,
) -> int {
    let j = spec_find_reverse(ms, source, target);
    if j == -1 {
        0
    } else if investment < ms[j].investment {
        investment as int
    } else {
        ms[j].investment as int
    }
}

/// The previously existing movements after netting: the opposite movement
/// keeps its remainder or disappears; everything else is untouched.
pub open spec fn spec_netted_kept(
    ms: Seq<AttackMovement>,
    source: u32,
    target: MoveTarget,
    investment: i64,
) -> Seq<AttackMovement> {
    let j = spec_find_reverse(ms, source, target);
    let k = spec_netting_cancelled(ms, source, target, investment);
    if j == -1 {
        ms
    } else if ms[j].investment - k > 0 {
        ms.update(j, (AttackMovement { investment: (ms[j].investment - k) as i64, ..ms[j] }))
    } else {
        ms.remove(j)
    }
}

/// Survival of a movement when `player_id` is eliminated: it names the
/// player neither as source nor as target.
pub open spec fn surviving_pred(player_id: u32) -> spec_fn(AttackMovement) -> bool {
    |m: AttackMovement| m.source != player_id && m.target != MoveTarget::Enemy(player_id)
}

/// The movements that survive a player's elimination.
pub open spec fn spec_surviving_movements(ms: Seq<AttackMovement>, player_id: u32) -> Seq<
    AttackMovement,
> {
    ms.filter(surviving_pred(player_id))
}

/// For every reachable state and every player, resources lie within
/// `[0, max_resources(area)]`: the bound is part of the well-formedness
/// that every public mutator of the state preserves, so it holds at
/// every tick.
pub proof fn lemma_resources_within_cap(s: GameState, i: int)
    requires
        s.wf(),
        0 <= i < s.players@.len(),
    ensures
        0 <= s.players@[i].resources,
        s.players@[i].resources <= crate::player::spec_max_resources(
            s.players@[i].area as int,
            s.config,
        ),
{
    assert(s.players@[i].wf(s.config));
}

/// The whole simulation state: the single aggregate the tick loop owns.
#[derive(Clone, Debug)]
pub struct GameState {
    pub config: GameConfig,
    pub grid: Grid,
    pub players: Vec<Player>,
    pub world_map: WorldMap,
    pub attack_movements: Vec<AttackMovement>,
    pub update_timers: UpdateTimers,
    pub neighbor_pairs: Vec<NeighborPair>,
    pub update_count: u64,
    pub rng: Prng,
}

impl GameState {
    /// The state invariant every tick preserves: a valid configuration,
    /// grid and world of the configured dimensions, economically valid
    /// players with unique ids (resources within `[0, max_resources]`),
    /// movements with positive stakes naming only roster members, and
    /// subsystem timers that never run ahead of the tick counter.
    pub open spec fn wf(&self) -> bool {
        &&& self.config.wf()
        &&& self.grid.wf()
        &&& self.grid.width == self.config.grid_width
        &&& self.grid.height == self.config.grid_height
        &&& self.world_map.wf()
        &&& self.world_map.width == self.config.grid_width
        &&& self.world_map.height == self.config.grid_height
        &&& players_wf(self.players@, self.config)
        &&& forall|i: int|
            0 <= i < self.attack_movements@.len() ==> (#[trigger] self.attack_movements@[i]).wf(
                self.grid.width as int,
                self.grid.height as int,
            )
        &&& forall|i: int|
            0 <= i < self.attack_movements@.len() ==> movement_refs_ok(
                #[trigger] self.attack_movements@[i],
                self.players@,
            )
        &&& self.update_timers.le_tick(self.update_count)
    }

    /// A fresh state over a world artifact: an all-Available grid of the
    /// configured dimensions, no players, no movements, tick zero.
    pub fn new(config: GameConfig, world_map: WorldMap, seed: u64) -> (r: GameState)
        requires
            config.wf(),
            world_map.wf(),
            world_map.width == config.grid_width,
            world_map.height == config.grid_height,
        ensures
            r.wf(),
            r.config == config,
            r.world_map == world_map,
            r.players@.len() == 0,
            r.attack_movements@.len() == 0,
            r.neighbor_pairs@.len() == 0,
            r.update_count == 0,
            r.update_timers == spec_timers_zero(),
            r.rng.state == seed,
            r.grid.width == config.grid_width,
            r.grid.height == config.grid_height,
            forall|i: int|
                0 <= i < r.grid.cells@.len() ==> r.grid.cells@[i] == GridCell::Available,
    {
        let grid = Grid::new(config.grid_width, config.grid_height);
        GameState {
            config,
            grid,
            players: Vec::new(),
            world_map,
            attack_movements: Vec::new(),
            update_timers: UpdateTimers::default(),
            neighbor_pairs: Vec::new(),
            update_count: 0,
            rng: Prng::new(seed),
        }
    }

    /// First roster index of the player with this id.
    pub fn find_player_index(&self, id: u32) -> (r: Option<usize>)
        ensures
            r matches Some(i) ==> i as int == spec_find_player(self.players@, id),
            r is Some ==> spec_has_player(self.players@, id) && (r->0 as int) < self.players@.len()
                && self.players@[r->0 as int].id == id,
            r is None ==> !spec_has_player(self.players@, id) && spec_find_player(
                self.players@,
                id,
            ) == -1,
    {
        let len: usize = self.players.len();
        let mut i: usize = 0;
        while i < len
            invariant
                i <= len,
                len == self.players@.len(),
                forall|j: int| 0 <= j < i ==> (#[trigger] self.players@[j]).id != id,
            decreases len - i,
        {
            if self.players[i].id == id {
                proof {
                    lemma_find_player_skips(self.players@, id, i as int);
                }
                return Some(i);
            }
            i = i + 1;
        }
        proof {
            lemma_find_player_all_checked(self.players@, id);
            lemma_find_player_properties(self.players@, id);
        }
        None
    }

    /// Whether a `(2 radius + 1)`-square around `(x, y)`, clipped to the
    /// grid, holds only Available cells: the placement test for a new
    /// player's starting territory.
    pub fn is_position_available(&self, x: i32, y: i32, radius: i32) -> (r: bool)
        requires
            self.wf(),
            -2000000 <= x <= 2000000,
            -2000000 <= y <= 2000000,
            0 <= radius <= 2000000,
        ensures
            r == spec_square_available(self.grid, x as int, y as int, radius as int),
    {
        proof {
            assert(self.grid.width <= 1000000 && self.grid.height <= 1000000) by (nonlinear_arith)
                requires
                    1 <= self.grid.width,
                    1 <= self.grid.height,
                    self.grid.width * self.grid.height <= 1000000,
            ;
        }
        let side: i64 = 2 * (radius as i64) + 1;
        let mut i: i64 = 0;
        while i < side
            invariant
                self.wf(),
                -2000000 <= x <= 2000000,
                -2000000 <= y <= 2000000,
                0 <= radius <= 2000000,
                side == 2 * radius + 1,
                self.grid.width <= 1000000,
                self.grid.height <= 1000000,
                0 <= i <= side,
                forall|dx: int, dy: int|
                    -radius <= dy < i - radius && -radius <= dx <= radius && self.grid.in_bounds(
                        x + dx,
                        y + dy,
                    ) ==> (#[trigger] self.grid.spec_cell(x + dx, y + dy)) is Available,
            decreases side - i,
        {
            let dy: i64 = i - (radius as i64);
            let mut k: i64 = 0;
            while k < side
                invariant
                    self.wf(),
                    -2000000 <= x <= 2000000,
                    -2000000 <= y <= 2000000,
                    0 <= radius <= 2000000,
                    side == 2 * radius + 1,
                    self.grid.width <= 1000000,
                    self.grid.height <= 1000000,
                    0 <= i < side,
                    dy == i - radius,
                    0 <= k <= side,
                    forall|dx: int, dy2: int|
                        -radius <= dy2 < i - radius && -radius <= dx <= radius
                            && self.grid.in_bounds(x + dx, y + dy2) ==> (
                        #[trigger] self.grid.spec_cell(x + dx, y + dy2)) is Available,
                    forall|dx: int|
                        -radius <= dx < k - radius && self.grid.in_bounds(x + dx, y + dy) ==> (
                        #[trigger] self.grid.spec_cell(x + dx, y + dy)) is Available,
                decreases side - k,
            {
                let dx: i64 = k - (radius as i64);
                let cx: i64 = (x as i64) + dx;
                let cy: i64 = (y as i64) + dy;
                if 0 <= cx && cx < self.grid.width as i64 && 0 <= cy && cy
                    < self.grid.height as i64 {
                    let c: GridCell = self.grid.get(cx as usize, cy as usize);
                    if !(c == (GridCell::Available)) {
                        proof {
                            assert(self.grid.in_bounds(x + dx, y + dy));
                            assert(!(self.grid.spec_cell(x + dx, y + dy) is Available));
                        }
                        return false;
                    }
                    proof {
                        assert(self.grid.spec_cell(x + dx, y + dy) is Available);
                    }
                } else {
                    proof {
                        assert(!self.grid.in_bounds(x + dx, y + dy));
                    }
                }
                k = k + 1;
            }
            i = i + 1;
        }
        true
    }

    /// Open a new expansion front, netting counter-attacks: a movement
    /// running exactly opposite cancels the smaller stake against both
    /// sides, and the depleted side disappears. A remainder joins the
    /// existing front of the same source and target instead of standing
    /// beside it, so the list never grows a second front for a contested
    /// pair. The investment leaves the source's resources up front. Asks
    /// that are impossible to honor (an unknown source or target, a
    /// non-positive or unaffordable investment, a self-attack) change
    /// nothing.
    #[verifier::rlimit(100)]
    pub fn start_attack(&mut self, source: u32, target: MoveTarget, investment: i64)
        requires
            old(self).wf(),
        ensures
            final(self).wf(),
            final(self).config == old(self).config,
            final(self).grid == old(self).grid,
            final(self).world_map == old(self).world_map,
            final(self).update_timers == old(self).update_timers,
            final(self).update_count == old(self).update_count,
            final(self).neighbor_pairs == old(self).neighbor_pairs,
            final(self).rng == old(self).rng,
            !spec_attack_admissible(*old(self), source, target, investment) ==> *final(self)
                == *old(self),
            spec_attack_admissible(*old(self), source, target, investment) ==> ({
                let si = spec_find_player(old(self).players@, source);
                let ms = old(self).attack_movements@;
                let kept = spec_netted_kept(ms, source, target, investment);
                let leftover = investment - spec_netting_cancelled(ms, source, target, investment);
                &&& final(self).players@ == old(self).players@.update(
                    si,
                    (Player {
                        resources: (old(self).players@[si].resources - investment) as i64,
                        ..old(self).players@[si]
                    }),
                )
                &&& leftover > 0 && spec_find_same(kept, source, target) == -1 ==> {
                    &&& final(self).attack_movements@.len() == kept.len() + 1
                    &&& final(self).attack_movements@.subrange(0, kept.len() as int) == kept
                    &&& is_fresh_movement(
                        final(self).attack_movements@.last(),
                        source,
                        target,
                        leftover,
                    )
                }
                &&& leftover > 0 && spec_find_same(kept, source, target) >= 0 ==> ({
                    let q = spec_find_same(kept, source, target);
                    final(self).attack_movements@ == kept.update(
                        q,
                        (AttackMovement {
                            investment: spec_merged_investment(kept[q].investment, leftover) as i64,
                            ..kept[q]
                        }),
                    )
                })
                &&& leftover <= 0 ==> final(self).attack_movements@ == kept
            }),
    {
        proof {
            lemma_find_player_properties(self.players@, source);
            lemma_find_reverse_properties(self.attack_movements@, source, target);
        }
        let si_opt: Option<usize> = self.find_player_index(source);
        let si: usize = match si_opt {
            Some(i) => i,
            None => {
                return ;
            },
        };
        if investment < 1 || investment > self.players[si].resources {
            return ;
        }
        match target {
            MoveTarget::Enemy(t) => {
                if t == source {
                    return ;
                }
                if self.find_player_index(t).is_none() {
                    return ;
                }
            },
            MoveTarget::EmptySpace => (),
        }
        proof {
            self.config.lemma_resource_cap_bound(self.players@[si as int].area as int);
        }
        let ghost old_players = self.players@;
        let mut p: Player = self.players[si];
        p.resources = p.resources - investment;
        self.players.set(si, p);
        proof {
            assert(players_wf(self.players@, self.config));
            assert forall|id: u32|
                spec_has_player(old_players, id) implies spec_has_player(self.players@, id) by {
                let w = choose|i: int| 0 <= i < old_players.len() && old_players[i].id == id;
                assert(self.players@[w].id == id);
            }
        }
        let ghost ms = old(self).attack_movements@;
        let j_opt: Option<usize> = self.find_reverse_index(source, target);
        let leftover: i64 = match j_opt {
            None => {
                proof {
                    assert(spec_find_reverse(ms, source, target) == -1);
                    assert(spec_netting_cancelled(ms, source, target, investment) == 0);
                    assert(spec_netted_kept(ms, source, target, investment) == ms);
                }
                investment
            },
            Some(j) => {
                proof {
                    lemma_find_reverse_properties(ms, source, target);
                    assert(j as int == spec_find_reverse(ms, source, target));
                }
                let mut rev: AttackMovement = self.attack_movements.remove(j);
                let k: i64 = if investment < rev.investment {
                    investment
                } else {
                    rev.investment
                };
                proof {
                    assert(rev == ms[j as int]);
                    assert(k as int == spec_netting_cancelled(ms, source, target, investment));
                }
                rev.investment = rev.investment - k;
                if rev.investment > 0 {
                    self.attack_movements.insert(j, rev);
                    proof {
                        assert(self.attack_movements@ =~= ms.update(
                            j as int,
                            (AttackMovement {
                                investment: (ms[j as int].investment - k) as i64,
                                ..ms[j as int]
                            }),
                        ));
                        assert(self.attack_movements@ == spec_netted_kept(
                            ms,
                            source,
                            target,
                            investment,
                        ));
                    }
                } else {
                    proof {
                        assert(self.attack_movements@ =~= ms.remove(j as int));
                        assert(self.attack_movements@ == spec_netted_kept(
                            ms,
                            source,
                            target,
                            investment,
                        ));
                    }
                }
                investment - k
            },
        };
        proof {
            assert(self.attack_movements@ == spec_netted_kept(ms, source, target, investment));
            lemma_find_same_properties(self.attack_movements@, source, target);
        }
        if leftover > 0 {
            let ghost kept = self.attack_movements@;
            let q_opt: Option<usize> = self.find_same_index(source, target);
            match q_opt {
                None => {
                    self.attack_movements.push(
                        AttackMovement::new(source, target, leftover),
                    );
                    proof {
                        assert(self.attack_movements@.subrange(0, kept.len() as int) =~= kept);
                        assert(is_fresh_movement(
                            self.attack_movements@.last(),
                            source,
                            target,
                            leftover as int,
                        ));
                    }
                },
                Some(q) => {
                    let mut same: AttackMovement = self.attack_movements.remove(q);
                    proof {
                        assert(same == kept[q as int]);
                    }
                    let summed: i64 = same.investment + leftover;
                    same.investment = if summed > MAX_RESOURCE_CAP {
                        MAX_RESOURCE_CAP
                    } else {
                        summed
                    };
                    self.attack_movements.insert(q, same);
                    proof {
                        assert(self.attack_movements@ =~= kept.update(
                            q as int,
                            (AttackMovement {
                                investment: spec_merged_investment(
                                    kept[q as int].investment,
                                    leftover as int,
                                ) as i64,
                                ..kept[q as int]
                            }),
                        ));
                    }
                },
            }
        }
    }

    /// First index of the movement with exactly this source and target.
    fn find_same_index(&self, source: u32, target: MoveTarget) -> (r: Option<usize>)
        ensures
            r matches Some(q) ==> q as int == spec_find_same(
                self.attack_movements@,
                source,
                target,
            ),
            r is None ==> spec_find_same(self.attack_movements@, source, target) == -1,
    {
        let len: usize = self.attack_movements.len();
        let mut i: usize = 0;
        while i < len
            invariant
                i <= len,
                len == self.attack_movements@.len(),
                forall|j: int|
                    0 <= j < i ==> !((#[trigger] self.attack_movements@[j]).source == source
                        && self.attack_movements@[j].target == target),
            decreases len - i,
        {
            let same_source: bool = self.attack_movements[i].source == source;
            let same_target: bool = match (self.attack_movements[i].target, target) {
                (MoveTarget::EmptySpace, MoveTarget::EmptySpace) => true,
                (MoveTarget::Enemy(u), MoveTarget::Enemy(v)) => u == v,
                _ => false,
            };
            if same_source && same_target {
                proof {
                    lemma_find_same_skips(self.attack_movements@, source, target, i as int);
                }
                return Some(i);
            }
            i = i + 1;
        }
        proof {
            lemma_find_same_all_checked(self.attack_movements@, source, target);
        }
        None
    }

    /// First index of the movement running opposite `source -> target`.
    fn find_reverse_index(&self, source: u32, target: MoveTarget) -> (r: Option<usize>)
        ensures
            r matches Some(j) ==> j as int == spec_find_reverse(
                self.attack_movements@,
                source,
                target,
            ),
            r is None ==> spec_find_reverse(self.attack_movements@, source, target) == -1,
    {
        let len: usize = self.attack_movements.len();
        let mut i: usize = 0;
        let t: u32 = match target {
            MoveTarget::Enemy(t) => t,
            MoveTarget::EmptySpace => {
                proof {
                    lemma_find_reverse_none_for_empty(self.attack_movements@, source, target);
                }
                return None;
            },
        };
        while i < len
            invariant
                i <= len,
                len == self.attack_movements@.len(),
                target == MoveTarget::Enemy(t),
                forall|j: int|
                    0 <= j < i ==> !((#[trigger] self.attack_movements@[j]).source == t
                        && self.attack_movements@[j].target == MoveTarget::Enemy(source)),
            decreases len - i,
        {
            let same_source: bool = self.attack_movements[i].source == t;
            let same_target: bool = match self.attack_movements[i].target {
                MoveTarget::Enemy(u) => u == source,
                MoveTarget::EmptySpace => false,
            };
            if same_source && same_target {
                proof {
                    lemma_find_reverse_skips(self.attack_movements@, source, target, i as int);
                }
                return Some(i);
            }
            i = i + 1;
        }
        proof {
            lemma_find_reverse_all_checked(self.attack_movements@, source, target);
        }
        None
    }

    /// Erase a player's footprint: every cell it owns reverts to
    /// Available, and every movement that names it as source or target is
    /// dropped without refund. The roster itself is not touched here; the
    /// recount phase removes the entry.
    pub fn eliminate_player(&mut self, player_id: u32)
        requires
            old(self).wf(),
        ensures
            final(self).wf(),
            final(self).config == old(self).config,
            final(self).players@ == old(self).players@,
            final(self).world_map == old(self).world_map,
            final(self).update_timers == old(self).update_timers,
            final(self).update_count == old(self).update_count,
            final(self).neighbor_pairs@ == old(self).neighbor_pairs@,
            final(self).rng == old(self).rng,
            final(self).grid.width == old(self).grid.width,
            final(self).grid.height == old(self).grid.height,
            final(self).grid.cells@.len() == old(self).grid.cells@.len(),
            forall|i: int|
                0 <= i < old(self).grid.cells@.len() ==> final(self).grid.cells@[i] == (if old(
                    self,
                ).grid.cells@[i] == GridCell::PlayerId(player_id) {
                    GridCell::Available
                } else {
                    old(self).grid.cells@[i]
                }),
            final(self).attack_movements@ == spec_surviving_movements(
                old(self).attack_movements@,
                player_id,
            ),
    {
        let ghost pred = surviving_pred(player_id);
        let ghost w = old(self).grid.width as int;
        let ghost h = old(self).grid.height as int;
        self.grid.revert_owner(player_id);
        let ghost orig = self.attack_movements@;
        let mut kept: Vec<AttackMovement> = Vec::new();
        while self.attack_movements.len() > 0
            invariant
                self.config == old(self).config,
                self.players@ == old(self).players@,
                self.world_map == old(self).world_map,
                self.update_timers == old(self).update_timers,
                self.update_count == old(self).update_count,
                self.neighbor_pairs@ == old(self).neighbor_pairs@,
                self.rng == old(self).rng,
                self.config.wf(),
                self.grid.wf(),
                self.grid.width == old(self).grid.width,
                self.grid.height == old(self).grid.height,
                self.grid.width == self.config.grid_width,
                self.grid.height == self.config.grid_height,
                self.grid.cells@.len() == old(self).grid.cells@.len(),
                forall|i: int|
                    0 <= i < old(self).grid.cells@.len() ==> self.grid.cells@[i] == (if old(
                        self,
                    ).grid.cells@[i] == GridCell::PlayerId(player_id) {
                        GridCell::Available
                    } else {
                        old(self).grid.cells@[i]
                    }),
                self.world_map.wf(),
                self.world_map.width == self.config.grid_width,
                self.world_map.height == self.config.grid_height,
                players_wf(self.players@, self.config),
                self.update_timers.le_tick(self.update_count),
                w == old(self).grid.width as int,
                h == old(self).grid.height as int,
                pred == surviving_pred(player_id),
                self.attack_movements@ =~= orig.skip(orig.len() - self.attack_movements@.len()),
                self.attack_movements@.len() <= orig.len(),
                kept@ =~= orig.take(orig.len() - self.attack_movements@.len()).filter(pred),
                forall|i: int|
                    0 <= i < orig.len() ==> (#[trigger] orig[i]).wf(w, h) && movement_refs_ok(
                        orig[i],
                        old(self).players@,
                    ),
                forall|i: int|
                    0 <= i < kept@.len() ==> (#[trigger] kept@[i]).wf(w, h) && movement_refs_ok(
                        kept@[i],
                        old(self).players@,
                    ),
            decreases self.attack_movements@.len(),
        {
            let ghost done = orig.len() - self.attack_movements@.len();
            let m: AttackMovement = self.attack_movements.remove(0);
            proof {
                assert(m == orig[done]);
                assert(orig.take(done + 1) =~= orig.take(done).push(orig[done]));
                orig.take(done).lemma_filter_push(orig[done], pred);
                assert(pred(orig[done]) == (orig[done].source != player_id && orig[done].target
                    != MoveTarget::Enemy(player_id)));
                assert(self.attack_movements@ =~= orig.skip(done + 1));
            }
            let keep_source: bool = m.source != player_id;
            let keep_target: bool = match m.target {
                MoveTarget::Enemy(u) => u != player_id,
                MoveTarget::EmptySpace => true,
            };
            if keep_source && keep_target {
                kept.push(m);
            }
        }
        proof {
            assert(orig.take(orig.len() as int) =~= orig);
        }
        self.attack_movements = kept;
    }
}

} // verus!
