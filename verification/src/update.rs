use vstd::prelude::*;
use vstd::arithmetic::div_mod::{lemma_multiply_divide_le, lemma_div_pos_is_pos};
use vstd::seq_lib::lemma_seq_contains_after_push;
use crate::attack::{AttackMovement, MoveTarget, matches_target, spec_is_candidate, spec_costs};
use crate::config::GameConfig;
use crate::grid::{Grid, GridCell, count_owned, lemma_count_owned_nonneg, lemma_count_owned_update, lemma_count_owned_pointwise, lemma_distinct_pixels_bound};
use crate::neighbors::{find_all_possible_targets, get_neighbors, spec_pair_in_graph};
use crate::player::{Player, spec_max_resources, spec_updated_resources};
use crate::state::{GameState, players_wf, spec_has_player, movement_refs_ok, spec_surviving_movements};

verus! {

/// Total livability, in permille, over the cells owned by `id`.
pub open spec fn spec_sum_liv_owned(cells: Seq<GridCell>, liv: Seq<u64>, id: u32) -> int
    decreases cells.len(),
{
    if cells.len() == 0 {
        0
    } else {
        spec_sum_liv_owned(cells.drop_last(), liv, id) + if cells.last() == GridCell::PlayerId(id) {
            liv[cells.len() - 1] as int
        } else {
            0int
        }
    }
}

pub proof fn lemma_sum_liv_owned_bound(cells: Seq<GridCell>, liv: Seq<u64>, id: u32)
    requires
        cells.len() <= liv.len(),
        forall|i: int| 0 <= i < liv.len() ==> #[trigger] liv[i] <= 1000,
    ensures
        0 <= spec_sum_liv_owned(cells, liv, id) <= 1000 * count_owned(cells, id),
    decreases cells.len(),
{
    lemma_count_owned_nonneg(cells, id);
    if cells.len() > 0 {
        lemma_count_owned_nonneg(cells.drop_last(), id);
        lemma_sum_liv_owned_bound(cells.drop_last(), liv, id);
    }
}

/// Mean livability of a player's territory, in permille; a landless
/// player counts as fully livable, as a fresh one does.
pub open spec fn spec_avg_livability(cells: Seq<GridCell>, liv: Seq<u64>, id: u32) -> int {
    let cnt = count_owned(cells, id);
    if cnt > 0 {
        spec_sum_liv_owned(cells, liv, id) / cnt
    } else {
        1000
    }
}

/// A player after the resource phase: one interest accrual, and on bonus
/// ticks the recomputed mean land value plus the area bonus
/// `floor(area * avg / 2)`, again capped.
pub open spec fn spec_post_resources(
    p: Player,
    cfg: GameConfig,
    cells: Seq<GridCell>,
    liv: Seq<u64>,
    bonus: bool,
) -> Player {
    let p1 = Player { resources: spec_updated_resources(p, cfg) as i64, ..p };
    if bonus {
        let avg = spec_avg_livability(cells, liv, p.id);
        let gain = (p1.area * avg) / 2000;
        let maxr = spec_max_resources(p1.area as int, cfg);
        let capped = if p1.resources + gain > maxr {
            maxr
        } else {
            p1.resources + gain
        };
        Player {
            resources: capped as i64,
            average_land_value_permille: avg as u64,
            ..p1
        }
    } else {
        p1
    }
}

impl GameState {
    /// Resource accrual: every player earns interest-damped income, and on
    /// bonus ticks (`update_count` divisible by `bonus_interval`) the mean
    /// livability of its territory is recomputed and pays a bonus of half
    /// the area weighted by it. Resources never leave `[0, max_resources]`.
    pub fn update_player_resources(&mut self)
        requires
            old(self).wf(),
        ensures
            final(self).wf(),
            final(self).config == old(self).config,
            final(self).grid == old(self).grid,
            final(self).world_map == old(self).world_map,
            final(self).attack_movements@ == old(self).attack_movements@,
            final(self).update_timers == old(self).update_timers,
            final(self).update_count == old(self).update_count,
            final(self).neighbor_pairs@ == old(self).neighbor_pairs@,
            final(self).rng == old(self).rng,
            final(self).players@.len() == old(self).players@.len(),
            forall|i: int|
                0 <= i < old(self).players@.len() ==> final(self).players@[i]
                    == spec_post_resources(
                    #[trigger] old(self).players@[i],
                    old(self).config,
                    old(self).grid.cells@,
                    old(self).world_map.livability@,
                    old(self).update_count % old(self).config.bonus_interval == 0,
                ),
    {
        let bonus: bool = self.update_count % self.config.bonus_interval == 0;
        let len: usize = self.players.len();
        let mut i: usize = 0;
        while i < len
            invariant
                len == self.players@.len(),
                i <= len,
                self.config == old(self).config,
                self.grid == old(self).grid,
                self.world_map == old(self).world_map,
                self.attack_movements@ == old(self).attack_movements@,
                self.update_timers == old(self).update_timers,
                self.update_count == old(self).update_count,
                self.neighbor_pairs@ == old(self).neighbor_pairs@,
                self.rng == old(self).rng,
                old(self).wf(),
                self.config.wf(),
                self.grid.wf(),
                self.world_map.wf(),
                bonus == (old(self).update_count % old(self).config.bonus_interval == 0),
                forall|j: int| i <= j < len ==> self.players@[j] == old(self).players@[j],
                forall|j: int|
                    0 <= j < i ==> self.players@[j] == spec_post_resources(
                        #[trigger] old(self).players@[j],
                        old(self).config,
                        old(self).grid.cells@,
                        old(self).world_map.livability@,
                        bonus,
                    ),
                forall|j: int| 0 <= j < len ==> (#[trigger] self.players@[j]).wf(self.config),
                forall|j: int|
                    0 <= j < len ==> (#[trigger] self.players@[j]).id == old(self).players@[j].id,
            decreases len - i,
        {
            let cfg: GameConfig = self.config;
            let mut p: Player = self.players[i];
            p.update_resources(&cfg);
            if bonus {
                let (sum, cnt) = self.livability_of_owner(p.id);
                let avg: u64 = if cnt > 0 {
                    proof {
                        lemma_sum_liv_owned_bound(
                            self.grid.cells@,
                            self.world_map.livability@,
                            p.id,
                        );
                        assert(1000 * count_owned(self.grid.cells@, p.id) == count_owned(
                            self.grid.cells@,
                            p.id,
                        ) * 1000) by (nonlinear_arith);
                        lemma_multiply_divide_le(sum as int, cnt as int, 1000);
                        lemma_div_pos_is_pos(sum as int, cnt as int);
                    }
                    sum / cnt
                } else {
                    1000
                };
                proof {
                    assert(p.area * avg <= 1000000 * 1000) by (nonlinear_arith)
                        requires
                            0 <= p.area <= 1000000,
                            0 <= avg <= 1000,
                    ;
                    lemma_div_pos_is_pos(p.area * avg, 2000);
                }
                let gain: i64 = (p.area * (avg as i64)) / 2000;
                let maxr: i64 = p.max_resources(&cfg);
                let summed: i64 = p.resources + gain;
                p.resources = if summed > maxr {
                    maxr
                } else {
                    summed
                };
                p.average_land_value_permille = avg;
            }
            self.players.set(i, p);
            i = i + 1;
        }
    }

    /// Permille livability total and cell count of one player's territory.
    pub(crate) fn livability_of_owner(&self, id: u32) -> (r: (u64, u64))
        requires
            self.grid.wf(),
            self.world_map.wf(),
            self.grid.width == self.world_map.width,
            self.grid.height == self.world_map.height,
        ensures
            r.0 == spec_sum_liv_owned(self.grid.cells@, self.world_map.livability@, id),
            r.1 == count_owned(self.grid.cells@, id),
            r.0 <= 1000 * r.1,
    {
        let len: usize = self.grid.cells.len();
        let mut sum: u64 = 0;
        let mut cnt: u64 = 0;
        let mut i: usize = 0;
        proof {
            lemma_count_owned_nonneg(self.grid.cells@, id);
        }
        while i < len
            invariant
                self.grid.wf(),
                self.world_map.wf(),
                len == self.grid.cells@.len(),
                len == self.world_map.livability@.len(),
                i <= len,
                cnt == count_owned(self.grid.cells@.take(i as int), id),
                sum == spec_sum_liv_owned(
                    self.grid.cells@.take(i as int),
                    self.world_map.livability@,
                    id,
                ),
                sum <= 1000 * cnt,
                cnt <= i,
            decreases len - i,
        {
            proof {
                assert(self.grid.cells@.take(i + 1int).drop_last() =~= self.grid.cells@.take(
                    i as int,
                ));
                assert(self.grid.cells@.take(i + 1int).last() == self.grid.cells@[i as int]);
            }
            let c: GridCell = self.grid.cells[i];
            if c == (GridCell::PlayerId(id)) {
                sum = sum + self.world_map.livability[i];
                cnt = cnt + 1;
            }
            i = i + 1;
        }
        proof {
            assert(self.grid.cells@.take(len as int) =~= self.grid.cells@);
        }
        (sum, cnt)
    }
}

/// The roster after a recount over `cells`: players whose owned-cell count
/// reaches the threshold stay, with the fresh count as area and resources
/// clamped to the possibly smaller cap; the rest leave the roster.
pub open spec fn spec_recounted(players: Seq<Player>, cells: Seq<GridCell>, cfg: GameConfig) -> Seq<
    Player,
>
    decreases players.len(),
{
    if players.len() == 0 {
        Seq::empty()
    } else {
        let rest = spec_recounted(players.drop_last(), cells, cfg);
        let p = players.last();
        let cnt = count_owned(cells, p.id);
        if cnt >= cfg.min_area_threshold {
            rest.push(spec_recounted_player(p, cells, cfg))
        } else {
            rest
        }
    }
}

/// One surviving player after the recount.
pub open spec fn spec_recounted_player(p: Player, cells: Seq<GridCell>, cfg: GameConfig) -> Player {
    let cnt = count_owned(cells, p.id);
    let maxr = spec_max_resources(cnt, cfg);
    Player {
        area: cnt as i64,
        resources: if p.resources > maxr {
            maxr as i64
        } else {
            p.resources
        },
        ..p
    }
}

/// The ids eliminated by a recount over `cells`, in roster order.
pub open spec fn spec_eliminated_ids(
    players: Seq<Player>,
    cells: Seq<GridCell>,
    cfg: GameConfig,
) -> Seq<u32>
    decreases players.len(),
{
    if players.len() == 0 {
        Seq::empty()
    } else {
        let rest = spec_eliminated_ids(players.drop_last(), cells, cfg);
        let p = players.last();
        if count_owned(cells, p.id) >= cfg.min_area_threshold {
            rest
        } else {
            rest.push(p.id)
        }
    }
}

/// What a recount keeps: an id is in the recounted roster exactly when it
/// was in the old one with enough owned cells, and each survivor entry
/// comes from an old entry.
#[verifier::rlimit(50)]
proof fn lemma_recounted_ids(players: Seq<Player>, cells: Seq<GridCell>, cfg: GameConfig)
    ensures
        forall|id: u32|
            #[trigger] spec_has_player(spec_recounted(players, cells, cfg), id) ==> (
            spec_has_player(players, id) && count_owned(cells, id) >= cfg.min_area_threshold),
        forall|id: u32|
            #![trigger spec_has_player(players, id), count_owned(cells, id)]
            (spec_has_player(players, id) && count_owned(cells, id) >= cfg.min_area_threshold)
                ==> spec_has_player(spec_recounted(players, cells, cfg), id),
    decreases players.len(),
{
    broadcast use lemma_seq_contains_after_push;

    if players.len() > 0 {
        lemma_recounted_ids(players.drop_last(), cells, cfg);
        let rest = spec_recounted(players.drop_last(), cells, cfg);
        let rec = spec_recounted(players, cells, cfg);
        let p = players.last();
        assert forall|id: u32|
            spec_has_player(rec, id) implies (spec_has_player(players, id) && count_owned(
            cells,
            id,
        ) >= cfg.min_area_threshold) by {
            let w = choose|i: int| 0 <= i < rec.len() && (#[trigger] rec[i]).id == id;
            if count_owned(cells, p.id) >= cfg.min_area_threshold && w == rec.len() - 1 {
                assert(players[players.len() - 1].id == id);
            } else {
                assert(rest[w] == rec[w]);
                assert(rest[w].id == id);
                assert(spec_has_player(rest, id));
                assert(spec_has_player(players.drop_last(), id) && count_owned(cells, id)
                    >= cfg.min_area_threshold);
                let v = choose|i: int|
                    0 <= i < players.drop_last().len() && (#[trigger] players.drop_last()[i]).id
                        == id;
                assert(players[v].id == id);
            }
        }
        assert forall|id: u32|
            spec_has_player(players, id) && count_owned(cells, id)
                >= cfg.min_area_threshold implies spec_has_player(rec, id) by {
            let w = choose|i: int| 0 <= i < players.len() && (#[trigger] players[i]).id == id;
            if w == players.len() - 1 {
                assert(rec[rec.len() - 1].id == id);
            } else {
                assert(players.drop_last()[w].id == id);
                assert(spec_has_player(players.drop_last(), id));
                assert(spec_has_player(rest, id));
                let v = choose|i: int| 0 <= i < rest.len() && (#[trigger] rest[i]).id == id;
                assert(rec[v] == rest[v]);
                assert(rec[v].id == id);
            }
        }
    }
}

/// Each recounted entry is the recount of some old entry that kept
/// enough cells.
proof fn lemma_recounted_entries(players: Seq<Player>, cells: Seq<GridCell>, cfg: GameConfig)
    ensures
        forall|i: int|
            0 <= i < spec_recounted(players, cells, cfg).len() ==> exists|j: int|
                0 <= j < players.len() && (#[trigger] spec_recounted(players, cells, cfg)[i])
                    == spec_recounted_player(players[j], cells, cfg) && count_owned(
                    cells,
                    players[j].id,
                ) >= cfg.min_area_threshold,
    decreases players.len(),
{
    if players.len() > 0 {
        lemma_recounted_entries(players.drop_last(), cells, cfg);
        let rec = spec_recounted(players, cells, cfg);
        let rest = spec_recounted(players.drop_last(), cells, cfg);
        let p = players.last();
        assert forall|i: int| 0 <= i < rec.len() implies exists|j: int|
            0 <= j < players.len() && (#[trigger] rec[i]) == spec_recounted_player(
                players[j],
                cells,
                cfg,
            ) && count_owned(cells, players[j].id) >= cfg.min_area_threshold by {
            if count_owned(cells, p.id) >= cfg.min_area_threshold && i == rec.len() - 1 {
                let w = players.len() - 1;
                assert(players[w] == p);
                assert(rec[i] == spec_recounted_player(players[w], cells, cfg));
                assert(0 <= w < players.len() && rec[i] == spec_recounted_player(
                    players[w],
                    cells,
                    cfg,
                ) && count_owned(cells, players[w].id) >= cfg.min_area_threshold);
            } else {
                assert(rec[i] == rest[i]);
                assert(0 <= i < rest.len());
                assert(exists|j: int|
                    0 <= j < players.drop_last().len() && (
                    #[trigger] spec_recounted(players.drop_last(), cells, cfg)[i])
                        == spec_recounted_player(players.drop_last()[j], cells, cfg)
                        && count_owned(cells, players.drop_last()[j].id)
                        >= cfg.min_area_threshold);
                let j = choose|j: int|
                    0 <= j < players.drop_last().len() && (
                    #[trigger] spec_recounted(players.drop_last(), cells, cfg)[i])
                        == spec_recounted_player(players.drop_last()[j], cells, cfg)
                        && count_owned(cells, players.drop_last()[j].id)
                        >= cfg.min_area_threshold;
                assert(players.drop_last()[j] == players[j]);
                assert(0 <= j < players.len() && rec[i] == spec_recounted_player(
                    players[j],
                    cells,
                    cfg,
                ) && count_owned(cells, players[j].id) >= cfg.min_area_threshold);
            }
        }
    }
}

/// What a recount eliminates: exactly the ids that were present with too
/// few owned cells.
proof fn lemma_eliminated_ids(players: Seq<Player>, cells: Seq<GridCell>, cfg: GameConfig)
    ensures
        forall|e: u32|
            #[trigger] spec_eliminated_ids(players, cells, cfg).contains(e) ==> (spec_has_player(
                players,
                e,
            ) && count_owned(cells, e) < cfg.min_area_threshold),
        forall|e: u32|
            #![trigger spec_has_player(players, e), count_owned(cells, e)]
            (spec_has_player(players, e) && count_owned(cells, e) < cfg.min_area_threshold)
                ==> spec_eliminated_ids(players, cells, cfg).contains(e),
    decreases players.len(),
{
    broadcast use lemma_seq_contains_after_push;

    if players.len() > 0 {
        lemma_eliminated_ids(players.drop_last(), cells, cfg);
        let elim = spec_eliminated_ids(players, cells, cfg);
        let p = players.last();
        assert forall|e: u32| #[trigger]
            elim.contains(e) implies (spec_has_player(players, e) && count_owned(cells, e)
            < cfg.min_area_threshold) by {
            if count_owned(cells, p.id) < cfg.min_area_threshold && e == p.id {
                assert(players[players.len() - 1].id == e);
            } else {
                assert(spec_eliminated_ids(players.drop_last(), cells, cfg).contains(e));
                assert(spec_has_player(players.drop_last(), e) && count_owned(cells, e)
                    < cfg.min_area_threshold);
                let v = choose|i: int|
                    0 <= i < players.drop_last().len() && (#[trigger] players.drop_last()[i]).id
                        == e;
                assert(players[v].id == e);
            }
        }
        assert forall|e: u32|
            spec_has_player(players, e) && count_owned(cells, e)
                < cfg.min_area_threshold implies #[trigger] elim.contains(e) by {
            let w = choose|i: int| 0 <= i < players.len() && (#[trigger] players[i]).id == e;
            if w == players.len() - 1 {
                assert(elim.contains(e));
            } else {
                assert(players.drop_last()[w].id == e);
                assert(spec_has_player(players.drop_last(), e));
                assert(spec_eliminated_ids(players.drop_last(), cells, cfg).contains(e));
            }
        }
    }
}

/// The movements left after eliminating every id in `ids`, in turn.
pub open spec fn spec_surviving_multi(ms: Seq<AttackMovement>, ids: Seq<u32>) -> Seq<
    AttackMovement,
>
    decreases ids.len(),
{
    if ids.len() == 0 {
        ms
    } else {
        spec_surviving_movements(spec_surviving_multi(ms, ids.drop_last()), ids.last())
    }
}

/// Everything a filter keeps was already there and satisfies the test.
proof fn lemma_filter_subset<A>(s: Seq<A>, pred: spec_fn(A) -> bool)
    ensures
        forall|x: A| #[trigger] s.filter(pred).contains(x) ==> s.contains(x) && pred(x),
    decreases s.len(),
{
    broadcast use lemma_seq_contains_after_push;
    broadcast use vstd::seq_lib::group_filter_ensures;

    if s.len() == 0 {
        assert(s.filter(pred) =~= Seq::<A>::empty()) by {
            reveal(Seq::filter);
        }
    } else {
        lemma_filter_subset(s.drop_last(), pred);
        s.drop_last().lemma_filter_push(s.last(), pred);
        assert(s.drop_last().push(s.last()) =~= s);
        assert forall|x: A| #[trigger] s.filter(pred).contains(x) implies s.contains(x) && pred(
            x,
        ) by {
            if s.drop_last().filter(pred).contains(x) {
                assert(s.drop_last().contains(x));
                let w = choose|i: int|
                    0 <= i < s.drop_last().len() && s.drop_last()[i] == x;
                assert(s[w] == x);
            }
        }
    }
}

/// Surviving every elimination in `ids` means never being named by one.
proof fn lemma_surviving_multi(ms: Seq<AttackMovement>, ids: Seq<u32>)
    ensures
        forall|m: AttackMovement|
            #[trigger] spec_surviving_multi(ms, ids).contains(m) <==> (ms.contains(m)
                && forall|k: int|
                0 <= k < ids.len() ==> m.source != ids[k] && m.target != MoveTarget::Enemy(
                    #[trigger] ids[k],
                )),
    decreases ids.len(),
{
    broadcast use vstd::seq_lib::group_filter_ensures;

    if ids.len() > 0 {
        lemma_surviving_multi(ms, ids.drop_last());
        let prev = spec_surviving_multi(ms, ids.drop_last());
        let e = ids.last();
        let cur = spec_surviving_multi(ms, ids);
        lemma_filter_subset(prev, crate::state::surviving_pred(e));
        assert forall|m: AttackMovement| #[trigger] cur.contains(m) implies (ms.contains(m)
            && forall|k: int|
            0 <= k < ids.len() ==> m.source != ids[k] && m.target != MoveTarget::Enemy(
                #[trigger] ids[k],
            )) by {
            assert(prev.contains(m));
            assert(crate::state::surviving_pred(e)(m));
            assert forall|k: int| 0 <= k < ids.len() implies m.source != ids[k] && m.target
                != MoveTarget::Enemy(#[trigger] ids[k]) by {
                if k < ids.len() - 1 {
                    assert(ids.drop_last()[k] == ids[k]);
                }
            }
        }
        assert forall|m: AttackMovement|
            ms.contains(m) && (forall|k: int|
                0 <= k < ids.len() ==> m.source != ids[k] && m.target != MoveTarget::Enemy(
                    #[trigger] ids[k],
                )) implies #[trigger] cur.contains(m) by {
            assert forall|k: int| 0 <= k < ids.drop_last().len() implies m.source != (
            #[trigger] ids.drop_last()[k]) && m.target != MoveTarget::Enemy(
                ids.drop_last()[k],
            ) by {
                assert(ids.drop_last()[k] == ids[k]);
            }
            assert(prev.contains(m));
            let w = choose|i: int| 0 <= i < prev.len() && prev[i] == m;
            assert(ids[ids.len() - 1] == e);
            assert(crate::state::surviving_pred(e)(m));
            prev.lemma_filter_contains(crate::state::surviving_pred(e), w);
        }
    }
}

impl GameState {
    /// Recount and elimination: every player's area is recomputed by a
    /// full grid scan, never trusted incrementally. Players below the
    /// minimum area threshold leave the roster in the same pass, strictly
    /// after the mutation phases that produced the count: their cells
    /// revert to Available and every movement naming them is dropped.
    /// Survivors carry the fresh count as their area, with resources
    /// clamped to the possibly smaller cap, so that afterwards every
    /// roster entry's area equals its owned-cell count on the final grid.
    pub fn update_player_areas(&mut self)
        requires
            old(self).wf(),
        ensures
            final(self).wf(),
            final(self).config == old(self).config,
            final(self).world_map == old(self).world_map,
            final(self).update_timers == old(self).update_timers,
            final(self).update_count == old(self).update_count,
            final(self).neighbor_pairs@ == old(self).neighbor_pairs@,
            final(self).rng == old(self).rng,
            final(self).grid.width == old(self).grid.width,
            final(self).grid.height == old(self).grid.height,
            final(self).players@ == spec_recounted(
                old(self).players@,
                old(self).grid.cells@,
                old(self).config,
            ),
            forall|i: int|
                0 <= i < final(self).players@.len() ==> (#[trigger] final(self).players@[i]).area
                    == count_owned(final(self).grid.cells@, final(self).players@[i].id),
            forall|c: int|
                0 <= c < old(self).grid.cells@.len() ==> final(self).grid.cells@[c] == (if (
                exists|e: u32|
                    #[trigger] spec_eliminated_ids(
                        old(self).players@,
                        old(self).grid.cells@,
                        old(self).config,
                    ).contains(e) && old(self).grid.cells@[c] == GridCell::PlayerId(e)) {
                    GridCell::Available
                } else {
                    old(self).grid.cells@[c]
                }),
            forall|m: AttackMovement| #[trigger]
                final(self).attack_movements@.contains(m) ==> old(self).attack_movements@.contains(m),
            forall|m: AttackMovement| #[trigger]
                old(self).attack_movements@.contains(m) && count_owned(
                    old(self).grid.cells@,
                    m.source,
                ) >= old(self).config.min_area_threshold && (m.target matches MoveTarget::Enemy(t)
                    ==> count_owned(old(self).grid.cells@, t)
                    >= old(self).config.min_area_threshold) ==> final(self).attack_movements@.contains(m),
    {
        let ghost cells0 = self.grid.cells@;
        let ghost players0 = self.players@;
        let ghost cfg0 = self.config;
        let ghost ms0 = self.attack_movements@;
        let cfg: GameConfig = self.config;
        let len: usize = self.players.len();
        let mut survivors: Vec<Player> = Vec::new();
        let mut elim: Vec<u32> = Vec::new();
        let mut i: usize = 0;
        while i < len
            invariant
                self == old(self),
                self.wf(),
                cells0 == self.grid.cells@,
                players0 == self.players@,
                cfg0 == self.config,
                cfg == self.config,
                len == self.players@.len(),
                i <= len,
                survivors@ == spec_recounted(players0.take(i as int), cells0, cfg0),
                elim@ == spec_eliminated_ids(players0.take(i as int), cells0, cfg0),
            decreases len - i,
        {
            proof {
                assert(players0.take(i + 1int).drop_last() =~= players0.take(i as int));
                assert(players0.take(i + 1int).last() == players0[i as int]);
                lemma_count_owned_nonneg(cells0, players0[i as int].id);
            }
            let p: Player = self.players[i];
            let cnt: usize = self.grid.count_owner(p.id);
            if (cnt as i64) >= cfg.min_area_threshold {
                let mut q: Player = p;
                q.area = cnt as i64;
                proof {
                    assert(cnt <= self.grid.cells@.len());
                }
                let maxr: i64 = q.max_resources(&cfg);
                if q.resources > maxr {
                    q.resources = maxr;
                }
                survivors.push(q);
                proof {
                    assert(q == spec_recounted_player(players0[i as int], cells0, cfg0));
                }
            } else {
                elim.push(p.id);
            }
            i = i + 1;
        }
        proof {
            assert(players0.take(len as int) =~= players0);
            lemma_recounted_ids(players0, cells0, cfg0);
            lemma_eliminated_ids(players0, cells0, cfg0);
        }
        let ghost elim_ids = spec_eliminated_ids(players0, cells0, cfg0);
        let elen: usize = elim.len();
        let mut t: usize = 0;
        while t < elen
            invariant
                elen == elim@.len(),
                t <= elen,
                elim@ == elim_ids,
                elim_ids == spec_eliminated_ids(players0, cells0, cfg0),
                players0 == old(self).players@,
                cells0 == old(self).grid.cells@,
                cfg0 == old(self).config,
                ms0 == old(self).attack_movements@,
                self.wf(),
                self.config == old(self).config,
                self.players@ == old(self).players@,
                self.world_map == old(self).world_map,
                self.update_timers == old(self).update_timers,
                self.update_count == old(self).update_count,
                self.neighbor_pairs@ == old(self).neighbor_pairs@,
                self.rng == old(self).rng,
                self.grid.width == old(self).grid.width,
                self.grid.height == old(self).grid.height,
                self.grid.cells@.len() == cells0.len(),
                forall|e: u32|
                    #[trigger] elim_ids.contains(e) <==> (spec_has_player(players0, e)
                        && count_owned(cells0, e) < cfg0.min_area_threshold),
                forall|c: int|
                    0 <= c < cells0.len() ==> self.grid.cells@[c] == (if (exists|u: int|
                        0 <= u < t && cells0[c] == GridCell::PlayerId(#[trigger] elim_ids[u])) {
                        GridCell::Available
                    } else {
                        cells0[c]
                    }),
                self.attack_movements@ == spec_surviving_multi(ms0, elim_ids.take(t as int)),
            decreases elen - t,
        {
            let ghost pre = self.grid.cells@;
            let ghost pre_ms = self.attack_movements@;
            let e: u32 = elim[t];
            self.eliminate_player(e);
            proof {
                assert(elim_ids.take(t + 1int).drop_last() =~= elim_ids.take(t as int));
                assert(elim_ids.take(t + 1int).last() == elim_ids[t as int]);
                assert(self.attack_movements@ == spec_surviving_multi(
                    ms0,
                    elim_ids.take(t + 1int),
                ));
                assert forall|c: int| 0 <= c < cells0.len() implies self.grid.cells@[c] == (if (
                exists|u: int|
                    0 <= u < t + 1 && cells0[c] == GridCell::PlayerId(#[trigger] elim_ids[u])) {
                    GridCell::Available
                } else {
                    cells0[c]
                }) by {
                    if exists|u: int|
                        0 <= u < t + 1 && cells0[c] == GridCell::PlayerId(#[trigger] elim_ids[u]) {
                        let u = choose|u: int|
                            0 <= u < t + 1 && cells0[c] == GridCell::PlayerId(
                                #[trigger] elim_ids[u],
                            );
                        if u < t {
                            assert(pre[c] == GridCell::Available);
                        } else {
                            assert(cells0[c] == GridCell::PlayerId(e));
                        }
                    }
                }
            }
            t = t + 1;
        }
        proof {
            assert(elim_ids.take(elen as int) =~= elim_ids);
        }
        self.players = survivors;
        proof {
            lemma_surviving_multi(ms0, elim_ids);
            lemma_filter_subset_chain_facts(
                *old(self),
                *self,
                players0,
                cells0,
                cfg0,
                ms0,
                elim_ids,
            );
            lemma_eliminated_ids(players0, cells0, cfg0);
            assert forall|c: int| 0 <= c < cells0.len() implies self.grid.cells@[c] == (if (
            exists|e: u32|
                #[trigger] spec_eliminated_ids(players0, cells0, cfg0).contains(e) && cells0[c]
                    == GridCell::PlayerId(e)) {
                GridCell::Available
            } else {
                cells0[c]
            }) by {
                if exists|u: int|
                    0 <= u < elim_ids.len() && cells0[c] == GridCell::PlayerId(
                        #[trigger] elim_ids[u],
                    ) {
                    let u = choose|u: int|
                        0 <= u < elim_ids.len() && cells0[c] == GridCell::PlayerId(
                            #[trigger] elim_ids[u],
                        );
                    assert(spec_eliminated_ids(players0, cells0, cfg0).contains(elim_ids[u]));
                } else {
                    if exists|e: u32|
                        #[trigger] spec_eliminated_ids(players0, cells0, cfg0).contains(e)
                            && cells0[c] == GridCell::PlayerId(e) {
                        let e = choose|e: u32|
                            #[trigger] spec_eliminated_ids(players0, cells0, cfg0).contains(e)
                                && cells0[c] == GridCell::PlayerId(e);
                        let u = choose|u: int| 0 <= u < elim_ids.len() && elim_ids[u] == e;
                        assert(cells0[c] == GridCell::PlayerId(elim_ids[u]));
                        assert(false);
                    }
                }
            }
            assert forall|m: AttackMovement| #[trigger]
                old(self).attack_movements@.contains(m) && count_owned(cells0, m.source)
                    >= cfg0.min_area_threshold && (m.target matches MoveTarget::Enemy(t)
                    ==> count_owned(cells0, t)
                    >= cfg0.min_area_threshold) implies self.attack_movements@.contains(m) by {
                assert forall|k: int| 0 <= k < elim_ids.len() implies m.source != elim_ids[k]
                    && m.target != MoveTarget::Enemy(#[trigger] elim_ids[k]) by {
                    assert(spec_eliminated_ids(players0, cells0, cfg0).contains(elim_ids[k]));
                    assert(count_owned(cells0, elim_ids[k]) < cfg0.min_area_threshold);
                }
            }
        }
    }
}

/// The closing argument of the recount: the new roster is valid, every
/// surviving movement names only survivors, and each survivor's area is
/// the owned-cell count of the final grid.
proof fn lemma_filter_subset_chain_facts(
    pre: GameState,
    post: GameState,
    players0: Seq<Player>,
    cells0: Seq<GridCell>,
    cfg0: GameConfig,
    ms0: Seq<AttackMovement>,
    elim_ids: Seq<u32>,
)
    requires
        pre.wf(),
        players0 == pre.players@,
        cells0 == pre.grid.cells@,
        cfg0 == pre.config,
        ms0 == pre.attack_movements@,
        elim_ids == spec_eliminated_ids(players0, cells0, cfg0),
        post.config == cfg0,
        post.world_map == pre.world_map,
        post.grid.wf(),
        post.grid.width == pre.grid.width,
        post.grid.height == pre.grid.height,
        post.grid.cells@.len() == cells0.len(),
        post.update_timers == pre.update_timers,
        post.update_count == pre.update_count,
        post.players@ == spec_recounted(players0, cells0, cfg0),
        forall|c: int|
            0 <= c < cells0.len() ==> post.grid.cells@[c] == (if (exists|u: int|
                0 <= u < elim_ids.len() && cells0[c] == GridCell::PlayerId(
                    #[trigger] elim_ids[u],
                )) {
                GridCell::Available
            } else {
                cells0[c]
            }),
        forall|m: AttackMovement|
            #[trigger] post.attack_movements@.contains(m) <==> (ms0.contains(m) && forall|k: int|
                0 <= k < elim_ids.len() ==> m.source != elim_ids[k] && m.target
                    != MoveTarget::Enemy(#[trigger] elim_ids[k])),
        forall|i: int|
            0 <= i < post.attack_movements@.len() ==> post.attack_movements@.contains(
                #[trigger] post.attack_movements@[i],
            ),
    ensures
        players_wf(post.players@, cfg0),
        forall|i: int|
            0 <= i < post.attack_movements@.len() ==> (#[trigger] post.attack_movements@[i]).wf(
                post.grid.width as int,
                post.grid.height as int,
            ) && movement_refs_ok(post.attack_movements@[i], post.players@),
        forall|i: int|
            0 <= i < post.players@.len() ==> (#[trigger] post.players@[i]).area == count_owned(
                post.grid.cells@,
                post.players@[i].id,
            ),
{
    lemma_recounted_ids(players0, cells0, cfg0);
    lemma_recounted_entries(players0, cells0, cfg0);
    lemma_eliminated_ids(players0, cells0, cfg0);
    let rec = spec_recounted(players0, cells0, cfg0);
    assert(post.players@ == rec);
    // Each survivor is a recounted old entry, hence economically valid.
    assert forall|i: int| 0 <= i < rec.len() implies (#[trigger] rec[i]).wf(cfg0) by {
        let j = choose|j: int|
            0 <= j < players0.len() && rec[i] == spec_recounted_player(players0[j], cells0, cfg0)
                && count_owned(cells0, players0[j].id) >= cfg0.min_area_threshold;
        lemma_count_owned_nonneg(cells0, players0[j].id);
        cfg0.lemma_resource_cap_bound(count_owned(cells0, players0[j].id));
    };
    // Ids in the new roster never repeat: they repeat in the old one else.
    assert forall|i: int, j: int| 0 <= i < j < rec.len() implies (#[trigger] rec[i]).id != (
    #[trigger] rec[j]).id by {
        lemma_recounted_distinct(players0, cells0, cfg0, i, j);
    };
    // Survivors own exactly the cells they owned before the reverts.
    assert forall|i: int| 0 <= i < rec.len() implies (#[trigger] rec[i]).area == count_owned(
        post.grid.cells@,
        rec[i].id,
    ) by {
        let id = rec[i].id;
        assert(spec_has_player(spec_recounted(players0, cells0, cfg0), id));
        assert(count_owned(cells0, id) >= cfg0.min_area_threshold);
        assert forall|c: int|
            0 <= c < cells0.len() implies ((cells0[c] == GridCell::PlayerId(id)) <==> (
        post.grid.cells@[c] == GridCell::PlayerId(id))) by {
            if exists|u: int|
                0 <= u < elim_ids.len() && cells0[c] == GridCell::PlayerId(#[trigger] elim_ids[u]) {
                let u = choose|u: int|
                    0 <= u < elim_ids.len() && cells0[c] == GridCell::PlayerId(
                        #[trigger] elim_ids[u],
                    );
                assert(spec_eliminated_ids(players0, cells0, cfg0).contains(elim_ids[u]));
                assert(count_owned(cells0, elim_ids[u]) < cfg0.min_area_threshold);
                assert(elim_ids[u] != id);
            }
        }
        lemma_count_owned_pointwise(cells0, post.grid.cells@, id);
        let j = choose|j: int|
            0 <= j < players0.len() && rec[i] == spec_recounted_player(players0[j], cells0, cfg0)
                && count_owned(cells0, players0[j].id) >= cfg0.min_area_threshold;
        assert(players0[j].id == id);
        lemma_count_owned_nonneg(cells0, id);
        assert(rec[i].area == count_owned(cells0, id));
    };
    // Surviving movements are old ones, so structurally fine, and they
    // name only ids the recount kept.
    assert forall|i: int| 0 <= i < post.attack_movements@.len() implies (
    #[trigger] post.attack_movements@[i]).wf(post.grid.width as int, post.grid.height as int)
        && movement_refs_ok(post.attack_movements@[i], rec) by {
        let m = post.attack_movements@[i];
        assert(post.attack_movements@.contains(m));
        assert(ms0.contains(m));
        let w = choose|w: int| 0 <= w < ms0.len() && ms0[w] == m;
        assert(m.wf(pre.grid.width as int, pre.grid.height as int));
        assert(movement_refs_ok(m, players0));
        assert(!spec_eliminated_ids(players0, cells0, cfg0).contains(m.source)) by {
            if elim_ids.contains(m.source) {
                let u = choose|u: int| 0 <= u < elim_ids.len() && elim_ids[u] == m.source;
                assert(m.source != elim_ids[u]);
            }
        }
        assert(count_owned(cells0, m.source) >= cfg0.min_area_threshold) by {
            if count_owned(cells0, m.source) < cfg0.min_area_threshold {
                assert(spec_has_player(players0, m.source));
                assert(spec_eliminated_ids(players0, cells0, cfg0).contains(m.source));
            }
        }
        assert(spec_has_player(spec_recounted(players0, cells0, cfg0), m.source));
        match m.target {
            MoveTarget::Enemy(tt) => {
                assert(!spec_eliminated_ids(players0, cells0, cfg0).contains(tt)) by {
                    if elim_ids.contains(tt) {
                        let u = choose|u: int| 0 <= u < elim_ids.len() && elim_ids[u] == tt;
                        assert(m.target != MoveTarget::Enemy(elim_ids[u]));
                    }
                }
                assert(count_owned(cells0, tt) >= cfg0.min_area_threshold) by {
                    if count_owned(cells0, tt) < cfg0.min_area_threshold {
                        assert(spec_has_player(players0, tt));
                        assert(spec_eliminated_ids(players0, cells0, cfg0).contains(tt));
                    }
                }
                assert(spec_has_player(spec_recounted(players0, cells0, cfg0), tt));
            },
            MoveTarget::EmptySpace => {},
        }
    };
}

/// Distinct roster entries stay distinct through the recount.
proof fn lemma_recounted_distinct(
    players: Seq<Player>,
    cells: Seq<GridCell>,
    cfg: GameConfig,
    i: int,
    j: int,
)
    requires
        players_wf(players, cfg),
        0 <= i < j < spec_recounted(players, cells, cfg).len(),
    ensures
        spec_recounted(players, cells, cfg)[i].id != spec_recounted(players, cells, cfg)[j].id,
    decreases players.len(),
{
    let rec = spec_recounted(players, cells, cfg);
    let rest = spec_recounted(players.drop_last(), cells, cfg);
    let p = players.last();
    assert(players.len() > 0);
    assert forall|a: int, b: int|
        0 <= a < b < players.drop_last().len() implies (#[trigger] players.drop_last()[a]).id != (
    #[trigger] players.drop_last()[b]).id by {
        assert(players.drop_last()[a] == players[a]);
        assert(players.drop_last()[b] == players[b]);
    }
    assert forall|a: int| 0 <= a < players.drop_last().len() implies (
    #[trigger] players.drop_last()[a]).wf(cfg) by {
        assert(players.drop_last()[a] == players[a]);
    }
    if count_owned(cells, p.id) >= cfg.min_area_threshold && j == rec.len() - 1 {
        lemma_recounted_ids(players.drop_last(), cells, cfg);
        assert(rec[i] == rest[i]);
        assert(rest.contains(rest[i]));
        assert(spec_has_player(rest, rest[i].id));
        let v = choose|v: int|
            0 <= v < players.drop_last().len() && (#[trigger] players.drop_last()[v]).id
                == rest[i].id;
        assert(players[v].id == rest[i].id);
        assert(players[players.len() - 1].id == p.id);
        assert(rec[j].id == p.id);
    } else {
        assert(rec[i] == rest[i]);
        assert(rec[j] == rest[j]);
        lemma_recounted_distinct(players.drop_last(), cells, cfg, i, j);
    }
}

impl GameState {
    /// Return unspent investment to a player, clamped at the resource cap
    /// so the economy invariant survives; an unknown id changes nothing.
    fn refund_resources(&mut self, id: u32, amount: i64)
        requires
            old(self).wf(),
            0 <= amount,
        ensures
            final(self).wf(),
            final(self).config == old(self).config,
            final(self).grid == old(self).grid,
            final(self).world_map == old(self).world_map,
            final(self).attack_movements@ == old(self).attack_movements@,
            final(self).update_timers == old(self).update_timers,
            final(self).update_count == old(self).update_count,
            final(self).neighbor_pairs@ == old(self).neighbor_pairs@,
            final(self).rng == old(self).rng,
            final(self).players@ == spec_players_refunded(
                old(self).players@,
                old(self).config,
                id,
                amount,
            ),
    {
        proof {
            if !spec_has_player(self.players@, id) {
                assert(self.players@ =~= spec_players_refunded(
                    self.players@,
                    self.config,
                    id,
                    amount,
                ));
            }
        }
        let idx: Option<usize> = self.find_player_index(id);
        match idx {
            None => (),
            Some(i) => {
                let cfg: GameConfig = self.config;
                let mut p: Player = self.players[i];
                let maxr: i64 = p.max_resources(&cfg);
                let summed: i64 = if amount > maxr {
                    maxr
                } else {
                    p.resources + amount
                };
                p.resources = if summed > maxr {
                    maxr
                } else {
                    summed
                };
                self.players.set(i, p);
                proof {
                    assert(players_wf(self.players@, self.config));
                    assert forall|pid: u32|
                        spec_has_player(old(self).players@, pid) implies spec_has_player(
                        self.players@,
                        pid,
                    ) by {
                        let w = choose|k: int|
                            0 <= k < old(self).players@.len() && (#[trigger] old(self).players@[k]).id == pid;
                        assert(self.players@[w].id == pid);
                    }
                    assert forall|k: int|
                        0 <= k < old(self).players@.len() && k != i implies old(
                        self,
                    ).players@[k].id != id by {}
                    assert(self.players@ =~= spec_players_refunded(
                        old(self).players@,
                        old(self).config,
                        id,
                        amount,
                    ));
                }
            },
        }
    }
}

/// Resources after a clamped refund.
pub open spec fn spec_refunded(p: Player, cfg: GameConfig, amount: i64) -> i64 {
    let maxr = spec_max_resources(p.area as int, cfg);
    if p.resources + amount > maxr {
        maxr as i64
    } else {
        (p.resources + amount) as i64
    }
}

/// The roster after a refund: the named player's resources rise by the
/// amount, clamped at its cap; everyone else is untouched.
pub open spec fn spec_players_refunded(
    ps: Seq<Player>,
    cfg: GameConfig,
    id: u32,
    amount: i64,
) -> Seq<Player> {
    Seq::new(
        ps.len(),
        |i: int|
            if ps[i].id == id {
                Player { resources: spec_refunded(ps[i], cfg, amount), ..ps[i] }
            } else {
                ps[i]
            },
    )
}

/// The roster after the target pays its side of an advance.
pub open spec fn spec_players_charged(ps: Seq<Player>, id: u32, amount: i64) -> Seq<Player> {
    Seq::new(
        ps.len(),
        |i: int|
            if ps[i].id == id {
                Player { resources: (ps[i].resources - amount) as i64, ..ps[i] }
            } else {
                ps[i]
            },
    )
}

/// A candidate of the coming advance, whether or not the frontier has
/// been seeded yet: an unstarted movement probes from its initial scan.
pub open spec fn spec_advance_candidate(m: AttackMovement, g: Grid, p: (usize, usize)) -> bool {
    if m.is_started {
        spec_is_candidate(m, g, p)
    } else {
        exists|q: (usize, usize), k: int|
            {
                &&& crate::attack::spec_is_start_pixel(m, g, q)
                &&& 0 <= k < 5
                &&& (#[trigger] crate::attack::spec_shift(
                    q,
                    k,
                    g.width as int,
                    g.height as int,
                )) == Some(p)
                &&& matches_target(g.spec_cell(p.0 as int, p.1 as int), m.target)
            }
    }
}

/// `cands` enumerates exactly the advance's candidates, without repeats.
pub open spec fn spec_candidate_enum(
    m: AttackMovement,
    g: Grid,
    cands: Seq<(usize, usize)>,
) -> bool {
    &&& forall|p: (usize, usize)| cands.contains(p) <==> spec_advance_candidate(m, g, p)
    &&& forall|i: int, j: int| 0 <= i < j < cands.len() ==> cands[i] != cands[j]
}

/// The opposing player's record, as the cost model sees it.
pub open spec fn spec_tp_of(pre: GameState, m0: AttackMovement) -> Option<Player> {
    match m0.target {
        MoveTarget::EmptySpace => None,
        MoveTarget::Enemy(t) => Some(
            pre.players@[crate::state::spec_find_player(pre.players@, t)],
        ),
    }
}

/// The exact outcome of one advance over the candidate enumeration
/// `cands`: with no candidates, an unpayable step, or an opponent that
/// cannot pay, the movement completes and its remainder is refunded;
/// otherwise every candidate becomes the source's, both sides pay
/// exactly their costs, the frontier moves onto the candidates, and the
/// movement survives exactly while its stake stays positive.
pub open spec fn spec_advance_outcome(
    pre: GameState,
    post: GameState,
    m0: AttackMovement,
    m1: AttackMovement,
    keep: bool,
    cands: Seq<(usize, usize)>,
) -> bool {
    let tp = spec_tp_of(pre, m0);
    let sc = spec_costs(m0, cands, tp, pre.world_map, pre.config).0;
    let tc = spec_costs(m0, cands, tp, pre.world_map, pre.config).1;
    let cannot = cands.len() == 0 || m0.investment < sc || (tp matches Some(t) && t.resources
        < tc);
    &&& cannot ==> {
        &&& !keep
        &&& post.grid == pre.grid
        &&& m1.investment == m0.investment
        &&& post.players@ == spec_players_refunded(
            pre.players@,
            pre.config,
            m0.source,
            m0.investment,
        )
    }
    &&& !cannot ==> {
        &&& m1.investment == m0.investment - sc
        &&& m1.border_pixels@ == cands
        &&& (keep <==> m1.investment > 0)
        &&& forall|x: int, y: int|
            0 <= x < pre.grid.width && 0 <= y < pre.grid.height ==> post.grid.spec_cell(x, y) == (
            if cands.contains((x as usize, y as usize)) {
                GridCell::PlayerId(m0.source)
            } else {
                pre.grid.spec_cell(x, y)
            })
        &&& (m0.target is EmptySpace ==> post.players@ == pre.players@)
        &&& (m0.target matches MoveTarget::Enemy(t) ==> post.players@ == spec_players_charged(
            pre.players@,
            t,
            tc as i64,
        ))
    }
}

/// Seeding the frontier does not change what the coming advance can
/// reach: the started movement's candidates are the unstarted one's.
proof fn lemma_start_candidates(m0: AttackMovement, m1: AttackMovement, g: Grid)
    requires
        !m0.is_started,
        m1.is_started,
        m1.source == m0.source,
        m1.target == m0.target,
        forall|p: (usize, usize)|
            m1.border_pixels@.contains(p) <==> crate::attack::spec_is_start_pixel(m0, g, p),
    ensures
        forall|p: (usize, usize)|
            spec_is_candidate(m1, g, p) <==> spec_advance_candidate(m0, g, p),
{
    assert forall|p: (usize, usize)| #[trigger]
        spec_is_candidate(m1, g, p) implies spec_advance_candidate(m0, g, p) by {
        let (a, b) = choose|a: int, b: int|
            {
                &&& 0 <= a < m1.border_pixels@.len()
                &&& 0 <= b < 5
                &&& crate::attack::spec_shift(
                    m1.border_pixels@[a],
                    b,
                    g.width as int,
                    g.height as int,
                ) == Some(p)
                &&& matches_target(g.spec_cell(p.0 as int, p.1 as int), m1.target)
            };
        assert(m1.border_pixels@.contains(m1.border_pixels@[a]));
        assert(crate::attack::spec_is_start_pixel(m0, g, m1.border_pixels@[a]));
    }
    assert forall|p: (usize, usize)|
        spec_advance_candidate(m0, g, p) implies #[trigger] spec_is_candidate(m1, g, p) by {
        let (q, k) = choose|q: (usize, usize), k: int|
            {
                &&& crate::attack::spec_is_start_pixel(m0, g, q)
                &&& 0 <= k < 5
                &&& (#[trigger] crate::attack::spec_shift(
                    q,
                    k,
                    g.width as int,
                    g.height as int,
                )) == Some(p)
                &&& matches_target(g.spec_cell(p.0 as int, p.1 as int), m0.target)
            };
        assert(m1.border_pixels@.contains(q));
        let a = choose|a: int| 0 <= a < m1.border_pixels@.len() && m1.border_pixels@[a] == q;
        assert(spec_is_candidate(m1, g, p));
    }
}

impl GameState {
    /// One advance of one expansion front against the current grid:
    /// compute the candidate set; with no candidates, or a step the
    /// remaining investment cannot pay, or an opponent that cannot pay its
    /// side, refund the remainder and complete (`false`). Otherwise claim
    /// every candidate cell for the source, charge both sides, and move
    /// the frontier onto the claimed cells; the movement completes anyway
    /// once its stake is exhausted. Cells only ever change from matching
    /// the target predicate to owned by the source, so terrain is never
    /// touched; the stake never grows; and a front into empty space never
    /// claims more cells than its remaining investment, since each cell
    /// costs at least one.
    pub fn advance_movement(&mut self, m: &mut AttackMovement) -> (keep: bool)
        requires
            old(self).wf(),
            old(m).wf(old(self).grid.width as int, old(self).grid.height as int),
            movement_refs_ok(*old(m), old(self).players@),
        ensures
            final(self).wf(),
            final(self).config == old(self).config,
            final(self).world_map == old(self).world_map,
            final(self).update_timers == old(self).update_timers,
            final(self).update_count == old(self).update_count,
            final(self).neighbor_pairs@ == old(self).neighbor_pairs@,
            final(self).rng == old(self).rng,
            final(self).attack_movements@ == old(self).attack_movements@,
            final(self).grid.width == old(self).grid.width,
            final(self).grid.height == old(self).grid.height,
            final(self).grid.cells@.len() == old(self).grid.cells@.len(),
            final(self).players@.len() == old(self).players@.len(),
            forall|i: int|
                0 <= i < old(self).players@.len() ==> (#[trigger] final(self).players@[i]) == (
                Player { resources: final(self).players@[i].resources, ..old(self).players@[i] }),
            forall|i: int|
                0 <= i < old(self).players@.len() && (#[trigger] old(self).players@[i]).id != old(m).source && old(m).target != MoveTarget::Enemy(old(self).players@[i].id) ==> final(self).players@[i] == old(self).players@[i],
            final(m).source == old(m).source,
            final(m).target == old(m).target,
            final(m).investment <= old(m).investment,
            final(m).is_started,
            keep ==> final(m).wf(old(self).grid.width as int, old(self).grid.height as int) && 1
                <= final(m).investment,
            forall|c: int|
                0 <= c < old(self).grid.cells@.len() ==> final(self).grid.cells@[c] == old(self).grid.cells@[c] || (matches_target(old(self).grid.cells@[c], old(m).target)
                    && final(self).grid.cells@[c] == GridCell::PlayerId(old(m).source)),
            old(m).target is EmptySpace ==> count_owned(final(self).grid.cells@, old(m).source)
                <= count_owned(old(self).grid.cells@, old(m).source) + old(m).investment,
            exists|cands: Seq<(usize, usize)>|
                #[trigger] spec_candidate_enum(*old(m), old(self).grid, cands)
                    && spec_advance_outcome(
                    *old(self),
                    *final(self),
                    *old(m),
                    *final(m),
                    keep,
                    cands,
                ),
    {
        let ghost g0 = self.grid.cells@;
        let ghost m0 = *m;
        proof {
            lemma_count_owned_nonneg(g0, m0.source);
        }
        if !m.is_started {
            m.start(&self.grid);
        }
        let next: Vec<(usize, usize)> = m.get_next_pixels(&self.grid);
        proof {
            if !m0.is_started {
                lemma_start_candidates(m0, *m, old(self).grid);
            }
            assert(spec_candidate_enum(m0, old(self).grid, next@));
            lemma_distinct_pixels_bound(
                next@,
                self.grid.width as int,
                self.grid.height as int,
            );
            assert forall|k: int| 0 <= k < next@.len() implies matches_target(
                self.grid.cells@[(#[trigger] next@[k]).1 * self.grid.width + next@[k].0],
                m.target,
            ) by {
                assert(next@.contains(next@[k]));
                assert(spec_is_candidate(*m, self.grid, next@[k]));
                let (a, b) = choose|a: int, b: int|
                    {
                        &&& 0 <= a < m.border_pixels@.len()
                        &&& 0 <= b < 5
                        &&& crate::attack::spec_shift(
                            m.border_pixels@[a],
                            b,
                            self.grid.width as int,
                            self.grid.height as int,
                        ) == Some(next@[k])
                        &&& matches_target(
                            self.grid.spec_cell(next@[k].0 as int, next@[k].1 as int),
                            m.target,
                        )
                    };
            }
        }
        if next.len() == 0 {
            self.refund_resources(m.source, m.investment);
            proof {
                assert(spec_advance_outcome(*old(self), *self, m0, *m, false, next@));
            }
            return false;
        }
        let target_index: Option<usize> = match m.target {
            MoveTarget::Enemy(t) => self.find_player_index(t),
            MoveTarget::EmptySpace => None,
        };
        proof {
            match m0.target {
                MoveTarget::Enemy(t) => {
                    assert(spec_has_player(old(self).players@, t));
                    assert(target_index is Some);
                },
                MoveTarget::EmptySpace => {},
            }
        }
        let costs: (i64, i64) = match target_index {
            Some(ti) => {
                let tp: Player = self.players[ti];
                m.get_next_pixels_costs(&next, Some(&tp), &self.world_map, &self.config)
            },
            None => m.get_next_pixels_costs(&next, None, &self.world_map, &self.config),
        };
        let source_cost: i64 = costs.0;
        let target_cost: i64 = costs.1;
        proof {
            assert(m.investment == m0.investment);
            assert(source_cost == spec_costs(
                m0,
                next@,
                spec_tp_of(*old(self), m0),
                old(self).world_map,
                old(self).config,
            ).0 && target_cost == spec_costs(
                m0,
                next@,
                spec_tp_of(*old(self), m0),
                old(self).world_map,
                old(self).config,
            ).1);
        }
        if m.investment < source_cost {
            self.refund_resources(m.source, m.investment);
            proof {
                assert(spec_advance_outcome(*old(self), *self, m0, *m, false, next@));
            }
            return false;
        }
        match target_index {
            Some(ti) => {
                if self.players[ti].resources < target_cost {
                    self.refund_resources(m.source, m.investment);
                    proof {
                        assert(spec_advance_outcome(*old(self), *self, m0, *m, false, next@));
                    }
                    return false;
                }
            },
            None => (),
        }
        // Claim the candidate cells.
        let ghost gpre = self.grid.cells@;
        proof {
            assert(gpre == g0);
            lemma_count_owned_nonneg(g0, m0.source);
        }
        let len: usize = next.len();
        let mut i: usize = 0;
        while i < len
            invariant
                len == next@.len(),
                i <= len,
                self.config == old(self).config,
                self.world_map == old(self).world_map,
                self.players@ == old(self).players@,
                self.attack_movements@ == old(self).attack_movements@,
                self.update_timers == old(self).update_timers,
                self.update_count == old(self).update_count,
                self.neighbor_pairs@ == old(self).neighbor_pairs@,
                self.rng == old(self).rng,
                old(self).wf(),
                self.config.wf(),
                self.grid.wf(),
                self.grid.width == old(self).grid.width,
                self.grid.height == old(self).grid.height,
                g0 == old(self).grid.cells@,
                g0.len() == self.grid.cells@.len(),
                forall|k: int, l: int| 0 <= k < l < next@.len() ==> next@[k] != next@[l],
                forall|k: int|
                    0 <= k < next@.len() ==> (#[trigger] next@[k]).0 < self.grid.width
                        && next@[k].1 < self.grid.height,
                forall|k: int|
                    0 <= k < next@.len() ==> matches_target(
                        g0[next@[k].1 * self.grid.width + next@[k].0],
                        m0.target,
                    ),
                m.target == m0.target,
                m.source == m0.source,
                m0.target != MoveTarget::Enemy(m0.source),
                forall|c: int|
                    0 <= c < g0.len() ==> self.grid.cells@[c] == g0[c] || (matches_target(
                        g0[c],
                        m0.target,
                    ) && self.grid.cells@[c] == GridCell::PlayerId(m0.source)),
                forall|c: int|
                    0 <= c < g0.len() && !(exists|k: int|
                        0 <= k < i && (#[trigger] next@[k]).1 * self.grid.width + next@[k].0 == c)
                        ==> self.grid.cells@[c] == g0[c],
                forall|c: int|
                    0 <= c < g0.len() && (exists|k: int|
                        0 <= k < i && (#[trigger] next@[k]).1 * self.grid.width + next@[k].0 == c)
                        ==> self.grid.cells@[c] == GridCell::PlayerId(m0.source),
                count_owned(self.grid.cells@, m0.source) == count_owned(g0, m0.source) + i,
            decreases len - i,
        {
            let p: (usize, usize) = next[i];
            let ghost cidx = p.1 * self.grid.width as int + p.0;
            proof {
                self.grid.lemma_index(p.0 as int, p.1 as int);
                assert(self.grid.cells@[cidx] == g0[cidx]) by {
                    if exists|k: int|
                        0 <= k < i && (#[trigger] next@[k]).1 * self.grid.width + next@[k].0
                            == cidx {
                        let k = choose|k: int|
                            0 <= k < i && (#[trigger] next@[k]).1 * self.grid.width + next@[k].0
                                == cidx;
                        self.grid.lemma_index_injective(
                            next@[k].0 as int,
                            next@[k].1 as int,
                            p.0 as int,
                            p.1 as int,
                        );
                    }
                }
                assert(matches_target(g0[cidx], m0.target));
                assert(g0[cidx] != GridCell::PlayerId(m0.source));
                lemma_count_owned_update(
                    self.grid.cells@,
                    cidx,
                    GridCell::PlayerId(m0.source),
                    m0.source,
                );
            }
            self.grid.set(p.0, p.1, GridCell::PlayerId(m.source));
            proof {
                assert forall|c: int|
                    0 <= c < g0.len() && !(exists|k: int|
                        0 <= k < i + 1 && (#[trigger] next@[k]).1 * self.grid.width + next@[k].0
                            == c) implies self.grid.cells@[c] == g0[c] by {
                    assert(c != cidx);
                }
            }
            i = i + 1;
        }
        // Charge the opponent.
        match target_index {
            Some(ti) => {
                let mut tp: Player = self.players[ti];
                tp.resources = tp.resources - target_cost;
                self.players.set(ti, tp);
                proof {
                    assert(players_wf(self.players@, self.config));
                    assert forall|pid: u32|
                        spec_has_player(old(self).players@, pid) implies spec_has_player(
                        self.players@,
                        pid,
                    ) by {
                        let w = choose|k: int|
                            0 <= k < old(self).players@.len() && (#[trigger] old(self).players@[k]).id == pid;
                        assert(self.players@[w].id == pid);
                    }
                    let tid = m0.target->Enemy_0;
                    assert forall|k: int|
                        0 <= k < old(self).players@.len() && k != ti implies (#[trigger] old(
                        self,
                    ).players@[k]).id != tid by {}
                    assert(self.players@ =~= spec_players_charged(
                        old(self).players@,
                        tid,
                        target_cost,
                    ));
                }
            },
            None => (),
        }
        m.investment = m.investment - source_cost;
        m.border_pixels = next;
        let keep_flag: bool = m.investment > 0;
        proof {
            lemma_count_owned_nonneg(g0, m0.source);
            assert forall|x: int, y: int|
                0 <= x < old(self).grid.width && 0 <= y
                    < old(self).grid.height implies self.grid.spec_cell(x, y) == (
            if next@.contains((x as usize, y as usize)) {
                GridCell::PlayerId(m0.source)
            } else {
                old(self).grid.spec_cell(x, y)
            }) by {
                old(self).grid.lemma_index(x, y);
                let c = y * old(self).grid.width + x;
                if next@.contains((x as usize, y as usize)) {
                    let k = choose|k: int|
                        0 <= k < next@.len() && next@[k] == ((x as usize, y as usize));
                    assert(next@[k].1 * self.grid.width + next@[k].0 == c);
                    assert(self.grid.cells@[c] == GridCell::PlayerId(m0.source));
                } else {
                    if exists|k: int|
                        0 <= k < next@.len() && (#[trigger] next@[k]).1 * self.grid.width
                            + next@[k].0 == c {
                        let k = choose|k: int|
                            0 <= k < next@.len() && (#[trigger] next@[k]).1 * self.grid.width
                                + next@[k].0 == c;
                        if next@[k] != ((x as usize, y as usize)) {
                            self.grid.lemma_index_injective(
                                next@[k].0 as int,
                                next@[k].1 as int,
                                x,
                                y,
                            );
                        }
                        assert(next@.contains((x as usize, y as usize)));
                    }
                    assert(self.grid.cells@[c] == g0[c]);
                }
            }
            assert(spec_advance_outcome(*old(self), *self, m0, *m, keep_flag, next@));
        }
        keep_flag
    }
}

/// The surviving movements descend, in order, from the old list: each
/// keeps its source and target, never grows its stake, and is started.
pub open spec fn movements_descend(new: Seq<AttackMovement>, old: Seq<AttackMovement>) -> bool
    decreases old.len(),
{
    if old.len() == 0 {
        new.len() == 0
    } else {
        ||| (new.len() > 0 && new.last().source == old.last().source && new.last().target
            == old.last().target && new.last().investment <= old.last().investment
            && new.last().is_started && movements_descend(new.drop_last(), old.drop_last()))
        ||| movements_descend(new, old.drop_last())
    }
}

/// No movement of the list names this player, on either side.
pub open spec fn spec_unnamed(id: u32, ms: Seq<AttackMovement>) -> bool {
    forall|j: int|
        0 <= j < ms.len() ==> (#[trigger] ms[j]).source != id && ms[j].target
            != MoveTarget::Enemy(id)
}

/// A single player's expansion decision and the random state after it.
pub open spec fn spec_expansion_step(
    p: Player,
    pairs: Seq<crate::neighbors::NeighborPair>,
    cfg: GameConfig,
    s: u64,
) -> (Option<(u32, MoveTarget, i64)>, u64) {
    let s1 = crate::rng::lcg_next(s);
    let gate1 = crate::rng::lcg_draw(s1, 1000);
    if crate::player::spec_try_expand(p, cfg, gate1) {
        let neighbors = crate::neighbors::spec_neighbors_of(pairs, p.id);
        let s2 = crate::rng::lcg_next(s1);
        let gate = crate::rng::lcg_draw(s2, 1000);
        let s3 = crate::rng::lcg_next(s2);
        let pick = crate::rng::lcg_draw(s3, 0x100000000);
        let s4 = crate::rng::lcg_next(s3);
        let ratio = crate::rng::lcg_draw(s4, 1000);
        (
            match crate::player::spec_get_target(p, neighbors, cfg, gate, pick, ratio) {
                Some(ti) => Some((p.id, ti.0, ti.1)),
                None => None,
            },
            s4,
        )
    } else {
        (None, s1)
    }
}

/// The attempts the expansion pass collects over the first `upto`
/// players, and the generator state after them: a pure function of the
/// old state, because every draw comes from the seeded generator.
pub open spec fn spec_expansion_pass(
    players: Seq<Player>,
    pairs: Seq<crate::neighbors::NeighborPair>,
    cfg: GameConfig,
    s: u64,
    upto: int,
) -> (Seq<(u32, MoveTarget, i64)>, u64)
    decreases upto,
{
    if upto <= 0 {
        (Seq::empty(), s)
    } else {
        let prev = spec_expansion_pass(players, pairs, cfg, s, upto - 1);
        let step = spec_expansion_step(players[upto - 1], pairs, cfg, prev.1);
        (
            match step.0 {
                Some(a) => prev.0.push(a),
                None => prev.0,
            },
            step.1,
        )
    }
}

/// The front's pair was already on the board or comes from an attempt.
pub open spec fn spec_pair_known(
    m: AttackMovement,
    ms0: Seq<AttackMovement>,
    ats: Seq<(u32, MoveTarget, i64)>,
) -> bool {
    ||| exists|k: int|
        0 <= k < ms0.len() && (#[trigger] ms0[k]).source == m.source && ms0[k].target == m.target
    ||| exists|k: int|
        0 <= k < ats.len() && (#[trigger] ats[k]).0 == m.source && ats[k].1 == m.target
}

/// Knowing a pair is independent of everything but the pair.
proof fn lemma_pair_known_same(
    m1: AttackMovement,
    m2: AttackMovement,
    ms0: Seq<AttackMovement>,
    ats: Seq<(u32, MoveTarget, i64)>,
)
    requires
        m1.source == m2.source,
        m1.target == m2.target,
        spec_pair_known(m2, ms0, ats),
    ensures
        spec_pair_known(m1, ms0, ats),
{
    if exists|k: int|
        0 <= k < ms0.len() && (#[trigger] ms0[k]).source == m2.source && ms0[k].target
            == m2.target {
        let k = choose|k: int|
            0 <= k < ms0.len() && (#[trigger] ms0[k]).source == m2.source && ms0[k].target
                == m2.target;
        assert(ms0[k].source == m1.source && ms0[k].target == m1.target);
    } else {
        let k = choose|k: int|
            0 <= k < ats.len() && (#[trigger] ats[k]).0 == m2.source && ats[k].1 == m2.target;
        assert(ats[k].0 == m1.source && ats[k].1 == m1.target);
    }
}

/// After one netting-and-merge start, every front's pair was on the
/// board before the whole pass or belongs to an attempt.
proof fn lemma_pairs_after_start(
    pre: GameState,
    post: GameState,
    source: u32,
    target: MoveTarget,
    investment: i64,
    ms0: Seq<AttackMovement>,
    ats: Seq<(u32, MoveTarget, i64)>,
    kidx: int,
)
    requires
        0 <= kidx < ats.len(),
        (#[trigger] ats[kidx]).0 == source,
        ats[kidx].1 == target,
        forall|j: int|
            0 <= j < pre.attack_movements@.len() ==> spec_pair_known(
                #[trigger] pre.attack_movements@[j],
                ms0,
                ats,
            ),
        !crate::state::spec_attack_admissible(pre, source, target, investment)
            ==> post.attack_movements@ == pre.attack_movements@,
        crate::state::spec_attack_admissible(pre, source, target, investment) ==> ({
            let ms = pre.attack_movements@;
            let kept = crate::state::spec_netted_kept(ms, source, target, investment);
            let leftover = investment - crate::state::spec_netting_cancelled(
                ms,
                source,
                target,
                investment,
            );
            &&& leftover > 0 && crate::state::spec_find_same(kept, source, target) == -1 ==> {
                &&& post.attack_movements@.len() == kept.len() + 1
                &&& post.attack_movements@.subrange(0, kept.len() as int) == kept
                &&& post.attack_movements@.last().source == source
                &&& post.attack_movements@.last().target == target
            }
            &&& leftover > 0 && crate::state::spec_find_same(kept, source, target) >= 0 ==> ({
                let q = crate::state::spec_find_same(kept, source, target);
                post.attack_movements@ == kept.update(
                    q,
                    (AttackMovement {
                        investment: crate::state::spec_merged_investment(
                            kept[q].investment,
                            leftover as int,
                        ) as i64,
                        ..kept[q]
                    }),
                )
            })
            &&& leftover <= 0 ==> post.attack_movements@ == kept
        }),
    ensures
        forall|j: int|
            0 <= j < post.attack_movements@.len() ==> spec_pair_known(
                #[trigger] post.attack_movements@[j],
                ms0,
                ats,
            ),
{
    assert forall|j: int|
        0 <= j < post.attack_movements@.len() implies spec_pair_known(
        #[trigger] post.attack_movements@[j],
        ms0,
        ats,
    ) by {
        if !crate::state::spec_attack_admissible(pre, source, target, investment) {
            assert(post.attack_movements@[j] == pre.attack_movements@[j]);
        } else {
            let ms = pre.attack_movements@;
            let kept = crate::state::spec_netted_kept(ms, source, target, investment);
            let leftover = investment - crate::state::spec_netting_cancelled(
                ms,
                source,
                target,
                investment,
            );
            let jr = crate::state::spec_find_reverse(ms, source, target);
            let qs = crate::state::spec_find_same(kept, source, target);
            crate::state::lemma_find_reverse_properties(ms, source, target);
            crate::state::lemma_find_same_properties(kept, source, target);
            if leftover > 0 && qs == -1 && j == post.attack_movements@.len() - 1 {
                assert(ats[kidx].0 == post.attack_movements@[j].source && ats[kidx].1
                    == post.attack_movements@[j].target);
            } else {
                if leftover <= 0 {
                    assert(post.attack_movements@ == kept);
                    assert(0 <= j < kept.len());
                } else if qs >= 0 {
                    assert(post.attack_movements@ == kept.update(
                        qs,
                        (AttackMovement {
                            investment: crate::state::spec_merged_investment(
                                kept[qs].investment,
                                leftover as int,
                            ) as i64,
                            ..kept[qs]
                        }),
                    ));
                    assert(0 <= j < kept.len());
                } else {
                    assert(post.attack_movements@.len() == kept.len() + 1);
                    assert(0 <= j < kept.len());
                    assert(post.attack_movements@[j] == post.attack_movements@.subrange(
                        0,
                        kept.len() as int,
                    )[j]);
                }
                assert(post.attack_movements@[j].source == kept[j].source
                    && post.attack_movements@[j].target == kept[j].target);
                let y = if jr == -1 {
                    j
                } else if ms[jr].investment - crate::state::spec_netting_cancelled(
                    ms,
                    source,
                    target,
                    investment,
                ) > 0 {
                    j
                } else {
                    if j < jr {
                        j
                    } else {
                        j + 1
                    }
                };
                if jr >= 0 && !(ms[jr].investment - crate::state::spec_netting_cancelled(
                    ms,
                    source,
                    target,
                    investment,
                ) > 0) {
                    ms.remove_ensures(jr);
                    assert(kept == ms.remove(jr));
                }
                assert(kept[j].source == ms[y].source && kept[j].target == ms[y].target);
                lemma_pair_known_same(post.attack_movements@[j], ms[y], ms0, ats);
            }
        }
    }
}

/// No attempt of the pass is mounted by this player.
pub open spec fn spec_not_an_attacker(id: u32, attempts: Seq<(u32, MoveTarget, i64)>) -> bool {
    forall|k: int| 0 <= k < attempts.len() ==> (#[trigger] attempts[k]).0 != id
}

/// A player-id-preserving roster change preserves who is present.
proof fn lemma_same_ids_has(p1: Seq<Player>, p2: Seq<Player>)
    requires
        p1.len() == p2.len(),
        forall|i: int| 0 <= i < p1.len() ==> (#[trigger] p1[i]).id == p2[i].id,
    ensures
        forall|id: u32| spec_has_player(p1, id) <==> spec_has_player(p2, id),
{
    assert forall|id: u32| spec_has_player(p1, id) implies spec_has_player(p2, id) by {
        let w = choose|i: int| 0 <= i < p1.len() && (#[trigger] p1[i]).id == id;
        assert(p2[w].id == id);
    }
    assert forall|id: u32| spec_has_player(p2, id) implies spec_has_player(p1, id) by {
        let w = choose|i: int| 0 <= i < p2.len() && (#[trigger] p2[i]).id == id;
        assert(p1[w].id == id);
    }
}

impl GameState {
    /// Advance every expansion front once, in list order, against the grid
    /// as the previous fronts left it; each single advance follows
    /// `spec_advance_outcome` exactly. Completed fronts leave the list;
    /// the survivors descend from the old list in order, started, with
    /// their sources and targets kept and their stakes never grown. Cells
    /// only ever change from open (Available or owned) to owned, so
    /// terrain survives every advance; the roster keeps its ids, areas
    /// and positions, and a player no front names keeps its resources.
    pub fn process_attack_movements(&mut self)
        requires
            old(self).wf(),
        ensures
            final(self).wf(),
            final(self).config == old(self).config,
            final(self).world_map == old(self).world_map,
            final(self).update_timers == old(self).update_timers,
            final(self).update_count == old(self).update_count,
            final(self).neighbor_pairs@ == old(self).neighbor_pairs@,
            final(self).rng == old(self).rng,
            final(self).grid.width == old(self).grid.width,
            final(self).grid.height == old(self).grid.height,
            final(self).grid.cells@.len() == old(self).grid.cells@.len(),
            final(self).players@.len() == old(self).players@.len(),
            forall|i: int|
                0 <= i < old(self).players@.len() ==> (#[trigger] final(self).players@[i]) == (
                Player { resources: final(self).players@[i].resources, ..old(self).players@[i] }),
            forall|c: int|
                0 <= c < old(self).grid.cells@.len() ==> final(self).grid.cells@[c] == old(self).grid.cells@[c] || (old(self).grid.cells@[c].is_open() && final(self).grid.cells@[c] is PlayerId),
            movements_descend(final(self).attack_movements@, old(self).attack_movements@),
            forall|i: int|
                0 <= i < old(self).players@.len() && spec_unnamed(
                    (#[trigger] old(self).players@[i]).id,
                    old(self).attack_movements@,
                ) ==> final(self).players@[i] == old(self).players@[i],
    {
        let mut moves: Vec<AttackMovement> = Vec::new();
        core::mem::swap(&mut moves, &mut self.attack_movements);
        let ghost all_moves = moves@;
        let ghost w = self.grid.width as int;
        let ghost h = self.grid.height as int;
        proof {
            assert(all_moves == old(self).attack_movements@);
        }
        while moves.len() > 0
            invariant
                all_moves == old(self).attack_movements@,
                moves@.len() <= all_moves.len(),
                moves@ =~= all_moves.skip(all_moves.len() - moves@.len()),
                movements_descend(
                    self.attack_movements@,
                    all_moves.take(all_moves.len() - moves@.len()),
                ),
                forall|i: int|
                    0 <= i < old(self).players@.len() && spec_unnamed(
                        (#[trigger] old(self).players@[i]).id,
                        all_moves.take(all_moves.len() - moves@.len()),
                    ) ==> self.players@[i] == old(self).players@[i],
                self.wf(),
                self.config == old(self).config,
                self.world_map == old(self).world_map,
                self.update_timers == old(self).update_timers,
                self.update_count == old(self).update_count,
                self.neighbor_pairs@ == old(self).neighbor_pairs@,
                self.rng == old(self).rng,
                self.grid.width == old(self).grid.width,
                self.grid.height == old(self).grid.height,
                self.grid.cells@.len() == old(self).grid.cells@.len(),
                self.players@.len() == old(self).players@.len(),
                w == self.grid.width as int,
                h == self.grid.height as int,
                forall|i: int|
                    0 <= i < old(self).players@.len() ==> (#[trigger] self.players@[i]) == (
                    Player { resources: self.players@[i].resources, ..old(self).players@[i] }),
                forall|c: int|
                    0 <= c < old(self).grid.cells@.len() ==> self.grid.cells@[c] == old(self).grid.cells@[c] || (old(self).grid.cells@[c].is_open() && self.grid.cells@[c]
                        is PlayerId),
                forall|k: int|
                    0 <= k < moves@.len() ==> (#[trigger] moves@[k]).wf(w, h)
                        && movement_refs_ok(moves@[k], self.players@),
            decreases moves@.len(),
        {
            let ghost players_pre = self.players@;
            let ghost moves_pre = moves@;
            let ghost done = all_moves.len() - moves@.len();
            let ghost out_pre = self.attack_movements@;
            let mut mv: AttackMovement = moves.remove(0);
            proof {
                assert(mv == all_moves[done]);
            }
            let keep: bool = self.advance_movement(&mut mv);
            let ghost mv_post = mv;
            if keep {
                self.attack_movements.push(mv);
            }
            proof {
                lemma_same_ids_has(players_pre, self.players@);
                assert forall|k: int| 0 <= k < moves@.len() implies (#[trigger] moves@[k]).wf(
                    w,
                    h,
                ) && movement_refs_ok(moves@[k], self.players@) by {
                    assert(moves@[k] == moves_pre[k + 1]);
                }
                assert forall|c: int|
                    0 <= c < old(self).grid.cells@.len() implies self.grid.cells@[c] == old(self).grid.cells@[c] || (old(self).grid.cells@[c].is_open() && self.grid.cells@[c]
                    is PlayerId) by {
                }
                assert(moves@ =~= all_moves.skip(all_moves.len() - moves@.len()));
                let prefix1 = all_moves.take(done + 1);
                assert(prefix1.drop_last() =~= all_moves.take(done));
                assert(prefix1.last() == all_moves[done]);
                if keep {
                    assert(self.attack_movements@.drop_last() =~= out_pre);
                    assert(self.attack_movements@.last() == mv_post);
                    assert(movements_descend(self.attack_movements@, prefix1));
                } else {
                    assert(movements_descend(self.attack_movements@, prefix1));
                }
                assert forall|i: int|
                    0 <= i < old(self).players@.len() && spec_unnamed(
                        (#[trigger] old(self).players@[i]).id,
                        prefix1,
                    ) implies self.players@[i] == old(self).players@[i] by {
                    let id = old(self).players@[i].id;
                    assert forall|j: int|
                        0 <= j < done implies (#[trigger] all_moves.take(done)[j]).source != id
                            && all_moves.take(done)[j].target != MoveTarget::Enemy(id) by {
                        assert(prefix1[j] == all_moves.take(done)[j]);
                    }
                    assert(spec_unnamed(id, all_moves.take(done)));
                    assert(players_pre[i] == old(self).players@[i]);
                    assert(prefix1[done].source != id && prefix1[done].target
                        != MoveTarget::Enemy(id));
                    assert(all_moves[done].source != id && all_moves[done].target
                        != MoveTarget::Enemy(id));
                }
            }
        }
        proof {
            assert(all_moves.take(all_moves.len() as int) =~= all_moves);
        }
    }

    /// Each player rolls the configured expansion gate and, if it opens,
    /// draws a target from its neighbor-graph slice and an investment from
    /// the configured ratio range; the attempts — exactly the outcome of
    /// `spec_expansion_pass`, a pure function of the old state — then
    /// start as expansion fronts in one batch, in roster order, each
    /// through the exact netting of `start_attack`. Spending is the only
    /// effect on the roster: ids, areas and positions stay, no player's
    /// resources grow, and a player who mounts no attempt is untouched.
    /// Every front new to the list belongs to one of the attempts.
    #[verifier::rlimit(100)]
    pub fn process_expansion_attempts(&mut self)
        requires
            old(self).wf(),
        ensures
            final(self).wf(),
            final(self).config == old(self).config,
            final(self).grid == old(self).grid,
            final(self).world_map == old(self).world_map,
            final(self).update_timers == old(self).update_timers,
            final(self).update_count == old(self).update_count,
            final(self).neighbor_pairs@ == old(self).neighbor_pairs@,
            final(self).players@.len() == old(self).players@.len(),
            forall|i: int|
                0 <= i < old(self).players@.len() ==> (#[trigger] final(self).players@[i]) == (
                Player { resources: final(self).players@[i].resources, ..old(self).players@[i] })
                    && final(self).players@[i].resources <= old(self).players@[i].resources,
            final(self).rng.state == spec_expansion_pass(
                old(self).players@,
                old(self).neighbor_pairs@,
                old(self).config,
                old(self).rng.state,
                old(self).players@.len() as int,
            ).1,
            forall|i: int|
                0 <= i < old(self).players@.len() && spec_not_an_attacker(
                    (#[trigger] old(self).players@[i]).id,
                    spec_expansion_pass(
                        old(self).players@,
                        old(self).neighbor_pairs@,
                        old(self).config,
                        old(self).rng.state,
                        old(self).players@.len() as int,
                    ).0,
                ) ==> final(self).players@[i] == old(self).players@[i],
            forall|j: int|
                0 <= j < final(self).attack_movements@.len() ==> spec_pair_known(
                    #[trigger] final(self).attack_movements@[j],
                    old(self).attack_movements@,
                    spec_expansion_pass(
                        old(self).players@,
                        old(self).neighbor_pairs@,
                        old(self).config,
                        old(self).rng.state,
                        old(self).players@.len() as int,
                    ).0,
                ),
    {
        let cfg: GameConfig = self.config;
        let len: usize = self.players.len();
        let mut attempts: Vec<(u32, MoveTarget, i64)> = Vec::new();
        let mut i: usize = 0;
        while i < len
            invariant
                self.config == cfg,
                cfg.wf(),
                len == self.players@.len(),
                i <= len,
                forall|j: int| 0 <= j < len ==> (#[trigger] self.players@[j]).wf(cfg),
                self.players@ == old(self).players@,
                self.grid == old(self).grid,
                self.world_map == old(self).world_map,
                self.attack_movements@ == old(self).attack_movements@,
                self.update_timers == old(self).update_timers,
                self.update_count == old(self).update_count,
                self.neighbor_pairs@ == old(self).neighbor_pairs@,
                old(self).wf(),
                self.wf(),
                attempts@ == spec_expansion_pass(
                    old(self).players@,
                    old(self).neighbor_pairs@,
                    cfg,
                    old(self).rng.state,
                    i as int,
                ).0,
                self.rng.state == spec_expansion_pass(
                    old(self).players@,
                    old(self).neighbor_pairs@,
                    cfg,
                    old(self).rng.state,
                    i as int,
                ).1,
            decreases len - i,
        {
            let p: Player = self.players[i];
            let draw: u64 = self.rng.draw_below(1000);
            if p.try_expand(&cfg, draw) {
                let neighbors = get_neighbors(&self.neighbor_pairs, p.id);
                let gate: u64 = self.rng.draw_below(1000);
                let pick: u64 = self.rng.draw_below(0x100000000);
                let ratio: u64 = self.rng.draw_below(1000);
                match p.get_target(&neighbors, &cfg, gate, pick, ratio) {
                    Some(ti) => {
                        attempts.push((p.id, ti.0, ti.1));
                    },
                    None => (),
                }
            }
            i = i + 1;
        }
        let ghost ats = spec_expansion_pass(
            old(self).players@,
            old(self).neighbor_pairs@,
            cfg,
            old(self).rng.state,
            len as int,
        ).0;
        let alen: usize = attempts.len();
        let mut k: usize = 0;
        while k < alen
            invariant
                alen == attempts@.len(),
                attempts@ == ats,
                k <= alen,
                self.wf(),
                self.config == old(self).config,
                self.grid == old(self).grid,
                self.world_map == old(self).world_map,
                self.update_timers == old(self).update_timers,
                self.update_count == old(self).update_count,
                self.neighbor_pairs@ == old(self).neighbor_pairs@,
                self.rng.state == spec_expansion_pass(
                    old(self).players@,
                    old(self).neighbor_pairs@,
                    cfg,
                    old(self).rng.state,
                    len as int,
                ).1,
                len == old(self).players@.len(),
                cfg == old(self).config,
                self.players@.len() == old(self).players@.len(),
                forall|i2: int|
                    0 <= i2 < old(self).players@.len() ==> (#[trigger] self.players@[i2]) == (
                    Player { resources: self.players@[i2].resources, ..old(self).players@[i2] })
                        && self.players@[i2].resources <= old(self).players@[i2].resources,
                forall|i2: int|
                    0 <= i2 < old(self).players@.len() && spec_not_an_attacker(
                        (#[trigger] old(self).players@[i2]).id,
                        ats,
                    ) ==> self.players@[i2] == old(self).players@[i2],
                forall|j: int|
                    0 <= j < self.attack_movements@.len() ==> spec_pair_known(
                        #[trigger] self.attack_movements@[j],
                        old(self).attack_movements@,
                        ats,
                    ),
            decreases alen - k,
        {
            let a: (u32, MoveTarget, i64) = attempts[k];
            proof {
                crate::state::lemma_find_player_properties(self.players@, a.0);
            }
            let ghost st_pre = *self;
            let ghost pre = self.players@;
            let ghost ms_pre = self.attack_movements@;
            self.start_attack(a.0, a.1, a.2);
            proof {
                assert forall|i2: int|
                    0 <= i2 < old(self).players@.len() implies (#[trigger] self.players@[i2]) == (
                Player { resources: self.players@[i2].resources, ..old(self).players@[i2] })
                    && self.players@[i2].resources <= old(self).players@[i2].resources by {
                    assert(pre[i2] == (Player {
                        resources: pre[i2].resources,
                        ..old(self).players@[i2]
                    }));
                }
                assert forall|i2: int|
                    0 <= i2 < old(self).players@.len() && spec_not_an_attacker(
                        (#[trigger] old(self).players@[i2]).id,
                        ats,
                    ) implies self.players@[i2] == old(self).players@[i2] by {
                    assert(ats[k as int].0 != old(self).players@[i2].id);
                    assert(pre[i2].id == old(self).players@[i2].id);
                    if crate::state::spec_has_player(pre, a.0) {
                        let si = crate::state::spec_find_player(pre, a.0);
                        assert(pre[si].id == a.0);
                        assert(i2 != si);
                    }
                    assert(self.players@[i2] == pre[i2]);
                }
                lemma_pairs_after_start(
                    st_pre,
                    *self,
                    a.0,
                    a.1,
                    a.2,
                    old(self).attack_movements@,
                    ats,
                    k as int,
                );
            }
            k = k + 1;
        }
    }
}

/// A flat cell index sampled by the stride.
pub open spec fn spec_sampled_flat(c: int, w: int, stride: int) -> bool {
    &&& (c % w) % stride == 0
    &&& (c / w) % stride == 0
}

/// Sampled cells owned by `id` among the first `upto` cells.
pub open spec fn spec_com_cnt(cells: Seq<GridCell>, w: int, stride: int, id: u32, upto: int) -> int
    decreases upto,
{
    if upto <= 0 {
        0
    } else {
        spec_com_cnt(cells, w, stride, id, upto - 1) + if spec_sampled_flat(upto - 1, w, stride)
            && cells[upto - 1] == GridCell::PlayerId(id) {
            1int
        } else {
            0int
        }
    }
}

/// Column sum over those cells.
pub open spec fn spec_com_sx(cells: Seq<GridCell>, w: int, stride: int, id: u32, upto: int) -> int
    decreases upto,
{
    if upto <= 0 {
        0
    } else {
        spec_com_sx(cells, w, stride, id, upto - 1) + if spec_sampled_flat(upto - 1, w, stride)
            && cells[upto - 1] == GridCell::PlayerId(id) {
            (upto - 1) % w
        } else {
            0int
        }
    }
}

/// Row sum over those cells.
pub open spec fn spec_com_sy(cells: Seq<GridCell>, w: int, stride: int, id: u32, upto: int) -> int
    decreases upto,
{
    if upto <= 0 {
        0
    } else {
        spec_com_sy(cells, w, stride, id, upto - 1) + if spec_sampled_flat(upto - 1, w, stride)
            && cells[upto - 1] == GridCell::PlayerId(id) {
            (upto - 1) / w
        } else {
            0int
        }
    }
}

/// A player after the center-of-mass refresh: the mean coordinates of its
/// sampled cells in thousandths, or unchanged if the sample saw none.
pub open spec fn spec_post_com(p: Player, cells: Seq<GridCell>, w: int, stride: int) -> Player {
    let n = cells.len() as int;
    let cnt = spec_com_cnt(cells, w, stride, p.id, n);
    if cnt > 0 {
        Player {
            center_x_milli: ((1000 * spec_com_sx(cells, w, stride, p.id, n)) / cnt) as u64,
            center_y_milli: ((1000 * spec_com_sy(cells, w, stride, p.id, n)) / cnt) as u64,
            ..p
        }
    } else {
        p
    }
}

impl GameState {
    /// Refresh every player's center of mass from a stride-sampled scan
    /// of its territory; a player the sample misses keeps its old center.
    pub fn update_centers_of_mass(&mut self)
        requires
            old(self).wf(),
        ensures
            final(self).wf(),
            final(self).config == old(self).config,
            final(self).grid == old(self).grid,
            final(self).world_map == old(self).world_map,
            final(self).attack_movements@ == old(self).attack_movements@,
            final(self).update_timers == old(self).update_timers,
            final(self).update_count == old(self).update_count,
            final(self).neighbor_pairs@ == old(self).neighbor_pairs@,
            final(self).rng == old(self).rng,
            final(self).players@.len() == old(self).players@.len(),
            forall|i: int|
                0 <= i < old(self).players@.len() ==> final(self).players@[i] == spec_post_com(
                    #[trigger] old(self).players@[i],
                    old(self).grid.cells@,
                    old(self).grid.width as int,
                    old(self).config.reduction_factor as int,
                ),
    {
        let len: usize = self.players.len();
        let mut i: usize = 0;
        while i < len
            invariant
                len == self.players@.len(),
                i <= len,
                self.config == old(self).config,
                self.grid == old(self).grid,
                self.world_map == old(self).world_map,
                self.attack_movements@ == old(self).attack_movements@,
                self.update_timers == old(self).update_timers,
                self.update_count == old(self).update_count,
                self.neighbor_pairs@ == old(self).neighbor_pairs@,
                self.rng == old(self).rng,
                old(self).wf(),
                self.config.wf(),
                self.grid.wf(),
                forall|j: int| i <= j < len ==> self.players@[j] == old(self).players@[j],
                forall|j: int|
                    0 <= j < i ==> self.players@[j] == spec_post_com(
                        #[trigger] old(self).players@[j],
                        old(self).grid.cells@,
                        old(self).grid.width as int,
                        old(self).config.reduction_factor as int,
                    ),
                forall|j: int| 0 <= j < len ==> (#[trigger] self.players@[j]).wf(self.config),
                forall|j: int|
                    0 <= j < len ==> (#[trigger] self.players@[j]).id == old(self).players@[j].id,
            decreases len - i,
        {
            let p: Player = self.players[i];
            let r: (u64, u64, u64) = self.center_scan(p.id);
            let cnt: u64 = r.0;
            if cnt > 0 {
                let mut q: Player = p;
                proof {
                    assert(self.grid.width <= 1000000 && self.grid.height <= 1000000)
                        by (nonlinear_arith)
                        requires
                            1 <= self.grid.width,
                            1 <= self.grid.height,
                            self.grid.width * self.grid.height <= 1000000,
                    ;
                    assert(r.1 <= 1000000000000 && r.2 <= 1000000000000) by (nonlinear_arith)
                        requires
                            r.1 <= cnt * (self.grid.width - 1),
                            r.2 <= cnt * (self.grid.height - 1),
                            cnt <= 1000000,
                            self.grid.width <= 1000000,
                            self.grid.height <= 1000000,
                    ;
                    assert(1000 * r.1 <= cnt * (1000 * (self.grid.width - 1))) by (nonlinear_arith)
                        requires
                            r.1 <= cnt * (self.grid.width - 1),
                    ;
                    assert(1000 * r.2 <= cnt * (1000 * (self.grid.height - 1)))
                        by (nonlinear_arith)
                        requires
                            r.2 <= cnt * (self.grid.height - 1),
                    ;
                    lemma_multiply_divide_le(
                        1000 * r.1,
                        cnt as int,
                        1000 * (self.grid.width - 1),
                    );
                    lemma_multiply_divide_le(
                        1000 * r.2,
                        cnt as int,
                        1000 * (self.grid.height - 1),
                    );
                    lemma_div_pos_is_pos(1000 * r.1, cnt as int);
                    lemma_div_pos_is_pos(1000 * r.2, cnt as int);
                }
                q.center_x_milli = (1000 * r.1) / cnt;
                q.center_y_milli = (1000 * r.2) / cnt;
                self.players.set(i, q);
            }
            i = i + 1;
        }
    }

    /// Sampled-cell count and coordinate sums of one player's territory.
    fn center_scan(&self, id: u32) -> (r: (u64, u64, u64))
        requires
            self.grid.wf(),
            self.config.wf(),
            self.grid.width == self.config.grid_width,
            self.grid.height == self.config.grid_height,
        ensures
            r.0 == spec_com_cnt(
                self.grid.cells@,
                self.grid.width as int,
                self.config.reduction_factor as int,
                id,
                self.grid.cells@.len() as int,
            ),
            r.1 == spec_com_sx(
                self.grid.cells@,
                self.grid.width as int,
                self.config.reduction_factor as int,
                id,
                self.grid.cells@.len() as int,
            ),
            r.2 == spec_com_sy(
                self.grid.cells@,
                self.grid.width as int,
                self.config.reduction_factor as int,
                id,
                self.grid.cells@.len() as int,
            ),
            r.1 <= r.0 * (self.grid.width - 1),
            r.2 <= r.0 * (self.grid.height - 1),
            r.0 <= self.grid.cells@.len(),
    {
        let w: usize = self.grid.width;
        let stride: usize = self.config.reduction_factor;
        let len: usize = self.grid.cells.len();
        let mut cnt: u64 = 0;
        let mut sx: u64 = 0;
        let mut sy: u64 = 0;
        let mut c: usize = 0;
        while c < len
            invariant
                self.grid.wf(),
                w == self.grid.width,
                1 <= stride,
                stride == self.config.reduction_factor,
                len == self.grid.cells@.len(),
                c <= len,
                cnt == spec_com_cnt(self.grid.cells@, w as int, stride as int, id, c as int),
                sx == spec_com_sx(self.grid.cells@, w as int, stride as int, id, c as int),
                sy == spec_com_sy(self.grid.cells@, w as int, stride as int, id, c as int),
                sx <= cnt * (w - 1),
                sy <= cnt * (self.grid.height - 1),
                cnt <= c,
            decreases len - c,
        {
            let x: usize = c % w;
            let y: usize = c / w;
            proof {
                assert((c / w) < self.grid.height) by (nonlinear_arith)
                    requires
                        0 <= c < self.grid.width * self.grid.height,
                        1 <= self.grid.width,
                        w == self.grid.width,
                ;
            }
            if x % stride == 0 && y % stride == 0 {
                let cell: GridCell = self.grid.cells[c];
                if cell == (GridCell::PlayerId(id)) {
                    proof {
                        assert(cnt + 1 <= 1000000 && w <= 1000000 && self.grid.height <= 1000000)
                            by (nonlinear_arith)
                            requires
                                cnt <= c,
                                c < self.grid.width * self.grid.height,
                                self.grid.width * self.grid.height <= 1000000,
                                1 <= self.grid.width,
                                1 <= self.grid.height,
                                w == self.grid.width,
                        ;
                        assert(sx + x <= (cnt + 1) * (w - 1)) by (nonlinear_arith)
                            requires
                                sx <= cnt * (w - 1),
                                x <= w - 1,
                                0 <= cnt,
                        ;
                        assert(sy + y <= (cnt + 1) * (self.grid.height - 1)) by (nonlinear_arith)
                            requires
                                sy <= cnt * (self.grid.height - 1),
                                y <= self.grid.height - 1,
                                0 <= cnt,
                        ;
                        assert(sx + x <= 1000000000000 && sy + y <= 1000000000000)
                            by (nonlinear_arith)
                            requires
                                sx + x <= (cnt + 1) * (w - 1),
                                sy + y <= (cnt + 1) * (self.grid.height - 1),
                                cnt + 1 <= 1000000,
                                w <= 1000000,
                                self.grid.height <= 1000000,
                        ;
                    }
                    cnt = cnt + 1;
                    sx = sx + (x as u64);
                    sy = sy + (y as u64);
                }
            }
            c = c + 1;
        }
        (cnt, sx, sy)
    }
}

/// A subsystem is due when enough ticks have passed since its last run.
pub open spec fn spec_due(tick: u64, last: u64, interval: u64) -> bool {
    tick - last >= interval
}

impl GameState {
    /// One authoritative tick. Subsystems whose interval has elapsed run
    /// synchronously in a fixed order: neighbor-graph refresh, attack
    /// advance, resource accrual, expansion attempts, area recount with
    /// elimination, center-of-mass refresh. Expansion thus sees the
    /// freshest graph, and elimination follows the same tick's grid
    /// mutations. Each subsystem that ran stamps the current tick, and
    /// the tick counter always advances by exactly one.
    pub fn update(&mut self)
        requires
            old(self).wf(),
            old(self).update_count < 0xffffffffffffffff,
        ensures
            final(self).wf(),
            final(self).config == old(self).config,
            final(self).world_map == old(self).world_map,
            final(self).update_count == old(self).update_count + 1,
            final(self).update_timers.last_neighbor_update == (if spec_due(
                old(self).update_count,
                old(self).update_timers.last_neighbor_update,
                old(self).config.neighbor_interval,
            ) {
                old(self).update_count
            } else {
                old(self).update_timers.last_neighbor_update
            }),
            final(self).update_timers.last_attack_update == (if spec_due(
                old(self).update_count,
                old(self).update_timers.last_attack_update,
                old(self).config.attack_interval,
            ) {
                old(self).update_count
            } else {
                old(self).update_timers.last_attack_update
            }),
            final(self).update_timers.last_resource_update == (if spec_due(
                old(self).update_count,
                old(self).update_timers.last_resource_update,
                old(self).config.resource_interval,
            ) {
                old(self).update_count
            } else {
                old(self).update_timers.last_resource_update
            }),
            final(self).update_timers.last_expansion_update == (if spec_due(
                old(self).update_count,
                old(self).update_timers.last_expansion_update,
                old(self).config.expansion_interval,
            ) {
                old(self).update_count
            } else {
                old(self).update_timers.last_expansion_update
            }),
            final(self).update_timers.last_area_update == (if spec_due(
                old(self).update_count,
                old(self).update_timers.last_area_update,
                old(self).config.area_interval,
            ) {
                old(self).update_count
            } else {
                old(self).update_timers.last_area_update
            }),
            final(self).update_timers.last_center_of_mass_update == (if spec_due(
                old(self).update_count,
                old(self).update_timers.last_center_of_mass_update,
                old(self).config.center_of_mass_interval,
            ) {
                old(self).update_count
            } else {
                old(self).update_timers.last_center_of_mass_update
            }),
            spec_due(
                old(self).update_count,
                old(self).update_timers.last_neighbor_update,
                old(self).config.neighbor_interval,
            ) ==> forall|pr: crate::neighbors::NeighborPair|
                final(self).neighbor_pairs@.contains(pr) <==> spec_pair_in_graph(
                    old(self).grid,
                    old(self).config.reduction_factor as int,
                    pr,
                ),
            !spec_due(
                old(self).update_count,
                old(self).update_timers.last_neighbor_update,
                old(self).config.neighbor_interval,
            ) ==> final(self).neighbor_pairs@ == old(self).neighbor_pairs@,
            ({
                let s = *old(self);
                let due_attack = spec_due(
                    s.update_count,
                    s.update_timers.last_attack_update,
                    s.config.attack_interval,
                );
                let due_resources = spec_due(
                    s.update_count,
                    s.update_timers.last_resource_update,
                    s.config.resource_interval,
                );
                let due_expansion = spec_due(
                    s.update_count,
                    s.update_timers.last_expansion_update,
                    s.config.expansion_interval,
                );
                let due_areas = spec_due(
                    s.update_count,
                    s.update_timers.last_area_update,
                    s.config.area_interval,
                );
                let due_com = spec_due(
                    s.update_count,
                    s.update_timers.last_center_of_mass_update,
                    s.config.center_of_mass_interval,
                );
                let due_neighbors = spec_due(
                    s.update_count,
                    s.update_timers.last_neighbor_update,
                    s.config.neighbor_interval,
                );
                // Phases touch only their own state: a quiet subsystem
                // leaves its piece bit-identical, and terrain outlives
                // every tick.
                &&& (!due_attack && !due_areas ==> final(self).grid == s.grid)
                &&& (!due_attack && !due_resources && !due_expansion && !due_areas && !due_com
                    ==> final(self).players@ == s.players@)
                &&& (!due_attack && !due_expansion && !due_areas
                    ==> final(self).attack_movements@ == s.attack_movements@)
                &&& (!due_expansion ==> final(self).rng == s.rng)
                &&& final(self).grid.cells@.len() == s.grid.cells@.len()
                &&& forall|c: int|
                    0 <= c < s.grid.cells@.len() && ((s.grid.cells@[c] is Water)
                        || (s.grid.cells@[c] is Mountain)) ==> final(self).grid.cells@[c]
                        == s.grid.cells@[c]
            }),
            ({
                let s = *old(self);
                let due_attack = spec_due(
                    s.update_count,
                    s.update_timers.last_attack_update,
                    s.config.attack_interval,
                );
                let due_resources = spec_due(
                    s.update_count,
                    s.update_timers.last_resource_update,
                    s.config.resource_interval,
                );
                let due_expansion = spec_due(
                    s.update_count,
                    s.update_timers.last_expansion_update,
                    s.config.expansion_interval,
                );
                let due_areas = spec_due(
                    s.update_count,
                    s.update_timers.last_area_update,
                    s.config.area_interval,
                );
                let due_com = spec_due(
                    s.update_count,
                    s.update_timers.last_center_of_mass_update,
                    s.config.center_of_mass_interval,
                );
                let due_neighbors = spec_due(
                    s.update_count,
                    s.update_timers.last_neighbor_update,
                    s.config.neighbor_interval,
                );
                // On a tick where exactly one roster-touching phase is
                // due, the tick equals that phase's exact contract on the
                // starting state.
                &&& (due_resources && !due_attack && !due_expansion && !due_areas && !due_com
                    ==> final(self).players@.len() == s.players@.len() && forall|i: int|
                    0 <= i < s.players@.len() ==> final(self).players@[i] == spec_post_resources(
                        #[trigger] s.players@[i],
                        s.config,
                        s.grid.cells@,
                        s.world_map.livability@,
                        s.update_count % s.config.bonus_interval == 0,
                    ))
                &&& (due_areas && !due_attack && !due_resources && !due_expansion && !due_com
                    ==> final(self).players@ == spec_recounted(
                        s.players@,
                        s.grid.cells@,
                        s.config,
                    ) && forall|i: int|
                    0 <= i < final(self).players@.len() ==> (
                    #[trigger] final(self).players@[i]).area == count_owned(
                        final(self).grid.cells@,
                        final(self).players@[i].id,
                    ))
                &&& (due_com && !due_attack && !due_resources && !due_expansion && !due_areas
                    ==> final(self).players@.len() == s.players@.len() && forall|i: int|
                    0 <= i < s.players@.len() ==> final(self).players@[i] == spec_post_com(
                        #[trigger] s.players@[i],
                        s.grid.cells@,
                        s.grid.width as int,
                        s.config.reduction_factor as int,
                    ))
                &&& (due_expansion && !due_attack && !due_resources && !due_neighbors
                    ==> final(self).rng.state == spec_expansion_pass(
                        s.players@,
                        s.neighbor_pairs@,
                        s.config,
                        s.rng.state,
                        s.players@.len() as int,
                    ).1)
            }),
    {
        let tick: u64 = self.update_count;
        let due_neighbors: bool = tick - self.update_timers.last_neighbor_update
            >= self.config.neighbor_interval;
        let due_attack: bool = tick - self.update_timers.last_attack_update
            >= self.config.attack_interval;
        let due_resources: bool = tick - self.update_timers.last_resource_update
            >= self.config.resource_interval;
        let due_expansion: bool = tick - self.update_timers.last_expansion_update
            >= self.config.expansion_interval;
        let due_areas: bool = tick - self.update_timers.last_area_update
            >= self.config.area_interval;
        let due_com: bool = tick - self.update_timers.last_center_of_mass_update
            >= self.config.center_of_mass_interval;
        if due_neighbors {
            let pairs = find_all_possible_targets(&self.grid, self.config.reduction_factor);
            self.neighbor_pairs = pairs;
        }
        if due_attack {
            self.process_attack_movements();
        }
        if due_resources {
            self.update_player_resources();
        }
        if due_expansion {
            self.process_expansion_attempts();
        }
        if due_areas {
            self.update_player_areas();
        }
        if due_com {
            self.update_centers_of_mass();
        }
        if due_attack {
            self.update_timers.last_attack_update = tick;
        }
        if due_resources {
            self.update_timers.last_resource_update = tick;
        }
        if due_expansion {
            self.update_timers.last_expansion_update = tick;
        }
        if due_areas {
            self.update_timers.last_area_update = tick;
        }
        if due_neighbors {
            self.update_timers.last_neighbor_update = tick;
        }
        if due_com {
            self.update_timers.last_center_of_mass_update = tick;
        }
        self.update_count = self.update_count + 1;
    }
}

} // verus!
