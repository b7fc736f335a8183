use territory::attack::{AttackMovement, MoveTarget};
use territory::config::{ExpansionGate, GameConfig};
use territory::grid::GridCell;
use territory::player::Player;
use territory::state::GameState;
use territory::world::WorldMap;

fn test_config(width: usize, height: usize) -> GameConfig {
    GameConfig {
        num_players: 2,
        grid_width: width,
        grid_height: height,
        min_area_threshold: 1,
        base_interest_rate_permille: 10,
        max_resources_multiplier: 100,
        resource_floor: 1000000,
        min_expansion_cost: 5,
        expansion_gate: ExpansionGate::ResourceFloor,
        expansion_chance_permille: 300,
        invest_ratio_min_permille: 200,
        invest_ratio_max_permille: 400,
        attack_interval: 1,
        resource_interval: 1,
        expansion_interval: 1,
        area_interval: 1,
        neighbor_interval: 1,
        center_of_mass_interval: 1,
        bonus_interval: 50,
        reduction_factor: 1,
    }
}

fn blank_state(width: usize, height: usize) -> GameState {
    let cfg = test_config(width, height);
    let world = WorldMap::uniform(width, height, 1000, 1000);
    GameState::new(cfg, world, 42)
}

fn add_player(st: &mut GameState, id: u32, x: usize, y: usize, resources: i64) {
    let mut p = Player::new(id, x, y, &st.config);
    p.resources = resources;
    st.players.push(p);
}

fn claim_block(st: &mut GameState, id: u32, x0: usize, y0: usize, x1: usize, y1: usize) {
    for y in y0..=y1 {
        for x in x0..=x1 {
            st.grid.set(x, y, GridCell::PlayerId(id));
        }
    }
}

fn count_cells(st: &GameState, id: u32) -> i64 {
    let mut n = 0i64;
    for c in st.grid.cells.iter() {
        if *c == GridCell::PlayerId(id) {
            n += 1;
        }
    }
    n
}

fn sync_areas(st: &mut GameState) {
    // Recount so the roster invariant (area == owned cells) holds before
    // the scenario starts.
    st.update_player_areas();
}

#[test]
fn counter_attack_netting_leaves_single_movement() {
    let mut st = blank_state(10, 10);
    add_player(&mut st, 1, 1, 1, 1000);
    add_player(&mut st, 2, 8, 8, 1000);
    claim_block(&mut st, 1, 0, 0, 2, 2);
    claim_block(&mut st, 2, 7, 7, 9, 9);
    sync_areas(&mut st);

    st.start_attack(1, MoveTarget::Enemy(2), 100);
    assert_eq!(st.attack_movements.len(), 1);
    st.start_attack(2, MoveTarget::Enemy(1), 40);

    // The two opposite movements net: 40 cancels against 100, the
    // depleted newcomer vanishes, exactly one front survives.
    assert_eq!(st.attack_movements.len(), 1);
    let survivor: &AttackMovement = &st.attack_movements[0];
    assert_eq!(survivor.source, 1);
    assert_eq!(survivor.target, MoveTarget::Enemy(2));
    assert_eq!(survivor.investment, 60);
}

#[test]
fn netting_drops_existing_movement_when_newcomer_is_larger() {
    let mut st = blank_state(10, 10);
    add_player(&mut st, 1, 1, 1, 1000);
    add_player(&mut st, 2, 8, 8, 1000);
    claim_block(&mut st, 1, 0, 0, 2, 2);
    claim_block(&mut st, 2, 7, 7, 9, 9);
    sync_areas(&mut st);

    st.start_attack(1, MoveTarget::Enemy(2), 40);
    st.start_attack(2, MoveTarget::Enemy(1), 100);
    assert_eq!(st.attack_movements.len(), 1);
    assert_eq!(st.attack_movements[0].source, 2);
    assert_eq!(st.attack_movements[0].target, MoveTarget::Enemy(1));
    assert_eq!(st.attack_movements[0].investment, 60);
}

#[test]
fn start_attack_deducts_investment_up_front() {
    let mut st = blank_state(10, 10);
    add_player(&mut st, 1, 1, 1, 1000);
    claim_block(&mut st, 1, 0, 0, 2, 2);
    sync_areas(&mut st);
    st.start_attack(1, MoveTarget::EmptySpace, 300);
    assert_eq!(st.players[0].resources, 700);
    assert_eq!(st.attack_movements.len(), 1);
    assert!(!st.attack_movements[0].is_started);
}

#[test]
fn unaffordable_attack_changes_nothing() {
    let mut st = blank_state(10, 10);
    add_player(&mut st, 1, 1, 1, 100);
    claim_block(&mut st, 1, 0, 0, 2, 2);
    sync_areas(&mut st);
    st.start_attack(1, MoveTarget::EmptySpace, 500);
    assert_eq!(st.players[0].resources, 100);
    assert_eq!(st.attack_movements.len(), 0);
}

#[test]
fn candidate_computation_is_idempotent() {
    let mut st = blank_state(10, 10);
    add_player(&mut st, 1, 1, 1, 1000);
    claim_block(&mut st, 1, 0, 0, 2, 2);
    sync_areas(&mut st);
    let mut m = AttackMovement::new(1, MoveTarget::EmptySpace, 100);
    m.start(&st.grid);
    let mut first = m.get_next_pixels(&st.grid);
    let mut second = m.get_next_pixels(&st.grid);
    first.sort();
    second.sort();
    assert_eq!(first, second);
}

#[test]
fn empty_space_expansion_claims_at_most_investment() {
    let mut st = blank_state(10, 10);
    add_player(&mut st, 1, 1, 1, 1000);
    claim_block(&mut st, 1, 0, 0, 2, 2);
    sync_areas(&mut st);
    let before = count_cells(&st, 1);
    let investment = 7i64;
    st.start_attack(1, MoveTarget::EmptySpace, investment);
    st.process_attack_movements();
    let after = count_cells(&st, 1);
    assert!(after - before <= investment);
}

#[test]
fn large_investment_claims_whole_frontier_ring() {
    let mut st = blank_state(10, 10);
    add_player(&mut st, 1, 1, 1, 1000);
    claim_block(&mut st, 1, 0, 0, 2, 2);
    sync_areas(&mut st);
    st.start_attack(1, MoveTarget::EmptySpace, 500);
    st.process_attack_movements();
    // The 3x3 corner block has exactly 6 empty edge neighbors; terrain-free
    // traversability 1000 prices each candidate at one.
    assert_eq!(count_cells(&st, 1), 15);
}

#[test]
fn elimination_clears_roster_grid_and_movements() {
    let mut st = blank_state(10, 10);
    let mut cfg = st.config;
    cfg.min_area_threshold = 3;
    st.config = cfg;
    add_player(&mut st, 1, 1, 1, 1000);
    add_player(&mut st, 2, 8, 8, 1000);
    claim_block(&mut st, 1, 0, 0, 2, 2);
    // Player 2 holds only two cells: below the threshold of three.
    st.grid.set(8, 8, GridCell::PlayerId(2));
    st.grid.set(9, 8, GridCell::PlayerId(2));
    st.players[0].area = 9;
    st.players[1].area = 2;
    st.start_attack(1, MoveTarget::Enemy(2), 50);

    st.update_player_areas();

    // The survivor keeps a recounted area; the eliminated player is gone.
    assert_eq!(st.players.len(), 1);
    assert_eq!(st.players[0].id, 1);
    assert_eq!(st.players[0].area, 9);
    // No surviving movement names the eliminated player.
    for m in st.attack_movements.iter() {
        assert!(m.source != 2);
        assert!(m.target != MoveTarget::Enemy(2));
    }
    // Its former cells are Available again.
    assert_eq!(count_cells(&st, 2), 0);
    assert_eq!(st.grid.get(8, 8), GridCell::Available);
    assert_eq!(st.grid.get(9, 8), GridCell::Available);
}

#[test]
fn opponent_costs_reconcile_to_exactly_double() {
    // One candidate cell, full traversability; the raw costs clamp to an
    // odd investment of 101, and reconciliation shrinks the source side
    // to exactly twice the target side before the floor at one per cell.
    let mut cfg = test_config(10, 10);
    cfg.resource_floor = 2000;
    let world = WorldMap::uniform(10, 10, 1000, 1000);
    let st = GameState::new(cfg, world, 1);
    let target = Player::new(2, 8, 8, &cfg);
    let m = AttackMovement::new(1, MoveTarget::Enemy(2), 101);
    let candidates = vec![(4usize, 4usize)];
    let costs = m.get_next_pixels_costs(&candidates, Some(&target), &st.world_map, &cfg);
    assert_eq!(costs, (100, 50));
    assert_eq!(costs.0, 2 * costs.1);
}

#[test]
fn same_pair_fronts_merge_at_creation() {
    let mut st = blank_state(10, 10);
    add_player(&mut st, 1, 1, 1, 1000);
    claim_block(&mut st, 1, 0, 0, 2, 2);
    sync_areas(&mut st);
    st.start_attack(1, MoveTarget::EmptySpace, 100);
    st.start_attack(1, MoveTarget::EmptySpace, 50);
    // The second front folds into the first: one movement per pair.
    assert_eq!(st.attack_movements.len(), 1);
    assert_eq!(st.attack_movements[0].investment, 150);
    assert_eq!(st.players[0].resources, 850);
}

#[test]
fn netting_then_merge_keeps_one_front_per_pair() {
    let mut st = blank_state(10, 10);
    add_player(&mut st, 1, 1, 1, 1000);
    add_player(&mut st, 2, 8, 8, 1000);
    claim_block(&mut st, 1, 0, 0, 2, 2);
    claim_block(&mut st, 2, 7, 7, 9, 9);
    sync_areas(&mut st);
    st.start_attack(1, MoveTarget::Enemy(2), 100);
    st.start_attack(1, MoveTarget::Enemy(2), 50);
    assert_eq!(st.attack_movements.len(), 1);
    assert_eq!(st.attack_movements[0].investment, 150);
    st.start_attack(2, MoveTarget::Enemy(1), 40);
    assert_eq!(st.attack_movements.len(), 1);
    assert_eq!(st.attack_movements[0].source, 1);
    assert_eq!(st.attack_movements[0].investment, 110);
}

#[test]
fn recount_matches_grid_exactly() {
    let mut st = blank_state(10, 10);
    add_player(&mut st, 1, 1, 1, 1000);
    add_player(&mut st, 2, 8, 8, 1000);
    claim_block(&mut st, 1, 0, 0, 2, 2);
    claim_block(&mut st, 2, 7, 7, 9, 9);
    st.update_player_areas();
    for p in st.players.iter() {
        assert_eq!(p.area, count_cells(&st, p.id));
    }
}

fn territories_touch(st: &GameState) -> bool {
    let w = st.grid.width;
    let h = st.grid.height;
    for y in 0..h {
        for x in 0..w {
            if st.grid.get(x, y) == GridCell::PlayerId(1) {
                let neighbors = [
                    (x + 1, y),
                    (x.wrapping_sub(1), y),
                    (x, y + 1),
                    (x, y.wrapping_sub(1)),
                ];
                for (nx, ny) in neighbors {
                    if nx < w && ny < h && st.grid.get(nx, ny) == GridCell::PlayerId(2) {
                        return true;
                    }
                }
            }
        }
    }
    false
}

#[test]
fn two_player_expansion_race_fills_the_board() {
    let mut st = blank_state(10, 10);
    add_player(&mut st, 1, 1, 1, 900000);
    add_player(&mut st, 2, 8, 8, 900000);
    claim_block(&mut st, 1, 0, 0, 2, 2);
    claim_block(&mut st, 2, 7, 7, 9, 9);
    sync_areas(&mut st);

    let mut areas1 = vec![count_cells(&st, 1)];
    let mut areas2 = vec![count_cells(&st, 2)];
    let mut met_at: Option<usize> = None;
    for tick in 0..30 {
        st.start_attack(1, MoveTarget::EmptySpace, 500);
        st.start_attack(2, MoveTarget::EmptySpace, 500);
        st.process_attack_movements();
        st.update_player_areas();
        areas1.push(count_cells(&st, 1));
        areas2.push(count_cells(&st, 2));
        if met_at.is_none() && territories_touch(&st) {
            met_at = Some(tick + 1);
        }
    }
    let met = met_at.expect("the two fronts must meet on a 10x10 board");

    // Every tick before the fronts meet, both areas strictly increase.
    for t in 1..=met {
        assert!(areas1[t] > areas1[t - 1], "area of player 1 stalled early");
        assert!(areas2[t] > areas2[t - 1], "area of player 2 stalled early");
    }
    // Areas never shrink while expanding into empty space only.
    for t in 1..areas1.len() {
        assert!(areas1[t] >= areas1[t - 1]);
        assert!(areas2[t] >= areas2[t - 1]);
    }
    // After the fronts meet, the growth rate declines as empty space runs
    // out, and growth eventually stops entirely.
    let peak1 = (1..=met).map(|t| areas1[t] - areas1[t - 1]).max().unwrap();
    let peak2 = (1..=met).map(|t| areas2[t] - areas2[t - 1]).max().unwrap();
    let last = areas1.len() - 1;
    let tail_growth1 = areas1[last] - areas1[last - 3];
    let tail_growth2 = areas2[last] - areas2[last - 3];
    assert!(tail_growth1 < peak1, "growth of player 1 never declined");
    assert!(tail_growth2 < peak2, "growth of player 2 never declined");
    // The whole terrain-free board ends up claimed.
    assert_eq!(count_cells(&st, 1) + count_cells(&st, 2), 100);
}

#[test]
fn bonus_tick_pays_livability_weighted_area_bonus() {
    let cfg = test_config(10, 10);
    let mut cfg = cfg;
    cfg.bonus_interval = 1;
    cfg.resource_floor = 2000;
    let world = WorldMap::uniform(10, 10, 1000, 500);
    let mut st = GameState::new(cfg, world, 42);
    add_player(&mut st, 1, 1, 1, 1000);
    claim_block(&mut st, 1, 0, 0, 1, 1);
    st.players[0].area = 4;
    // Accrual first: cap 2000, damping 750, rate 7, interest 7, so
    // 1000 + 4 + 7 = 1011. Tick 0 is a bonus tick: the four owned cells
    // average 500 permille livability, and floor(4 * 500 / 2000) = 1.
    st.update_player_resources();
    assert_eq!(st.players[0].resources, 1012);
    assert_eq!(st.players[0].average_land_value_permille, 500);
}

#[test]
fn update_runs_subsystems_on_schedule() {
    let mut st = blank_state(10, 10);
    let mut cfg = st.config;
    cfg.area_interval = 3;
    st.config = cfg;
    add_player(&mut st, 1, 1, 1, 1000);
    claim_block(&mut st, 1, 0, 0, 2, 2);
    st.update();
    // Tick 0: nothing is due yet, because zero ticks have elapsed since
    // the zero-initialized stamps.
    assert_eq!(st.update_count, 1);
    assert_eq!(st.update_timers.last_attack_update, 0);
    st.update();
    // Tick 1: the interval-1 subsystems ran and stamped tick 1; the
    // recount (interval 3) stayed quiet.
    assert_eq!(st.update_timers.last_attack_update, 1);
    assert_eq!(st.update_timers.last_area_update, 0);
    st.update();
    st.update();
    // At tick 3 the recount became due (3 - 0 >= 3) and stamped tick 3.
    assert_eq!(st.update_count, 4);
    assert_eq!(st.update_timers.last_area_update, 3);
}

#[test]
fn tick_counter_always_advances() {
    let mut st = blank_state(10, 10);
    for i in 0..10u64 {
        assert_eq!(st.update_count, i);
        st.update();
    }
    assert_eq!(st.update_count, 10);
}

#[test]
fn initialize_game_seeds_players_and_terrain() {
    let cfg = test_config(40, 40);
    let world = WorldMap::uniform(40, 40, 1000, 1000);
    let st = GameState::initialize_game(cfg, world, 7).expect("initialization should succeed");
    assert_eq!(st.players.len(), 2);
    assert_eq!(st.players[0].id, 1);
    assert_eq!(st.players[1].id, 2);
    assert!(count_cells(&st, 1) > 0);
    assert!(count_cells(&st, 2) > 0);
    assert_eq!(st.update_count, 0);
}

#[test]
fn deterministic_seed_reproduces_run() {
    let cfg = test_config(40, 40);
    let world = WorldMap::uniform(40, 40, 1000, 1000);
    let mut a = GameState::initialize_game(cfg, world.clone(), 7).expect("init");
    let mut b = GameState::initialize_game(cfg, world, 7).expect("init");
    for _ in 0..20 {
        a.update();
        b.update();
    }
    assert_eq!(a.update_count, b.update_count);
    assert_eq!(a.players.len(), b.players.len());
    for i in 0..a.players.len() {
        assert_eq!(a.players[i].id, b.players[i].id);
        assert_eq!(a.players[i].resources, b.players[i].resources);
        assert_eq!(a.players[i].area, b.players[i].area);
    }
    for i in 0..a.grid.cells.len() {
        assert_eq!(a.grid.cells[i], b.grid.cells[i]);
    }
}
