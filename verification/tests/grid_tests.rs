use territory::config::{ExpansionGate, GameConfig};
use territory::grid::{Grid, GridCell};
use territory::player::Player;
use territory::rng::Prng;
use territory::state::GameState;
use territory::world::WorldMap;

fn test_config(width: usize, height: usize) -> GameConfig {
    GameConfig {
        num_players: 2,
        grid_width: width,
        grid_height: height,
        min_area_threshold: 1,
        base_interest_rate_permille: 10,
        max_resources_multiplier: 100,
        resource_floor: 2000,
        min_expansion_cost: 5,
        expansion_gate: ExpansionGate::ResourceFloor,
        expansion_chance_permille: 300,
        invest_ratio_min_permille: 200,
        invest_ratio_max_permille: 400,
        attack_interval: 1,
        resource_interval: 1,
        expansion_interval: 1,
        area_interval: 1,
        neighbor_interval: 1,
        center_of_mass_interval: 1,
        bonus_interval: 50,
        reduction_factor: 2,
    }
}

#[test]
fn new_grid_is_all_available() {
    let g = Grid::new(5, 4);
    assert_eq!(g.cells.len(), 20);
    for c in g.cells.iter() {
        assert_eq!(*c, GridCell::Available);
    }
}

#[test]
fn count_owner_counts_exactly() {
    let mut g = Grid::new(5, 4);
    g.set(0, 0, GridCell::PlayerId(3));
    g.set(4, 3, GridCell::PlayerId(3));
    g.set(2, 2, GridCell::PlayerId(4));
    assert_eq!(g.count_owner(3), 2);
    assert_eq!(g.count_owner(4), 1);
    assert_eq!(g.count_owner(9), 0);
}

#[test]
fn revert_owner_clears_only_that_player() {
    let mut g = Grid::new(5, 4);
    g.set(0, 0, GridCell::PlayerId(3));
    g.set(1, 0, GridCell::PlayerId(4));
    g.set(2, 0, GridCell::Water);
    g.revert_owner(3);
    assert_eq!(g.get(0, 0), GridCell::Available);
    assert_eq!(g.get(1, 0), GridCell::PlayerId(4));
    assert_eq!(g.get(2, 0), GridCell::Water);
}

#[test]
fn position_availability_respects_radius() {
    let cfg = test_config(10, 10);
    let world = WorldMap::uniform(10, 10, 1000, 1000);
    let mut st = GameState::new(cfg, world, 1);
    st.grid.set(5, 5, GridCell::Water);
    assert!(!st.is_position_available(5, 5, 0));
    assert!(!st.is_position_available(3, 5, 2));
    assert!(st.is_position_available(2, 5, 2));
    // Clipping at the edge still counts as available.
    assert!(st.is_position_available(0, 0, 2));
}

#[test]
fn prng_is_deterministic_and_in_range() {
    let mut a = Prng::new(99);
    let mut b = Prng::new(99);
    for _ in 0..100 {
        let x = a.draw_below(37);
        let y = b.draw_below(37);
        assert_eq!(x, y);
        assert!(x < 37);
    }
    let mut c = Prng::new(100);
    let mut differs = false;
    let mut a2 = Prng::new(99);
    for _ in 0..10 {
        if a2.draw_below(1000) != c.draw_below(1000) {
            differs = true;
        }
    }
    assert!(differs);
}

#[test]
fn find_random_neighbor_only_names_bordering_targets() {
    let cfg = test_config(10, 10);
    let world = WorldMap::uniform(10, 10, 1000, 1000);
    let mut st = GameState::new(cfg, world, 5);
    let mut p1 = Player::new(1, 1, 1, &cfg);
    p1.area = 1;
    st.players.push(p1);
    let mut p2 = Player::new(2, 3, 1, &cfg);
    p2.area = 1;
    st.players.push(p2);
    st.grid.set(1, 1, GridCell::PlayerId(1));
    st.grid.set(2, 1, GridCell::PlayerId(2));
    for _ in 0..20 {
        match st.find_random_neighbor(1) {
            Some(territory::attack::MoveTarget::EmptySpace) => (),
            Some(territory::attack::MoveTarget::Enemy(e)) => assert_eq!(e, 2),
            None => (),
        }
    }
}

#[test]
fn landlocked_player_gets_no_target() {
    let cfg = test_config(3, 1);
    let world = WorldMap::uniform(3, 1, 1000, 1000);
    let mut st = GameState::new(cfg, world, 5);
    let p1 = Player::new(1, 1, 0, &cfg);
    st.players.push(p1);
    st.grid.set(0, 0, GridCell::Water);
    st.grid.set(1, 0, GridCell::PlayerId(1));
    st.grid.set(2, 0, GridCell::Water);
    for _ in 0..5 {
        assert!(st.find_random_neighbor(1).is_none());
    }
}
