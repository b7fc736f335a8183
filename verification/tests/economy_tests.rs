use territory::config::{ExpansionGate, GameConfig};
use territory::player::Player;

fn test_config() -> GameConfig {
    GameConfig {
        num_players: 2,
        grid_width: 10,
        grid_height: 10,
        min_area_threshold: 1,
        base_interest_rate_permille: 10,
        max_resources_multiplier: 100,
        resource_floor: 2000,
        min_expansion_cost: 5,
        expansion_gate: ExpansionGate::ResourceFloor,
        expansion_chance_permille: 300,
        invest_ratio_min_permille: 200,
        invest_ratio_max_permille: 400,
        attack_interval: 1,
        resource_interval: 1,
        expansion_interval: 1,
        area_interval: 1,
        neighbor_interval: 1,
        center_of_mass_interval: 1,
        bonus_interval: 50,
        reduction_factor: 2,
    }
}

#[test]
fn max_resources_uses_floor_for_small_area() {
    let cfg = test_config();
    let p = Player::new(1, 0, 0, &cfg);
    assert_eq!(p.max_resources(&cfg), 2000);
}

#[test]
fn max_resources_scales_with_area() {
    let cfg = test_config();
    let mut p = Player::new(1, 0, 0, &cfg);
    p.area = 50;
    assert_eq!(p.max_resources(&cfg), 5000);
}

#[test]
fn update_resources_exact_gain() {
    let cfg = test_config();
    let mut p = Player::new(1, 0, 0, &cfg);
    // area 1, resources 1000, cap 2000: damping = (4e6 - 1e6) * 1000 / 4e6 = 750,
    // rate = 10 * 750 / 1000 = 7 permille, interest = 1000 * 7 / 1000 = 7,
    // gain = 1 + 7.
    p.update_resources(&cfg);
    assert_eq!(p.resources, 1008);
}

#[test]
fn update_resources_never_exceeds_cap() {
    let cfg = test_config();
    let mut p = Player::new(1, 0, 0, &cfg);
    p.resources = 2000;
    p.update_resources(&cfg);
    assert_eq!(p.resources, 2000);
}

#[test]
fn resources_stay_nonnegative_and_capped_over_many_cycles() {
    let cfg = test_config();
    let mut p = Player::new(1, 0, 0, &cfg);
    for _ in 0..200 {
        p.update_resources(&cfg);
        let cap = p.max_resources(&cfg);
        assert!(p.resources >= 0);
        assert!(p.resources <= cap);
    }
}

#[test]
fn try_expand_resource_floor_policy() {
    let cfg = test_config();
    let mut p = Player::new(1, 0, 0, &cfg);
    assert!(p.try_expand(&cfg, 0));
    p.resources = 4;
    assert!(!p.try_expand(&cfg, 0));
}

#[test]
fn try_expand_probabilistic_policy() {
    let mut cfg = test_config();
    cfg.expansion_gate = ExpansionGate::Probabilistic;
    cfg.expansion_chance_permille = 1000;
    let p = Player::new(1, 0, 0, &cfg);
    // resources 1000, cap 2000: ratio 500 permille, threshold 1000*500/1000 = 500.
    assert!(p.try_expand(&cfg, 499));
    assert!(!p.try_expand(&cfg, 500));
}

#[test]
fn investment_respects_ratio_range() {
    let cfg = test_config();
    let p = Player::new(1, 0, 0, &cfg);
    // ratio = 200 + draw % 200; draw 0 gives 200 permille of 1000 = 200.
    assert_eq!(p.calculate_expansion_investment(&cfg, 0), 200);
    // draw 199 gives 399 permille of 1000 = 399.
    assert_eq!(p.calculate_expansion_investment(&cfg, 199), 399);
}

#[test]
fn investment_is_floored_at_minimum_cost() {
    let mut cfg = test_config();
    cfg.invest_ratio_min_permille = 10;
    cfg.invest_ratio_max_permille = 10;
    let mut p = Player::new(1, 0, 0, &cfg);
    p.resources = 100;
    // The raw draw is floor(100 * 10 / 1000) = 1; the floor lifts it to
    // the minimum cost of 5.
    assert_eq!(p.calculate_expansion_investment(&cfg, 0), 5);
}

#[test]
fn investment_never_exceeds_resources() {
    let mut cfg = test_config();
    cfg.invest_ratio_min_permille = 10;
    cfg.invest_ratio_max_permille = 10;
    let mut p = Player::new(1, 0, 0, &cfg);
    p.resources = 3;
    // Poorer than the minimum cost: the cap at current resources wins.
    assert_eq!(p.calculate_expansion_investment(&cfg, 0), 3);
}

#[test]
fn get_target_declines_without_neighbors() {
    let cfg = test_config();
    let p = Player::new(1, 0, 0, &cfg);
    let neighbors: Vec<territory::attack::MoveTarget> = Vec::new();
    assert!(p.get_target(&neighbors, &cfg, 0, 0, 0).is_none());
}

#[test]
fn get_target_picks_drawn_neighbor() {
    let cfg = test_config();
    let p = Player::new(1, 0, 0, &cfg);
    let neighbors = vec![
        territory::attack::MoveTarget::EmptySpace,
        territory::attack::MoveTarget::Enemy(2),
    ];
    // gate draw 0 < 300 passes; index draw 1 picks Enemy(2); ratio draw 0
    // gives investment 200 >= 5.
    let got = p.get_target(&neighbors, &cfg, 0, 1, 0);
    match got {
        Some((territory::attack::MoveTarget::Enemy(id), inv)) => {
            assert_eq!(id, 2);
            assert_eq!(inv, 200);
        },
        _ => panic!("expected an enemy target"),
    }
}

#[test]
fn get_target_gate_can_decline() {
    let cfg = test_config();
    let p = Player::new(1, 0, 0, &cfg);
    let neighbors = vec![territory::attack::MoveTarget::EmptySpace];
    // gate draw 300 >= 300 declines.
    assert!(p.get_target(&neighbors, &cfg, 300, 0, 0).is_none());
}

#[test]
fn to_info_mirrors_fields() {
    let cfg = test_config();
    let mut p = Player::new(3, 4, 5, &cfg);
    p.resources = 777;
    let info = p.to_info();
    assert_eq!(info.id, 3);
    assert_eq!(info.resources, 777);
    assert_eq!(info.center_x_milli, 4000);
    assert_eq!(info.center_y_milli, 5000);
}
