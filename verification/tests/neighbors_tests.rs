use territory::attack::MoveTarget;
use territory::grid::{Grid, GridCell};
use territory::neighbors::{find_all_possible_targets, get_neighbors, NeighborPair};

#[test]
fn adjacent_owners_form_one_normalized_pair() {
    let mut g = Grid::new(4, 1);
    g.set(0, 0, GridCell::PlayerId(2));
    g.set(1, 0, GridCell::PlayerId(1));
    // Stride 1 probes every cell one step right and one step up.
    let pairs = find_all_possible_targets(&g, 1);
    assert!(pairs.contains(&NeighborPair {
        source: MoveTarget::Enemy(1),
        target: MoveTarget::Enemy(2),
    }));
    // The pair appears once, normalized with the smaller key first.
    let owner_pairs: Vec<&NeighborPair> = pairs
        .iter()
        .filter(|p| p.source == MoveTarget::Enemy(1) && p.target == MoveTarget::Enemy(2))
        .collect();
    assert_eq!(owner_pairs.len(), 1);
    assert!(!pairs.contains(&NeighborPair {
        source: MoveTarget::Enemy(2),
        target: MoveTarget::Enemy(1),
    }));
}

#[test]
fn empty_space_borders_appear_as_pairs() {
    let mut g = Grid::new(3, 1);
    g.set(0, 0, GridCell::PlayerId(5));
    let pairs = find_all_possible_targets(&g, 1);
    assert!(pairs.contains(&NeighborPair {
        source: MoveTarget::EmptySpace,
        target: MoveTarget::Enemy(5),
    }));
}

#[test]
fn terrain_never_joins_the_graph() {
    let mut g = Grid::new(3, 1);
    g.set(0, 0, GridCell::PlayerId(5));
    g.set(1, 0, GridCell::Water);
    g.set(2, 0, GridCell::Mountain);
    let pairs = find_all_possible_targets(&g, 1);
    assert_eq!(pairs.len(), 0);
}

#[test]
fn stride_skips_unsampled_cells() {
    let mut g = Grid::new(4, 1);
    // Adjacency only visible from the unsampled column 1.
    g.set(1, 0, GridCell::PlayerId(1));
    g.set(2, 0, GridCell::PlayerId(2));
    g.set(3, 0, GridCell::Water);
    let pairs = find_all_possible_targets(&g, 2);
    // Column 0 probes column 2 (empty-space to player 2); column 2 probes
    // the terrain in column 4, out of range. The 1-2 border is invisible.
    assert!(!pairs.contains(&NeighborPair {
        source: MoveTarget::Enemy(1),
        target: MoveTarget::Enemy(2),
    }));
}

#[test]
fn get_neighbors_returns_counterparts() {
    let pairs = vec![
        NeighborPair { source: MoveTarget::EmptySpace, target: MoveTarget::Enemy(1) },
        NeighborPair { source: MoveTarget::Enemy(1), target: MoveTarget::Enemy(2) },
        NeighborPair { source: MoveTarget::Enemy(2), target: MoveTarget::Enemy(3) },
    ];
    let n1 = get_neighbors(&pairs, 1);
    assert_eq!(n1, vec![MoveTarget::EmptySpace, MoveTarget::Enemy(2)]);
    let n3 = get_neighbors(&pairs, 3);
    assert_eq!(n3, vec![MoveTarget::Enemy(2)]);
    let n9 = get_neighbors(&pairs, 9);
    assert_eq!(n9.len(), 0);
}
