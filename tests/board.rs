use dungeon::config::{target_count, Config, ConfigError, GRID_SIZE};
use dungeon::geometry::distance_squared;
use dungeon::graph::{Enemy, Graph, Node, Tile, Treasure};
use rand::rngs::StdRng;
use rand::SeedableRng;

fn standard_board(seed: u64) -> Graph {
    let mut rng = StdRng::seed_from_u64(seed);
    Graph::generate(Config::standard(), &mut rng).expect("the standard configuration is valid")
}

fn edge_count(g: &Graph) -> usize {
    g.nodes.iter().map(|n| n.neighbors.len()).sum::<usize>() / 2
}

fn count(g: &Graph, t: Tile) -> usize {
    g.nodes.iter().filter(|n| n.value == t).count()
}

fn assert_valid_board(g: &Graph) {
    let n = g.nodes.len();
    assert_eq!(n, target_count(g.config.grid_size));
    assert_eq!(edge_count(g), n - 1);
    for v in 0..n {
        assert!(g.get_path(0, v).is_some(), "room {} unreachable from room 0", v);
    }
    for (i, a) in g.nodes.iter().enumerate() {
        assert_eq!(a.index, i);
        assert!(a.x >= 0 && (a.x as usize) < g.config.grid_size);
        assert!(a.y >= 0 && (a.y as usize) < g.config.grid_size);
        for b in g.nodes.iter().skip(i + 1) {
            assert!(a.x != b.x || a.y != b.y);
        }
        for &nb in &a.neighbors {
            assert!(g.nodes[nb].neighbors.contains(&i));
        }
    }
}

#[test]
fn distance_squared_exact() {
    assert_eq!(distance_squared(0, 0, 3, 4), 25);
    assert_eq!(distance_squared(5, 2, 5, 2), 0);
    assert_eq!(distance_squared(7, 1, 2, 3), 29);
}

#[test]
fn target_count_rounds_three_halves() {
    assert_eq!(target_count(0), 0);
    assert_eq!(target_count(1), 1);
    assert_eq!(target_count(2), 3);
    assert_eq!(target_count(4), 8);
    assert_eq!(target_count(6), 15);
    assert_eq!(target_count(10), 32);
}

#[test]
fn treasure_and_enemy_totals() {
    let c = Config::standard();
    assert_eq!(c.treasure_total(15), 2);
    assert_eq!(c.treasure_total(3), 1);
    assert_eq!(c.treasure_total(25), 3);
    assert_eq!(c.treasure_total(24), 2);
    assert_eq!(c.enemy_total(15), 3);
    assert_eq!(c.enemy_total(4), 0);
}

#[test]
fn config_errors() {
    let base = Config::standard();
    assert_eq!(base.check(), Ok(()));
    assert_eq!(Config { grid_size: 2000, ..base }.check(), Err(ConfigError::GridTooLarge));
    assert_eq!(Config { treasure_divisor: 0, ..base }.check(), Err(ConfigError::ZeroDivisor));
    assert_eq!(Config { enemy_divisor: 0, ..base }.check(), Err(ConfigError::ZeroDivisor));
    assert_eq!(Config { level_count: 0, ..base }.check(), Err(ConfigError::NoLevels));
    assert_eq!(Config { grid_size: 0, ..base }.check(), Err(ConfigError::TooFewRooms));
    assert_eq!(Config { grid_size: 1, ..base }.check(), Err(ConfigError::TooFewRooms));
    assert_eq!(Config { grid_size: 2, ..base }.check(), Ok(()));
    assert_eq!(Config { grid_size: 4, enemy_divisor: 1, ..base }.check(), Err(ConfigError::TooFewRooms));
}

#[test]
fn generate_refuses_bad_config() {
    let mut rng = StdRng::seed_from_u64(3);
    let bad = Config { grid_size: 1, ..Config::standard() };
    assert_eq!(Graph::generate(bad, &mut rng).err(), Some(ConfigError::TooFewRooms));
}

#[test]
fn standard_grid_has_fifteen_rooms_and_fourteen_edges() {
    assert_eq!(GRID_SIZE, 6);
    for seed in 0..20 {
        let g = standard_board(seed);
        assert_eq!(g.nodes.len(), 15);
        assert_eq!(edge_count(&g), 14);
        assert_valid_board(&g);
    }
}

#[test]
fn populated_board_counts() {
    for seed in 0..20 {
        let g = standard_board(seed);
        assert_eq!(count(&g, Tile::Treasure(Treasure {})), 2);
        assert_eq!(count(&g, Tile::Enemy(Enemy {})), 3);
        assert_eq!(count(&g, Tile::Empty), 10);
        let goal = g.goal_position.unwrap();
        let player = g.current_player_position.unwrap();
        assert_ne!(goal, player);
        assert_eq!(g.nodes[goal].value, Tile::Empty);
        assert_eq!(g.nodes[player].value, Tile::Empty);
        assert!(g.player_path.is_empty());
        assert_eq!(g.level, 0);
    }
}

#[test]
fn goal_and_player_prefer_dead_ends() {
    for seed in 0..20 {
        let g = standard_board(seed);
        let dead: Vec<usize> = (0..g.nodes.len()).filter(|&i| g.nodes[i].neighbors.len() == 1).collect();
        let goal = g.goal_position.unwrap();
        let player = g.current_player_position.unwrap();
        assert!(!dead.is_empty());
        assert_eq!(g.nodes[goal].neighbors.len(), 1);
        if dead.iter().any(|&d| d != goal) {
            assert_eq!(g.nodes[player].neighbors.len(), 1);
        }
    }
}

#[test]
fn enemy_guards_the_route_to_the_goal() {
    for seed in 0..30 {
        let g = standard_board(seed);
        let goal = g.goal_position.unwrap();
        let player = g.current_player_position.unwrap();
        let route = g.get_path(player, goal).unwrap();
        let open = route
            .iter()
            .any(|&v| v != goal && v != player && g.nodes[v].value != Tile::Treasure(Treasure {}));
        if open {
            assert!(route.iter().any(|&v| g.nodes[v].value == Tile::Enemy(Enemy {})));
        }
    }
}

#[test]
fn regenerate_twice_gives_valid_boards() {
    let mut rng = StdRng::seed_from_u64(11);
    let mut g = standard_board(10);
    g.regenerate(&mut rng);
    assert_valid_board(&g);
    let first: Vec<(isize, isize)> = g.nodes.iter().map(|n| (n.x, n.y)).collect();
    g.regenerate(&mut rng);
    assert_valid_board(&g);
    let second: Vec<(isize, isize)> = g.nodes.iter().map(|n| (n.x, n.y)).collect();
    assert_ne!(first, second);
}

#[test]
fn seeds_change_the_board() {
    let layouts: Vec<Vec<(isize, isize)>> = (0..8)
        .map(|s| standard_board(s).nodes.iter().map(|n| (n.x, n.y)).collect())
        .collect();
    assert!(layouts.iter().any(|l| *l != layouts[0]));
    let goals: Vec<usize> = (0..16).map(|s| standard_board(s).goal_position.unwrap()).collect();
    assert!(goals.iter().any(|&g| g != goals[0]));
}

#[test]
fn larger_grid_generates() {
    let mut rng = StdRng::seed_from_u64(5);
    let config = Config { grid_size: 10, ..Config::standard() };
    let g = Graph::generate(config, &mut rng).unwrap();
    assert_eq!(g.nodes.len(), 32);
    assert_valid_board(&g);
    assert_eq!(count(&g, Tile::Treasure(Treasure {})), 3);
    assert_eq!(count(&g, Tile::Enemy(Enemy {})), 6);
}

#[test]
fn new_uses_standard_configuration() {
    let g = Graph::new();
    assert_eq!(g.config, Config::standard());
    assert_valid_board(&g);
}

#[test]
fn complete_level_counts_levels() {
    let mut rng = StdRng::seed_from_u64(2);
    let mut g = standard_board(1);
    assert!(!g.complete_level(&mut rng));
    assert_eq!(g.level, 1);
    assert_valid_board(&g);
    assert!(!g.complete_level(&mut rng));
    assert_eq!(g.level, 2);
    assert!(g.complete_level(&mut rng));
    assert_eq!(g.level, 3);
}


fn sq(g: &Graph, a: usize, b: usize) -> u64 {
    distance_squared(g.nodes[a].x, g.nodes[a].y, g.nodes[b].x, g.nodes[b].y)
}

#[test]
fn tree_has_minimum_total_squared_length() {
    for seed in 0..20 {
        let g = standard_board(seed);
        let n = g.nodes.len();
        let mut total = 0;
        for a in 0..n {
            for &b in &g.nodes[a].neighbors {
                if a < b {
                    total += sq(&g, a, b);
                }
            }
        }
        let mut joined = vec![false; n];
        joined[0] = true;
        let mut best = 0;
        for _ in 1..n {
            let mut step = u64::MAX;
            let mut pick = 0;
            for a in (0..n).filter(|&a| joined[a]) {
                for b in (0..n).filter(|&b| !joined[b]) {
                    if sq(&g, a, b) < step {
                        step = sq(&g, a, b);
                        pick = b;
                    }
                }
            }
            joined[pick] = true;
            best += step;
        }
        assert_eq!(total, best);
    }
}
