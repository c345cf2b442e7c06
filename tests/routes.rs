use dungeon::config::Config;
use dungeon::graph::{Enemy, Graph, Node, Tile, Treasure};
use dungeon::movement::Signal;

fn room(x: isize, y: isize, index: usize) -> Node {
    Node { x, y, value: Tile::Empty, neighbors: Vec::new(), index }
}

/// Rooms at (i, 0) for i in 0..n, joined by the given edges.
fn board(n: usize, edges: &[(usize, usize)]) -> Graph {
    let mut g = Graph::empty(Config::standard());
    for i in 0..n {
        g.add_node(room(i as isize, 0, i));
    }
    for &(a, b) in edges {
        g.add_edge(a, b);
    }
    g
}

#[test]
fn path_to_itself_is_one_room() {
    let g = board(4, &[(0, 1), (1, 2), (2, 3)]);
    for a in 0..4 {
        assert_eq!(g.get_path(a, a), Some(vec![a]));
    }
}

#[test]
fn path_is_listed_end_first() {
    let g = board(4, &[(0, 1), (1, 2), (2, 3)]);
    assert_eq!(g.get_path(0, 3), Some(vec![3, 2, 1, 0]));
    assert_eq!(g.get_path(3, 1), Some(vec![1, 2, 3]));
}

#[test]
fn path_takes_fewest_hops() {
    // A ring 0-1-2-3-4-5-0: from 0 to 4 the short way is through 5.
    let g = board(6, &[(0, 1), (1, 2), (2, 3), (3, 4), (4, 5), (5, 0)]);
    assert_eq!(g.get_path(0, 4), Some(vec![4, 5, 0]));
    let p = g.get_path(1, 4).unwrap();
    assert_eq!(p.len(), 4);
    assert_eq!(p[0], 4);
    assert_eq!(p[3], 1);
    for w in p.windows(2) {
        assert!(g.nodes[w[1]].neighbors.contains(&w[0]));
    }
}

#[test]
fn unreachable_room_has_no_path() {
    let g = board(4, &[(0, 1), (1, 2)]);
    assert_eq!(g.get_path(0, 3), None);
    assert_eq!(g.get_path(3, 0), None);
    assert_eq!(g.get_path(3, 3), Some(vec![3]));
}

#[test]
fn add_edge_links_both_ways() {
    let g = board(3, &[(0, 2)]);
    assert_eq!(g.nodes[0].neighbors, vec![2]);
    assert_eq!(g.nodes[2].neighbors, vec![0]);
    assert!(g.nodes[1].neighbors.is_empty());
}

#[test]
fn get_node_finds_coordinates() {
    let g = board(3, &[]);
    assert_eq!(g.get_node(2, 0), Some(2));
    assert_eq!(g.get_node(0, 0), Some(0));
    assert_eq!(g.get_node(1, 1), None);
    assert_eq!(g.get_node(-1, 0), None);
}

#[test]
fn distance_is_squared_euclidean() {
    let mut g = Graph::empty(Config::standard());
    g.add_node(room(0, 0, 0));
    g.add_node(room(3, 4, 1));
    assert_eq!(g.distance(0, 1), 25);
    assert_eq!(g.distance(1, 1), 0);
}

#[test]
fn closest_node_picks_first_of_the_nearest() {
    let mut g = Graph::empty(Config::standard());
    g.add_node(room(0, 0, 0));
    g.add_node(room(2, 0, 1));
    g.add_node(room(0, 2, 2));
    g.add_node(room(5, 5, 3));
    assert_eq!(g.closest_node(&vec![3, 1, 2], &0), Some(1));
    assert_eq!(g.closest_node(&vec![3, 2, 1], &0), Some(2));
    assert_eq!(g.closest_node(&vec![3], &0), Some(3));
    assert_eq!(g.closest_node(&vec![], &0), None);
}

#[test]
fn closest_pair_is_nearest_across_sets() {
    let mut g = Graph::empty(Config::standard());
    g.add_node(room(0, 0, 0));
    g.add_node(room(4, 0, 1));
    g.add_node(room(5, 1, 2));
    g.add_node(room(0, 3, 3));
    assert_eq!(g.closest_pair(&vec![0, 1], &vec![2, 3]), Some((1, 2)));
    assert_eq!(g.closest_pair(&vec![0], &vec![2, 3]), Some((0, 3)));
    assert_eq!(g.closest_pair(&vec![], &vec![2, 3]), None);
    assert_eq!(g.closest_pair(&vec![0], &vec![]), None);
}

/// A line 0-1-2-3-4 with the player on 0 and the goal on 4.
fn line_in_play() -> Graph {
    let mut g = board(5, &[(0, 1), (1, 2), (2, 3), (3, 4)]);
    g.current_player_position = Some(0);
    g.goal_position = Some(4);
    g
}

#[test]
fn advance_pops_the_next_room_only() {
    let mut g = line_in_play();
    g.player_path = vec![4, 3, 2, 1];
    assert_eq!(g.advance_one_step(), None);
    assert_eq!(g.current_player_position, Some(1));
    assert_eq!(g.player_path, vec![4, 3, 2]);
    assert_eq!(g.goal_position, Some(4));
}

#[test]
fn advance_into_enemy_signals_combat_once() {
    let mut g = line_in_play();
    g.nodes[1].value = Tile::Enemy(Enemy {});
    g.player_path = vec![4, 3, 2, 1];
    assert_eq!(g.advance_one_step(), Some(Signal::CombatStart));
    assert_eq!(g.current_player_position, Some(1));
    assert_eq!(g.nodes[1].value, Tile::Enemy(Enemy {}));
    assert_eq!(g.advance_one_step(), None);
    assert_eq!(g.nodes[1].value, Tile::Empty);
}

#[test]
fn advance_into_treasure_signals_reward() {
    let mut g = line_in_play();
    g.nodes[1].value = Tile::Treasure(Treasure {});
    g.player_path = vec![1];
    assert_eq!(g.advance_one_step(), Some(Signal::RewardStart));
    assert_eq!(g.current_player_position, Some(1));
    g.clear_current_tile();
    assert_eq!(g.nodes[1].value, Tile::Empty);
}

#[test]
fn advance_leaves_a_cleared_room_behind() {
    let mut g = line_in_play();
    g.nodes[0].value = Tile::Enemy(Enemy {});
    g.player_path = vec![1];
    assert_eq!(g.advance_one_step(), None);
    assert_eq!(g.nodes[0].value, Tile::Empty);
}

#[test]
fn reaching_the_goal_completes_the_level() {
    let mut g = line_in_play();
    g.current_player_position = Some(3);
    g.player_path = vec![4];
    assert_eq!(g.advance_one_step(), Some(Signal::LevelComplete));
    assert_eq!(g.current_player_position, Some(3));
    assert!(g.player_path.is_empty());
}

#[test]
fn passing_the_goal_is_no_completion() {
    let mut g = line_in_play();
    g.goal_position = Some(2);
    g.player_path = vec![4, 3, 2, 1];
    assert_eq!(g.advance_one_step(), None);
    assert_eq!(g.advance_one_step(), None);
    assert_eq!(g.current_player_position, Some(2));
}

#[test]
fn advance_with_no_path_does_nothing() {
    let mut g = line_in_play();
    g.nodes[0].value = Tile::Treasure(Treasure {});
    assert_eq!(g.advance_one_step(), None);
    assert_eq!(g.current_player_position, Some(0));
    assert_eq!(g.nodes[0].value, Tile::Treasure(Treasure {}));
}

#[test]
fn move_player_reports_content() {
    let mut g = line_in_play();
    g.nodes[2].value = Tile::Enemy(Enemy {});
    assert_eq!(g.move_player(2), Some(Signal::CombatStart));
    assert_eq!(g.current_player_position, Some(2));
    assert_eq!(g.move_player(4), Some(Signal::LevelComplete));
    assert_eq!(g.current_player_position, Some(2));
    assert_eq!(g.nodes[2].value, Tile::Empty);
}

#[test]
fn set_target_replaces_the_path() {
    let mut g = line_in_play();
    g.player_path = vec![1];
    assert!(g.set_target(3));
    assert_eq!(g.player_path, vec![3, 2, 1, 0]);
    assert_eq!(g.current_player_position, Some(0));
    assert!(g.set_target(0));
    assert_eq!(g.player_path, vec![0]);
}

#[test]
fn set_target_without_route_clears_the_path() {
    let mut g = board(3, &[(0, 1)]);
    g.current_player_position = Some(0);
    g.goal_position = Some(1);
    g.player_path = vec![1];
    assert!(!g.set_target(2));
    assert!(g.player_path.is_empty());
}

#[test]
fn request_move_to_finds_the_room() {
    let mut g = line_in_play();
    assert_eq!(g.request_move_to(2, 0), Some(2));
    assert_eq!(g.player_path, vec![2, 1, 0]);
    assert_eq!(g.request_move_to(2, 1), None);
    assert_eq!(g.player_path, vec![2, 1, 0]);
}

#[test]
fn walking_a_full_route() {
    let mut g = line_in_play();
    g.nodes[2].value = Tile::Treasure(Treasure {});
    assert!(g.set_target(4));
    let mut signals = Vec::new();
    while !g.player_path.is_empty() {
        signals.push(g.advance_one_step());
    }
    assert_eq!(
        signals,
        vec![None, None, Some(Signal::RewardStart), None, Some(Signal::LevelComplete)]
    );
    assert_eq!(g.current_player_position, Some(3));
}
