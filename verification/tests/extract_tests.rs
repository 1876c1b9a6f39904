use maze_solver::bitmap::{Bitmap, DEFAULT_THRESHOLD};
use maze_solver::extract::{
    extract, extract_dense, extract_sparse, find_seed, ExtractError, Strategy,
};
use maze_solver::graph::{find_exits, Node, NodeGraph};
use maze_solver::probe::{is_open, probe, probe_node, Direction};

fn grid(rows: &[&str]) -> Bitmap {
    let height = rows.len();
    let width = if height == 0 { 0 } else { rows[0].len() };
    let mut pixels = Vec::new();
    for row in rows {
        for c in row.chars() {
            pixels.push(if c == '#' { 0u8 } else { 255u8 });
        }
    }
    Bitmap::new(width, height, pixels, DEFAULT_THRESHOLD).unwrap()
}

fn node(left: u16, right: u16, top: u16, bottom: u16) -> Node {
    Node { left, right, top, bottom }
}

fn positions_of(graph: &NodeGraph, width: u16, height: u16) -> Vec<(u16, u16)> {
    let mut found = Vec::new();
    for y in 0..height {
        for x in 0..width {
            if graph.contains((x, y)) {
                found.push((x, y));
            }
        }
    }
    found
}

#[test]
fn neighbor_positions_follow_the_run_lengths() {
    let n = node(2, 3, 1, 4);
    assert_eq!(n.get_neighbor_positions(5, 6), vec![(3, 6), (8, 6), (5, 5), (5, 10)]);
}

#[test]
fn neighbor_positions_leave_out_zero_run_lengths() {
    assert_eq!(node(0, 0, 0, 0).get_neighbor_positions(5, 6), Vec::<(u16, u16)>::new());
    assert_eq!(node(0, 3, 0, 0).get_neighbor_positions(5, 6), vec![(8, 6)]);
    assert_eq!(node(1, 0, 0, 2).get_neighbor_positions(5, 6), vec![(4, 6), (5, 8)]);
}

#[test]
fn neighbor_positions_leave_out_edges_that_leave_the_positions() {
    assert_eq!(node(6, 0, 7, 0).get_neighbor_positions(5, 6), Vec::<(u16, u16)>::new());
    assert_eq!(node(5, 0, 6, 0).get_neighbor_positions(5, 6), vec![(0, 6), (5, 0)]);
    assert_eq!(
        node(0, 1, 0, 1).get_neighbor_positions(65535, 65535),
        Vec::<(u16, u16)>::new()
    );
    assert_eq!(node(0, 1, 0, 1).get_neighbor_positions(65534, 65534), vec![(65535, 65534), (65534, 65535)]);
}

#[test]
fn is_open_is_false_for_walls_and_outside() {
    let b = grid(&["#."]);
    assert!(!is_open(&b, 0, 0));
    assert!(is_open(&b, 1, 0));
    assert!(!is_open(&b, 2, 0));
    assert!(!is_open(&b, 1, -1));
}

#[test]
fn probe_stops_before_a_wall() {
    let b = grid(&["#####", "#...#", "#####"]);
    assert_eq!(probe(&b, 1, 1, Direction::Right), 2);
    assert_eq!(probe(&b, 1, 1, Direction::Left), 0);
    assert_eq!(probe(&b, 3, 1, Direction::Left), 2);
    assert_eq!(probe(&b, 2, 1, Direction::Left), 1);
    assert_eq!(probe(&b, 2, 1, Direction::Right), 1);
    assert_eq!(probe(&b, 2, 1, Direction::Top), 0);
    assert_eq!(probe(&b, 2, 1, Direction::Bottom), 0);
}

#[test]
fn probe_stops_at_the_edge_of_the_bitmap() {
    let b = grid(&["....."]);
    assert_eq!(probe(&b, 0, 0, Direction::Right), 4);
    assert_eq!(probe(&b, 4, 0, Direction::Left), 4);
    assert_eq!(probe(&b, 2, 0, Direction::Left), 2);
    assert_eq!(probe(&b, 2, 0, Direction::Right), 2);
    assert_eq!(probe(&b, 2, 0, Direction::Top), 0);
    assert_eq!(probe(&b, 2, 0, Direction::Bottom), 0);
}

#[test]
fn probe_stops_at_a_junction() {
    let b = grid(&[
        "#######",
        "#.....#",
        "###.###",
        "###.###",
        "#######",
    ]);
    assert_eq!(probe(&b, 1, 1, Direction::Right), 2);
    assert_eq!(probe(&b, 5, 1, Direction::Left), 2);
    assert_eq!(probe(&b, 3, 1, Direction::Bottom), 2);
    assert_eq!(probe(&b, 3, 3, Direction::Top), 2);
    assert_eq!(probe(&b, 3, 1, Direction::Left), 2);
    assert_eq!(probe(&b, 3, 1, Direction::Right), 2);
}

#[test]
fn probe_goes_down_a_long_column() {
    let mut rows: Vec<&str> = Vec::new();
    for _ in 0..300 {
        rows.push("#.#");
    }
    let b = grid(&rows);
    assert_eq!(probe(&b, 1, 0, Direction::Bottom), 299);
    assert_eq!(probe(&b, 1, 299, Direction::Top), 299);
    assert_eq!(probe(&b, 1, 100, Direction::Top), 100);
    assert_eq!(probe(&b, 1, 100, Direction::Bottom), 199);
}

#[test]
fn probe_node_of_a_wall_is_all_zero() {
    let b = grid(&["#..", "..."]);
    assert_eq!(probe_node(&b, 0, 0), node(0, 0, 0, 0));
}

#[test]
fn probe_node_collects_the_four_run_lengths() {
    let b = grid(&[
        "#######",
        "#.....#",
        "###.###",
        "###.###",
        "#######",
    ]);
    assert_eq!(probe_node(&b, 3, 1), node(2, 2, 0, 2));
    assert_eq!(probe_node(&b, 1, 1), node(0, 2, 0, 0));
    assert_eq!(probe_node(&b, 3, 3), node(0, 0, 2, 0));
}

#[test]
fn find_seed_is_first_open_cell_row_by_row() {
    assert_eq!(find_seed(&grid(&["###", "#.#", "..#"])), Some((1, 1)));
    assert_eq!(find_seed(&grid(&["##.", ".##"])), Some((2, 0)));
    assert_eq!(find_seed(&grid(&["###", "###"])), None);
    assert_eq!(find_seed(&grid(&[])), None);
}

#[test]
fn extraction_fails_on_a_bitmap_without_open_cells() {
    let b = grid(&["###", "###", "###"]);
    assert!(matches!(extract_sparse(&b), Err(ExtractError::EmptyMaze)));
    assert!(matches!(extract_dense(&b), Err(ExtractError::EmptyMaze)));
    assert!(matches!(extract(&b, Strategy::Sparse), Err(ExtractError::EmptyMaze)));
    assert!(matches!(extract(&b, Strategy::Dense), Err(ExtractError::EmptyMaze)));
    let empty = grid(&[]);
    assert!(matches!(extract_sparse(&empty), Err(ExtractError::EmptyMaze)));
    assert!(matches!(extract_dense(&empty), Err(ExtractError::EmptyMaze)));
}

#[test]
fn corridor_becomes_two_nodes_joined_by_one_edge() {
    for n in 2usize..40 {
        let mut row = String::from("#");
        for _ in 0..n {
            row.push('.');
        }
        row.push('#');
        let wall: String = "#".repeat(n + 2);
        let b = grid(&[wall.as_str(), row.as_str(), wall.as_str()]);
        let graph = extract_sparse(&b).unwrap();
        assert_eq!(graph.len(), 2);
        let last = n as u16;
        assert_eq!(graph.get((1, 1)), Some(node(0, last - 1, 0, 0)));
        assert_eq!(graph.get((last, 1)), Some(node(last - 1, 0, 0, 0)));
        assert_eq!(positions_of(&graph, (n + 2) as u16, 3), vec![(1, 1), (last, 1)]);
    }
}

#[test]
fn corridor_between_the_edges_of_the_bitmap() {
    let b = grid(&["......"]);
    let graph = extract_sparse(&b).unwrap();
    assert_eq!(graph.len(), 2);
    assert_eq!(graph.get((0, 0)), Some(node(0, 5, 0, 0)));
    assert_eq!(graph.get((5, 0)), Some(node(5, 0, 0, 0)));
    assert_eq!(graph.get((3, 0)), None);
}

#[test]
fn corridor_longer_than_a_byte() {
    let row = ".".repeat(1000);
    let b = grid(&[row.as_str()]);
    let graph = extract_sparse(&b).unwrap();
    assert_eq!(graph.len(), 2);
    assert_eq!(graph.get((0, 0)), Some(node(0, 999, 0, 0)));
    assert_eq!(graph.get((999, 0)), Some(node(999, 0, 0, 0)));
}

#[test]
fn single_cell_is_one_node_without_edges() {
    let b = grid(&["."]);
    let graph = extract_sparse(&b).unwrap();
    assert_eq!(graph.len(), 1);
    assert_eq!(graph.get((0, 0)), Some(node(0, 0, 0, 0)));
    assert!(graph.contains((0, 0)));
    assert!(!graph.contains((1, 0)));
    let dense = extract_dense(&b).unwrap();
    assert_eq!(dense.len(), 1);
    assert_eq!(dense.get((0, 0)), Some(node(0, 0, 0, 0)));
}

#[test]
fn sparse_graph_of_a_tee() {
    let b = grid(&[
        "#######",
        "#.....#",
        "###.###",
        "###.###",
        "#######",
    ]);
    let graph = extract_sparse(&b).unwrap();
    assert_eq!(positions_of(&graph, 7, 5), vec![(1, 1), (3, 1), (5, 1), (3, 3)]);
    assert_eq!(graph.get((1, 1)), Some(node(0, 2, 0, 0)));
    assert_eq!(graph.get((3, 1)), Some(node(2, 2, 0, 2)));
    assert_eq!(graph.get((5, 1)), Some(node(2, 0, 0, 0)));
    assert_eq!(graph.get((3, 3)), Some(node(0, 0, 2, 0)));
    assert_eq!(graph.get((2, 1)), None);
}

#[test]
fn sparse_graph_keeps_only_what_the_seed_reaches() {
    let b = grid(&[
        "..#..",
        "#####",
        "....#",
    ]);
    let graph = extract_sparse(&b).unwrap();
    assert_eq!(positions_of(&graph, 5, 3), vec![(0, 0), (1, 0)]);
}

#[test]
fn no_edge_dangles_in_an_extracted_graph() {
    let b = grid(&[
        "#########",
        "#...#...#",
        "#.#.#.#.#",
        "#.#...#.#",
        "#.#####.#",
        "#.......#",
        "#########",
    ]);
    for strategy in [Strategy::Sparse, Strategy::Dense] {
        let graph = extract(&b, strategy).unwrap();
        let mut nodes = 0;
        for y in 0..7u16 {
            for x in 0..9u16 {
                if let Some(n) = graph.get((x, y)) {
                    nodes += 1;
                    assert!(n.left <= x && n.top <= y);
                    if n.left > 0 {
                        assert!(graph.contains((x - n.left, y)));
                    }
                    if n.right > 0 {
                        assert!(graph.contains((x + n.right, y)));
                    }
                    if n.top > 0 {
                        assert!(graph.contains((x, y - n.top)));
                    }
                    if n.bottom > 0 {
                        assert!(graph.contains((x, y + n.bottom)));
                    }
                    let ends = n.get_neighbor_positions(x, y);
                    for end in ends {
                        assert!(graph.contains(end));
                    }
                }
            }
        }
        assert_eq!(nodes, graph.len());
        assert!(nodes > 0);
    }
}

#[test]
fn dense_graph_has_a_node_for_each_open_cell() {
    let b = grid(&[
        "#.#",
        "...",
        "#.#",
    ]);
    let graph = extract_dense(&b).unwrap();
    assert_eq!(graph.len(), 5);
    assert_eq!(graph.get((1, 0)), Some(node(0, 0, 0, 1)));
    assert_eq!(graph.get((0, 1)), Some(node(0, 1, 0, 0)));
    assert_eq!(graph.get((1, 1)), Some(node(1, 1, 1, 1)));
    assert_eq!(graph.get((2, 1)), Some(node(1, 0, 0, 0)));
    assert_eq!(graph.get((1, 2)), Some(node(0, 0, 1, 0)));
    assert_eq!(graph.get((0, 0)), None);
}

#[test]
fn dense_graph_keeps_cells_the_seed_does_not_reach() {
    let b = grid(&[
        "..#..",
        "#####",
        "....#",
    ]);
    let graph = extract_dense(&b).unwrap();
    assert_eq!(graph.len(), 8);
    assert_eq!(graph.get((3, 0)), Some(node(0, 1, 0, 0)));
    assert_eq!(graph.get((0, 2)), Some(node(0, 1, 0, 0)));
}

#[test]
fn extract_selects_the_strategy() {
    let b = grid(&["...."]);
    assert_eq!(extract(&b, Strategy::Sparse).unwrap().len(), 2);
    assert_eq!(extract(&b, Strategy::Dense).unwrap().len(), 4);
}

#[test]
fn find_exits_takes_first_node_and_last_node_off_the_first_row_and_column() {
    let b = grid(&[
        "#.###",
        "#...#",
        "###.#",
        "###.#",
    ]);
    let graph = extract_dense(&b).unwrap();
    let (start, end) = find_exits(&graph, 5, 4);
    assert_eq!(start, Some((1, 0)));
    assert_eq!(end, Some((3, 3)));
}

#[test]
fn find_exits_never_looks_at_first_row_or_column_for_the_way_out() {
    let b = grid(&["....", ".###"]);
    let graph = extract_dense(&b).unwrap();
    let (start, end) = find_exits(&graph, 4, 2);
    assert_eq!(start, Some((0, 0)));
    assert_eq!(end, None);
    let single = extract_sparse(&grid(&["."])).unwrap();
    assert_eq!(find_exits(&single, 1, 1), (Some((0, 0)), None));
}

#[test]
fn find_exits_is_limited_to_the_given_sides() {
    let b = grid(&[
        "#####",
        "#...#",
        "#####",
    ]);
    let graph = extract_dense(&b).unwrap();
    assert_eq!(find_exits(&graph, 5, 3), (Some((1, 1)), Some((3, 1))));
    assert_eq!(find_exits(&graph, 2, 3), (Some((1, 1)), Some((2, 1))));
    assert_eq!(find_exits(&graph, 1, 3), (None, Some((1, 1))));
    assert_eq!(find_exits(&graph, 5, 1), (None, Some((3, 1))));
    assert_eq!(find_exits(&graph, 0, 0), (None, None));
}
