use maze_solver::bitmap::{Bitmap, DEFAULT_THRESHOLD};
use maze_solver::extract::{extract, extract_dense, extract_sparse, Strategy};
use maze_solver::graph::NodeGraph;
use maze_solver::position::manhattan;
use maze_solver::route::{path_length, reconstruct};
use maze_solver::search::search;

fn maze(rows: &[&str]) -> Bitmap {
    let height = rows.len();
    let width = if height == 0 { 0 } else { rows[0].len() };
    let mut pixels = Vec::new();
    for row in rows {
        for c in row.chars() {
            pixels.push(if c == '#' { 0u8 } else { 255u8 });
        }
    }
    Bitmap::new(width, height, pixels, DEFAULT_THRESHOLD).unwrap()
}

fn is_walk(graph: &NodeGraph, path: &Vec<(u16, u16)>) -> bool {
    for i in 0..path.len() {
        if !graph.contains(path[i]) {
            return false;
        }
        if i + 1 < path.len() {
            let node = graph.get(path[i]).unwrap();
            let ends = node.get_neighbor_positions(path[i].0, path[i].1);
            if !ends.contains(&path[i + 1]) {
                return false;
            }
        }
    }
    true
}

const OPEN_ROOM: [&str; 5] = ["#####", "#...#", ".....", "#...#", "#####"];

#[test]
fn open_room_route_is_as_long_as_the_distance() {
    for strategy in [Strategy::Sparse, Strategy::Dense] {
        let graph = extract(&maze(&OPEN_ROOM), strategy).unwrap();
        let start = (0u16, 2u16);
        let end = (4u16, 2u16);
        assert!(graph.contains(start));
        assert!(graph.contains(end));
        let (closed, parents) = search(&graph, start, end);
        assert!(closed.contains(end));
        assert!(closed.contains(start));
        let path = reconstruct(&parents, start, end).unwrap();
        assert_eq!(path[0], start);
        assert_eq!(path[path.len() - 1], end);
        assert!(is_walk(&graph, &path));
        assert_eq!(path_length(&path), 4);
        assert_eq!(path_length(&path), manhattan(start, end) as u64);
    }
}

#[test]
fn open_room_route_goes_straight_along_the_row() {
    let graph = extract_sparse(&maze(&OPEN_ROOM)).unwrap();
    let (_, parents) = search(&graph, (0, 2), (4, 2));
    let path = reconstruct(&parents, (0, 2), (4, 2)).unwrap();
    assert_eq!(path, vec![(0, 2), (1, 2), (2, 2), (3, 2), (4, 2)]);
}

#[test]
fn wall_column_with_gap_in_the_top_row_forces_a_detour() {
    let rows = ["#...#", "#.#.#", "..#..", "#.#.#", "#####"];
    for strategy in [Strategy::Sparse, Strategy::Dense] {
        let graph = extract(&maze(&rows), strategy).unwrap();
        let start = (0u16, 2u16);
        let end = (4u16, 2u16);
        let (closed, parents) = search(&graph, start, end);
        assert!(closed.contains(end));
        let path = reconstruct(&parents, start, end).unwrap();
        assert!(is_walk(&graph, &path));
        assert!(path.contains(&(2, 0)) || path_length(&path) == 8);
        assert_eq!(path_length(&path), manhattan(start, end) as u64 + 2 * 2);
        assert!(!graph.contains((2, 1)));
        assert!(!graph.contains((2, 2)));
        assert!(!graph.contains((2, 3)));
    }
}

#[test]
fn wall_column_with_gap_in_the_top_row_is_passed_through_the_gap() {
    let rows = ["#...#", "#.#.#", "..#..", "#.#.#", "#####"];
    let graph = extract_dense(&maze(&rows)).unwrap();
    let (_, parents) = search(&graph, (0, 2), (4, 2));
    let path = reconstruct(&parents, (0, 2), (4, 2)).unwrap();
    assert_eq!(
        path,
        vec![(0, 2), (1, 2), (1, 1), (1, 0), (2, 0), (3, 0), (3, 1), (3, 2), (4, 2)]
    );
}

#[test]
fn wall_column_with_gap_one_row_up_adds_twice_the_offset() {
    let rows = ["#####", "#...#", "..#..", "#.#.#", "#####"];
    for strategy in [Strategy::Sparse, Strategy::Dense] {
        let graph = extract(&maze(&rows), strategy).unwrap();
        let start = (0u16, 2u16);
        let end = (4u16, 2u16);
        let (closed, parents) = search(&graph, start, end);
        assert!(closed.contains(end));
        let path = reconstruct(&parents, start, end).unwrap();
        assert!(is_walk(&graph, &path));
        assert_eq!(path_length(&path), manhattan(start, end) as u64 + 2 * 1);
    }
}

#[test]
fn gap_in_the_border_row_alone_cannot_be_reached() {
    let rows = ["##.##", "#.#.#", "..#..", "#.#.#", "#####"];
    let graph = extract_dense(&maze(&rows)).unwrap();
    let (closed, parents) = search(&graph, (0, 2), (4, 2));
    assert!(!closed.contains((4, 2)));
    assert!(!closed.contains((2, 0)));
    assert_eq!(reconstruct(&parents, (0, 2), (4, 2)), None);
}

#[test]
fn single_cell_search_from_start_to_itself() {
    let graph = extract_sparse(&maze(&["."])).unwrap();
    assert_eq!(graph.len(), 1);
    let (closed, parents) = search(&graph, (0, 0), (0, 0));
    assert!(closed.contains((0, 0)));
    assert_eq!(closed.len(), 1);
    assert_eq!(parents.len(), 0);
    assert_eq!(reconstruct(&parents, (0, 0), (0, 0)), Some(vec![(0, 0)]));
}

#[test]
fn search_from_a_position_to_itself_closes_it_alone() {
    let graph = extract_dense(&maze(&OPEN_ROOM)).unwrap();
    for start in [(0u16, 2u16), (2, 2), (3, 1)] {
        let (closed, parents) = search(&graph, start, start);
        assert_eq!(closed.len(), 1);
        assert!(closed.contains(start));
        assert_eq!(parents.len(), 0);
        assert_eq!(parents.get(start), None);
        assert_eq!(reconstruct(&parents, start, start), Some(vec![start]));
    }
}

#[test]
fn enclosed_end_is_not_found_and_has_no_route() {
    let rows = ["#######", "#..#..#", "#..#..#", "#######"];
    let graph = extract_dense(&maze(&rows)).unwrap();
    let start = (1u16, 1u16);
    let end = (5u16, 2u16);
    assert!(graph.contains(end));
    let (closed, parents) = search(&graph, start, end);
    assert!(!closed.contains(end));
    assert_eq!(parents.get(end), None);
    assert_eq!(reconstruct(&parents, start, end), None);
    assert_eq!(closed.len(), 4);
    assert!(closed.contains((1, 1)));
    assert!(closed.contains((2, 1)));
    assert!(closed.contains((1, 2)));
    assert!(closed.contains((2, 2)));
    assert!(!closed.contains((4, 1)));
}

#[test]
fn end_outside_the_graph_is_not_found() {
    let graph = extract_sparse(&maze(&OPEN_ROOM)).unwrap();
    let (closed, parents) = search(&graph, (0, 2), (0, 0));
    assert!(!closed.contains((0, 0)));
    assert_eq!(reconstruct(&parents, (0, 2), (0, 0)), None);
    assert_eq!(closed.len(), graph.len());
}

#[test]
fn start_outside_the_graph_is_closed_alone() {
    let graph = extract_sparse(&maze(&OPEN_ROOM)).unwrap();
    let (closed, parents) = search(&graph, (0, 0), (4, 2));
    assert_eq!(closed.len(), 1);
    assert!(closed.contains((0, 0)));
    assert_eq!(parents.len(), 0);
    assert_eq!(reconstruct(&parents, (0, 0), (4, 2)), None);
}

#[test]
fn search_gives_the_same_result_twice() {
    let rows = [
        "###########",
        "#.........#",
        "#.###.###.#",
        "#.#.....#.#",
        "#.#.#.#.#.#",
        "#...#.#...#",
        "#####.#####",
        "#.........#",
        "###########",
    ];
    for strategy in [Strategy::Sparse, Strategy::Dense] {
        let graph = extract(&maze(&rows), strategy).unwrap();
        let start = (1u16, 1u16);
        let end = (9u16, 7u16);
        let (closed_a, parents_a) = search(&graph, start, end);
        let (closed_b, parents_b) = search(&graph, start, end);
        assert_eq!(closed_a.len(), closed_b.len());
        assert_eq!(parents_a.len(), parents_b.len());
        for y in 0..9u16 {
            for x in 0..11u16 {
                assert_eq!(closed_a.contains((x, y)), closed_b.contains((x, y)));
                assert_eq!(parents_a.get((x, y)), parents_b.get((x, y)));
                assert_eq!(parents_a.contains_key((x, y)), parents_b.contains_key((x, y)));
            }
        }
        assert_eq!(
            reconstruct(&parents_a, start, end),
            reconstruct(&parents_b, start, end)
        );
    }
}

#[test]
fn found_route_is_a_walk_from_start_to_end() {
    let rows = [
        "###########",
        "#.........#",
        "#.###.###.#",
        "#.#.....#.#",
        "#.#.#.#.#.#",
        "#...#.#...#",
        "#####.#####",
        "#.........#",
        "###########",
    ];
    for strategy in [Strategy::Sparse, Strategy::Dense] {
        let graph = extract(&maze(&rows), strategy).unwrap();
        let start = (1u16, 1u16);
        let end = (9u16, 7u16);
        let (closed, parents) = search(&graph, start, end);
        assert!(closed.contains(end));
        let path = reconstruct(&parents, start, end).unwrap();
        assert_eq!(path[0], start);
        assert_eq!(*path.last().unwrap(), end);
        assert!(is_walk(&graph, &path));
        for p in &path {
            assert!(closed.contains(*p));
        }
        assert!(path_length(&path) >= manhattan(start, end) as u64);
    }
}

#[test]
fn every_parent_is_closed_and_joined_to_its_child() {
    let rows = ["#######", "#.....#", "#.#.#.#", "#.....#", "#######"];
    let graph = extract_dense(&maze(&rows)).unwrap();
    let (closed, parents) = search(&graph, (1, 1), (5, 3));
    assert_eq!(parents.get((1, 1)), None);
    for y in 0..5u16 {
        for x in 0..7u16 {
            if let Some(parent) = parents.get((x, y)) {
                assert!(closed.contains(*parent));
                let node = graph.get(*parent).unwrap();
                assert!(node.get_neighbor_positions(parent.0, parent.1).contains(&(x, y)));
            }
            if closed.contains((x, y)) && (x, y) != (1, 1) {
                assert!(parents.contains_key((x, y)));
            }
        }
    }
}

#[test]
fn cost_of_a_corridor_edge_is_its_length() {
    let graph = extract_sparse(&maze(&["#########", "#.......#", "#########"])).unwrap();
    let (closed, parents) = search(&graph, (1, 1), (7, 1));
    assert!(closed.contains((7, 1)));
    let path = reconstruct(&parents, (1, 1), (7, 1)).unwrap();
    assert_eq!(path, vec![(1, 1), (7, 1)]);
    assert_eq!(path_length(&path), 6);
}
