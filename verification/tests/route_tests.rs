use maze_solver::render::line_between_nodes;
use maze_solver::route::{path_length, reconstruct};
use maze_solver::table::{PositionMap, PositionSet};

fn links(pairs: &[((u16, u16), (u16, u16))]) -> PositionMap<(u16, u16)> {
    let mut map = PositionMap::new();
    for (child, parent) in pairs {
        map.insert(*child, *parent);
    }
    map
}

#[test]
fn reconstruct_follows_parents_back_to_the_start() {
    let parents = links(&[((3, 0), (2, 0)), ((2, 0), (1, 0)), ((1, 0), (0, 0))]);
    assert_eq!(
        reconstruct(&parents, (0, 0), (3, 0)),
        Some(vec![(0, 0), (1, 0), (2, 0), (3, 0)])
    );
    assert_eq!(reconstruct(&parents, (0, 0), (1, 0)), Some(vec![(0, 0), (1, 0)]));
}

#[test]
fn reconstruct_of_a_position_to_itself_is_that_position() {
    let empty: PositionMap<(u16, u16)> = PositionMap::new();
    assert_eq!(reconstruct(&empty, (5, 5), (5, 5)), Some(vec![(5, 5)]));
    let parents = links(&[((5, 5), (4, 5))]);
    assert_eq!(reconstruct(&parents, (5, 5), (5, 5)), Some(vec![(5, 5)]));
}

#[test]
fn reconstruct_is_none_when_end_has_no_parent() {
    let empty: PositionMap<(u16, u16)> = PositionMap::new();
    assert_eq!(reconstruct(&empty, (0, 0), (3, 0)), None);
    let parents = links(&[((1, 0), (0, 0))]);
    assert_eq!(reconstruct(&parents, (0, 0), (3, 0)), None);
}

#[test]
fn reconstruct_is_none_when_chain_rests_elsewhere() {
    let parents = links(&[((3, 0), (2, 0)), ((2, 0), (9, 9))]);
    assert_eq!(reconstruct(&parents, (0, 0), (3, 0)), None);
}

#[test]
fn reconstruct_is_none_when_chain_passes_the_start() {
    let parents = links(&[((3, 0), (0, 0)), ((0, 0), (7, 7))]);
    assert_eq!(reconstruct(&parents, (0, 0), (3, 0)), None);
    assert_eq!(reconstruct(&parents, (7, 7), (3, 0)), Some(vec![(7, 7), (0, 0), (3, 0)]));
}

#[test]
fn reconstruct_is_none_when_parents_go_in_a_circle() {
    let parents = links(&[((3, 0), (2, 0)), ((2, 0), (1, 0)), ((1, 0), (3, 0))]);
    assert_eq!(reconstruct(&parents, (0, 0), (3, 0)), None);
    assert_eq!(reconstruct(&parents, (1, 0), (3, 0)), None);
    let own = links(&[((3, 0), (3, 0))]);
    assert_eq!(reconstruct(&own, (0, 0), (3, 0)), None);
}

#[test]
fn reconstruct_uses_every_link_of_a_long_chain() {
    let mut parents = PositionMap::new();
    for x in 1..500u16 {
        parents.insert((x, 0), (x - 1, 0));
    }
    let path = reconstruct(&parents, (0, 0), (499, 0)).unwrap();
    assert_eq!(path.len(), 500);
    for x in 0..500u16 {
        assert_eq!(path[x as usize], (x, 0));
    }
}

#[test]
fn path_length_adds_the_distances_between_neighbours() {
    assert_eq!(path_length(&vec![]), 0);
    assert_eq!(path_length(&vec![(3, 3)]), 0);
    assert_eq!(path_length(&vec![(0, 0), (0, 5)]), 5);
    assert_eq!(path_length(&vec![(0, 0), (0, 5), (7, 5), (7, 4)]), 13);
    assert_eq!(path_length(&vec![(0, 0), (2, 3), (0, 0)]), 10);
}

#[test]
fn path_length_tells_the_order_of_the_positions() {
    assert_eq!(path_length(&vec![(0, 0), (10, 0), (1, 0)]), 19);
    assert_eq!(path_length(&vec![(0, 0), (1, 0), (10, 0)]), 10);
}

#[test]
fn line_along_a_row_runs_from_the_left() {
    assert_eq!(line_between_nodes((2, 5), (5, 5)), vec![(2, 5), (3, 5), (4, 5), (5, 5)]);
    assert_eq!(line_between_nodes((5, 5), (2, 5)), vec![(2, 5), (3, 5), (4, 5), (5, 5)]);
}

#[test]
fn line_along_a_column_runs_from_the_top() {
    assert_eq!(line_between_nodes((4, 1), (4, 3)), vec![(4, 1), (4, 2), (4, 3)]);
    assert_eq!(line_between_nodes((4, 3), (4, 1)), vec![(4, 1), (4, 2), (4, 3)]);
}

#[test]
fn line_between_unaligned_positions_is_empty() {
    assert_eq!(line_between_nodes((0, 0), (1, 1)), Vec::<(u16, u16)>::new());
    assert_eq!(line_between_nodes((7, 2), (3, 9)), Vec::<(u16, u16)>::new());
}

#[test]
fn line_from_a_position_to_itself_holds_it_for_the_row_and_the_column() {
    assert_eq!(line_between_nodes((3, 4), (3, 4)), vec![(3, 4), (3, 4)]);
}

#[test]
fn line_reaches_the_last_column_and_row() {
    assert_eq!(
        line_between_nodes((65533, 9), (65535, 9)),
        vec![(65533, 9), (65534, 9), (65535, 9)]
    );
    assert_eq!(line_between_nodes((9, 65535), (9, 65534)), vec![(9, 65534), (9, 65535)]);
}

#[test]
fn position_map_stores_and_replaces() {
    let mut map: PositionMap<u64> = PositionMap::new();
    assert_eq!(map.len(), 0);
    assert_eq!(map.get((1, 2)), None);
    assert!(!map.contains_key((1, 2)));
    map.insert((1, 2), 10);
    map.insert((2, 1), 20);
    assert_eq!(map.len(), 2);
    assert_eq!(map.get((1, 2)), Some(&10));
    assert_eq!(map.get((2, 1)), Some(&20));
    map.insert((1, 2), 30);
    assert_eq!(map.len(), 2);
    assert_eq!(map.get((1, 2)), Some(&30));
    assert!(map.contains_key((2, 1)));
    assert!(!map.contains_key((0, 0)));
}

#[test]
fn position_map_tells_columns_from_rows() {
    let mut map: PositionMap<u8> = PositionMap::new();
    map.insert((0, 1), 1);
    map.insert((1, 0), 2);
    map.insert((0, 65535), 3);
    map.insert((65535, 0), 4);
    assert_eq!(map.get((0, 1)), Some(&1));
    assert_eq!(map.get((1, 0)), Some(&2));
    assert_eq!(map.get((0, 65535)), Some(&3));
    assert_eq!(map.get((65535, 0)), Some(&4));
    assert_eq!(map.len(), 4);
}

#[test]
fn position_set_holds_each_member_once() {
    let mut set = PositionSet::new();
    assert_eq!(set.len(), 0);
    assert!(!set.contains((4, 4)));
    set.insert((4, 4));
    set.insert((4, 4));
    set.insert((4, 5));
    assert_eq!(set.len(), 2);
    assert!(set.contains((4, 4)));
    assert!(set.contains((4, 5)));
    assert!(!set.contains((5, 4)));
}
