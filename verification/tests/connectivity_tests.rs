use colony_core::kind::MapNode;
use colony_core::map::{MapLayer, MapState};

fn chain_map() -> MapState {
    let mut m = MapState::new();
    m.add_primary_block(0, 0);
    m.add_room(1, 0, MapNode::EmptyRoom);
    m.add_room(2, 0, MapNode::EmptyRoom);
    m.add_room(3, 0, MapNode::EmptyRoom);
    m
}

#[test]
fn chain_is_connected() {
    let m = chain_map();
    assert!(m.is_room_connected(1, 0, MapLayer::Main, None));
    assert!(m.is_room_connected(2, 0, MapLayer::Main, None));
    assert!(m.is_room_connected(3, 0, MapLayer::Main, None));
    // The anchor itself is not a room.
    assert!(!m.is_room_connected(0, 0, MapLayer::Main, None));
}

#[test]
fn removing_a_link_disconnects_the_tail() {
    let mut m = chain_map();
    m.remove_room(2, 0, MapLayer::Main);
    assert!(m.is_room_connected(1, 0, MapLayer::Main, None));
    assert!(!m.is_room_connected(3, 0, MapLayer::Main, None));
}

#[test]
fn speculative_exclusion_matches_literal_removal() {
    let speculative = chain_map();
    let mut literal = chain_map();
    literal.remove_room(2, 0, MapLayer::Main);
    for cell in [(1, 0), (3, 0)] {
        assert_eq!(
            speculative.is_room_connected(cell.0, cell.1, MapLayer::Main, Some((2, 0))),
            literal.is_room_connected(cell.0, cell.1, MapLayer::Main, None),
        );
    }
    assert!(speculative.is_room_connected(1, 0, MapLayer::Main, Some((2, 0))));
    assert!(!speculative.is_room_connected(3, 0, MapLayer::Main, Some((2, 0))));
}

#[test]
fn anchors_are_never_excludable() {
    let m = chain_map();
    assert!(m.is_room_connected(1, 0, MapLayer::Main, Some((0, 0))));
    assert!(m.is_room_connected(3, 0, MapLayer::Main, Some((0, 0))));
}

#[test]
fn connected_cells_counts_the_component() {
    let mut m = chain_map();
    m.add_room(10, 10, MapNode::EmptyRoom);
    let cells = m.connected_cells(MapLayer::Main, None);
    assert_eq!(cells.len(), 4);
    assert!(!cells.contains(&(10, 10)));
    let without_link = m.connected_cells(MapLayer::Main, Some((2, 0)));
    assert_eq!(without_link.len(), 2);
    assert!(without_link.contains(&(0, 0)));
    assert!(without_link.contains(&(1, 0)));
}

#[test]
fn island_is_never_connected() {
    // A structure with no path to any anchor is disconnected even with
    // zero removals.
    let mut m = chain_map();
    m.add_room(10, 10, MapNode::Cargo);
    assert!(!m.is_room_connected(10, 10, MapLayer::Main, None));
    assert!(m.is_room_connected(3, 0, MapLayer::Main, None));
}

#[test]
fn cut_disconnects_the_whole_tail() {
    let mut m = chain_map();
    m.remove_room(1, 0, MapLayer::Main);
    assert!(!m.is_room_connected(2, 0, MapLayer::Main, None));
    assert!(!m.is_room_connected(3, 0, MapLayer::Main, None));
    let cells = m.connected_cells(MapLayer::Main, None);
    assert_eq!(cells, vec![(0, 0)]);
}

#[test]
fn no_anchor_means_nothing_connected() {
    let mut m = MapState::new();
    m.add_room(0, 0, MapNode::EmptyRoom);
    m.add_room(1, 0, MapNode::EmptyRoom);
    assert!(!m.is_room_connected(0, 0, MapLayer::Main, None));
    assert!(!m.is_room_connected(1, 0, MapLayer::Main, None));
    assert!(m.connected_cells(MapLayer::Main, None).is_empty());
}

#[test]
fn connectivity_spans_branches() {
    let mut m = MapState::new();
    m.add_primary_block(0, 0);
    m.add_room(0, 1, MapNode::EmptyRoom);
    m.add_room(0, 2, MapNode::Furnace);
    m.add_room(1, 2, MapNode::Generator);
    m.add_room(-1, 0, MapNode::Cargo);
    assert!(m.is_room_connected(1, 2, MapLayer::Main, None));
    assert!(m.is_room_connected(-1, 0, MapLayer::Main, None));
    assert!(!m.is_room_connected(1, 2, MapLayer::Main, Some((0, 1))));
    assert!(m.is_room_connected(-1, 0, MapLayer::Main, Some((0, 1))));
}
