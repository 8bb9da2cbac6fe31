use colony_core::kind::MapNode;
use colony_core::map::{MapLayer, MapState};

#[test]
fn empty_store_has_inverted_bounds() {
    let m = MapState::new();
    assert_eq!(m.get_bounds(), ((i32::MAX, i32::MAX), (i32::MIN, i32::MIN)));
    assert!(!m.is_node(0, 0, MapLayer::Main));
    assert_eq!(m.node(0, 0, MapLayer::Main), None);
    assert!(m.primary_blocks().is_empty());
}

#[test]
fn bounds_track_both_layers() {
    let mut m = MapState::new();
    m.add_primary_block(2, 3);
    m.add_room(-1, 5, MapNode::EmptyRoom);
    assert_eq!(m.get_bounds(), ((-1, 3), (2, 5)));
    m.sync_build();
    assert_eq!(m.get_bounds(), ((-1, 3), (2, 5)));
}

#[test]
fn empty_room_needs_empty_cell_with_neighbor() {
    let mut m = MapState::new();
    assert!(!m.is_available(0, 0, MapNode::EmptyRoom));
    m.add_primary_block(0, 0);
    assert!(m.is_available(1, 0, MapNode::EmptyRoom));
    assert!(m.is_available(-1, 0, MapNode::EmptyRoom));
    assert!(m.is_available(0, 1, MapNode::EmptyRoom));
    assert!(m.is_available(0, -1, MapNode::EmptyRoom));
    assert!(!m.is_available(0, 0, MapNode::EmptyRoom));
    assert!(!m.is_available(5, 5, MapNode::EmptyRoom));
    assert!(!m.is_available(2, 0, MapNode::EmptyRoom));
}

#[test]
fn other_kinds_fill_prepared_rooms() {
    let mut m = MapState::new();
    m.add_primary_block(0, 0);
    m.add_room(1, 0, MapNode::EmptyRoom);
    assert!(m.is_available(1, 0, MapNode::Furnace));
    assert!(!m.is_available(0, 0, MapNode::Furnace));
    assert!(!m.is_available(2, 0, MapNode::Furnace));
    m.add_room(1, 0, MapNode::Furnace);
    assert_eq!(m.node(1, 0, MapLayer::Main), Some(MapNode::Furnace));
    assert!(!m.is_available(1, 0, MapNode::Generator));
}

#[test]
fn lookups_distinguish_anchors_from_rooms() {
    let mut m = MapState::new();
    m.add_primary_block(0, 0);
    m.add_room(1, 0, MapNode::EmptyRoom);
    assert!(m.is_node(0, 0, MapLayer::Main));
    assert!(!m.is_room(0, 0, MapLayer::Main));
    assert!(m.is_room(1, 0, MapLayer::Main));
    assert_eq!(m.node(0, 0, MapLayer::Main), Some(MapNode::PrimaryBlock));
    assert!(!m.is_node(0, 0, MapLayer::Build));
}

#[test]
fn remove_room_spares_anchors_and_empty_cells() {
    let mut m = MapState::new();
    m.add_primary_block(0, 0);
    m.add_room(1, 0, MapNode::EmptyRoom);
    m.remove_room(0, 0, MapLayer::Main);
    assert!(m.is_node(0, 0, MapLayer::Main));
    m.remove_room(9, 9, MapLayer::Main);
    m.remove_room(1, 0, MapLayer::Main);
    assert!(!m.is_node(1, 0, MapLayer::Main));
}

#[test]
fn sync_build_copies_main() {
    let mut m = MapState::new();
    m.add_primary_block(0, 0);
    m.add_room(1, 0, MapNode::Cargo);
    m.sync_build();
    assert_eq!(m.node(0, 0, MapLayer::Build), Some(MapNode::PrimaryBlock));
    assert_eq!(m.node(1, 0, MapLayer::Build), Some(MapNode::Cargo));
    m.remove_room(1, 0, MapLayer::Build);
    assert!(!m.is_node(1, 0, MapLayer::Build));
    assert!(m.is_node(1, 0, MapLayer::Main));
    m.sync_build();
    assert!(m.is_node(1, 0, MapLayer::Build));
}

#[test]
fn primary_blocks_lists_all_anchors() {
    let mut m = MapState::new();
    m.add_primary_block(0, 0);
    m.add_primary_block(4, -2);
    m.add_room(1, 0, MapNode::EmptyRoom);
    let mut blocks = m.primary_blocks();
    blocks.sort();
    assert_eq!(blocks, vec![(0, 0), (4, -2)]);
}

#[test]
fn placement_overwrites_in_place() {
    let mut m = MapState::new();
    m.add_primary_block(0, 0);
    m.add_room(1, 0, MapNode::EmptyRoom);
    m.add_room(1, 0, MapNode::Generator);
    assert_eq!(m.node(1, 0, MapLayer::Main), Some(MapNode::Generator));
    assert_eq!(m.primary_blocks().len(), 1);
}
