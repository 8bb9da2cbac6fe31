use colony_core::grid::{CursorLayer, GameCursor};

#[test]
fn stride_values() {
    assert_eq!(CursorLayer::Room.size(), 201);
    assert_eq!(CursorLayer::Hook.size(), 100);
}

#[test]
fn world_of_cell_centers() {
    assert_eq!(GameCursor::game_to_world(0, 0, CursorLayer::Room), (0, 0));
    assert_eq!(GameCursor::game_to_world(1, 0, CursorLayer::Room), (201, 0));
    assert_eq!(GameCursor::game_to_world(-3, 2, CursorLayer::Room), (-603, 402));
    assert_eq!(GameCursor::game_to_world(7, -7, CursorLayer::Hook), (700, -700));
}

#[test]
fn grid_round_trip_room_layer() {
    let cells = [0i32, 1, -1, 5, -5, 123, -123, 100000, -100000];
    for &cx in cells.iter() {
        for &cy in cells.iter() {
            let (wx, wy) = GameCursor::game_to_world(cx, cy, CursorLayer::Room);
            assert_eq!(GameCursor::world_to_game(wx, wy, CursorLayer::Room), (cx, cy));
        }
    }
}

#[test]
fn grid_round_trip_hook_layer() {
    for c in [-1000i32, -17, -1, 0, 1, 17, 1000] {
        let (wx, wy) = GameCursor::game_to_world(c, -c, CursorLayer::Hook);
        assert_eq!(GameCursor::world_to_game(wx, wy, CursorLayer::Hook), (c, -c));
    }
}

#[test]
fn nearest_cell_resolution() {
    // Fine grid: stride 100, half-stride 50. Ties resolve upward.
    assert_eq!(GameCursor::world_to_game(49, 0, CursorLayer::Hook), (0, 0));
    assert_eq!(GameCursor::world_to_game(50, 0, CursorLayer::Hook), (1, 0));
    assert_eq!(GameCursor::world_to_game(-50, 0, CursorLayer::Hook), (0, 0));
    assert_eq!(GameCursor::world_to_game(-51, 0, CursorLayer::Hook), (-1, 0));
    // Room grid: stride 201; positions just around a center stay with it.
    assert_eq!(GameCursor::world_to_game(301, 0, CursorLayer::Room), (1, 0));
    assert_eq!(GameCursor::world_to_game(302, 0, CursorLayer::Room), (2, 0));
}

#[test]
fn round_trip_holds_on_a_dense_range() {
    for c in -300i32..300 {
        let (wx, _) = GameCursor::game_to_world(c, 0, CursorLayer::Room);
        assert_eq!(GameCursor::world_to_game(wx, 0, CursorLayer::Room).0, c);
    }
}
