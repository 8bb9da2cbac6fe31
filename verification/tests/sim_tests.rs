use colony_core::grid::GameCursor;
use colony_core::kind::{Cargo, MapNode};
use colony_core::lifecycle::{ActionState, HighlightState};
use colony_core::map::MapLayer;
use colony_core::sim::{listen_inputs, GameState, PlayerState, Simulation};

#[test]
fn end_to_end_build_and_destroy() {
    let mut sim = Simulation::new();
    sim.add_primary_block(0, 0);
    // One tick establishes capacities; then credit the room's cost.
    sim.step(0, 0, None);
    sim.map.harvest(Cargo::Silicon, 10000);
    assert_eq!(sim.map.cargo_count(Cargo::Silicon), (10000, 10000));

    assert!(sim.confirm_construct(MapNode::EmptyRoom, 1, 0, 0));
    assert_eq!(sim.map.cargo_count(Cargo::Silicon).0, 0);
    assert!(sim.map.is_node(1, 0, MapLayer::Main));
    let st = sim.node_state(1, 0).unwrap();
    assert_eq!(st.action, ActionState::Construct(0));

    // Not yet finished just before the three-second mark.
    sim.step(2999, 100, None);
    let st = sim.node_state(1, 0).unwrap();
    assert_eq!(st.action, ActionState::Construct(0));

    // Finished at it.
    sim.step(3000, 1, None);
    let st = sim.node_state(1, 0).unwrap();
    assert_eq!(st.action, ActionState::Idle);

    // Confirm destruction: the row turns to destruction at once (staggered
    // by up to half a second), while the cell stays on Main until the
    // destruction completes.
    sim.destruct_confirm(1, 0, 3000);
    assert!(sim.map.is_node(1, 0, MapLayer::Main));
    match sim.node_state(1, 0).unwrap().action {
        ActionState::Destruct(t0) => {
            assert!(3000 <= t0 && t0 <= 3500);
        },
        other => panic!("expected destruction, got {:?}", other),
    }

    // Mid-destruction the structure is still on the committed layer.
    sim.step(5000, 1, None);
    assert!(sim.map.is_node(1, 0, MapLayer::Main));
    assert!(matches!(
        sim.node_state(1, 0).unwrap().action,
        ActionState::Destruct(_)
    ));

    // Removal from Main happens together with the row, once the timer
    // (plus any stagger) has run: three more seconds after the confirm.
    sim.step(6500, 1, None);
    assert!(sim.node_state(1, 0).is_none());
    assert!(!sim.map.is_node(1, 0, MapLayer::Main));
    assert!(sim.map.is_node(0, 0, MapLayer::Main));
}

#[test]
fn orphans_cascade_into_destruction() {
    let mut sim = Simulation::new();
    sim.add_primary_block(0, 0);
    sim.step(0, 0, None);
    sim.map.harvest(Cargo::Silicon, 10000);
    assert!(sim.confirm_construct(MapNode::EmptyRoom, 1, 0, 0));
    sim.step(3000, 1, None);
    sim.map.harvest(Cargo::Silicon, 10000);
    assert!(sim.confirm_construct(MapNode::EmptyRoom, 2, 0, 3000));
    sim.step(6000, 1, None);
    assert_eq!(sim.node_state(2, 0).unwrap().action, ActionState::Idle);

    // Confirming destruction of the link only marks it: while it still
    // stands on Main, the tail stays connected and idle.
    sim.destruct_confirm(1, 0, 6000);
    sim.step(6100, 1, None);
    assert!(sim.map.is_node(1, 0, MapLayer::Main));
    assert!(matches!(
        sim.node_state(1, 0).unwrap().action,
        ActionState::Destruct(_)
    ));
    assert_eq!(sim.node_state(2, 0).unwrap().action, ActionState::Idle);

    // First wave: the link's destruction (started by 6500) completes and
    // its cell leaves Main. The tail was still connected when this pass
    // began, so it survives the pass untouched.
    sim.step(9600, 1, None);
    assert!(sim.node_state(1, 0).is_none());
    assert!(!sim.map.is_node(1, 0, MapLayer::Main));
    assert_eq!(sim.node_state(2, 0).unwrap().action, ActionState::Idle);
    assert!(sim.map.is_node(2, 0, MapLayer::Main));

    // Next tick finds the orphan and queues it, three seconds behind.
    sim.step(9700, 1, None);
    match sim.node_state(2, 0).unwrap().action {
        ActionState::Destruct(t0) => {
            assert!(9700 <= t0 && t0 <= 10200);
        },
        other => panic!("expected destruction, got {:?}", other),
    }
    assert!(sim.map.is_node(2, 0, MapLayer::Main));

    // Second wave: the orphan completes and leaves Main; the anchor stays.
    sim.step(13300, 1, None);
    assert!(sim.node_state(2, 0).is_none());
    assert!(!sim.map.is_node(2, 0, MapLayer::Main));
    assert!(sim.map.is_node(0, 0, MapLayer::Main));
}

#[test]
fn construction_is_refused_without_support() {
    let mut sim = Simulation::new();
    sim.add_primary_block(0, 0);
    sim.step(0, 0, None);
    sim.map.harvest(Cargo::Silicon, 10000);
    assert!(!sim.confirm_construct(MapNode::EmptyRoom, 5, 5, 0));
    assert_eq!(sim.map.cargo_count(Cargo::Silicon).0, 10000);
    assert!(!sim.map.is_node(5, 5, MapLayer::Main));
    assert!(sim.node_state(5, 5).is_none());
}

#[test]
fn recipe_debit_is_clamped_at_zero() {
    let mut sim = Simulation::new();
    sim.add_primary_block(0, 0);
    sim.step(0, 0, None);
    // Committing with less cargo than the recipe asks leaves zero, never a
    // negative amount.
    sim.map.harvest(Cargo::Silicon, 4000);
    assert!(sim.confirm_construct(MapNode::EmptyRoom, 1, 0, 0));
    assert_eq!(sim.map.cargo_count(Cargo::Silicon).0, 0);
}

#[test]
fn preview_highlight_tracks_availability() {
    let mut sim = Simulation::new();
    sim.add_primary_block(0, 0);
    assert_eq!(sim.preview_highlight(1, 0, MapNode::EmptyRoom), HighlightState::Green);
    assert_eq!(sim.preview_highlight(5, 5, MapNode::EmptyRoom), HighlightState::Red);
    assert_eq!(sim.preview_highlight(0, 0, MapNode::Furnace), HighlightState::Red);
}

#[test]
fn destruct_preview_marks_the_doomed_set() {
    let mut sim = Simulation::new();
    sim.add_primary_block(0, 0);
    sim.step(0, 0, None);
    sim.map.harvest(Cargo::Silicon, 10000);
    assert!(sim.confirm_construct(MapNode::EmptyRoom, 1, 0, 0));
    sim.step(3000, 1, None);
    sim.map.harvest(Cargo::Silicon, 10000);
    assert!(sim.confirm_construct(MapNode::EmptyRoom, 2, 0, 3000));
    sim.step(6000, 1, None);

    let cursor = GameCursor { x: 1, y: 0, just_pressed: false };
    // The pass carves the cursor cell out of the preview layer and paints
    // from its connectivity: the anchor keeps its place, the selected room
    // is red, the room its removal would orphan orange.
    sim.destruct_preview(Some(cursor));
    assert!(!sim.map.is_node(1, 0, MapLayer::Build));
    assert!(sim.map.is_node(2, 0, MapLayer::Build));
    assert_eq!(sim.node_state(0, 0).unwrap().highlight, HighlightState::Off);
    assert_eq!(sim.node_state(1, 0).unwrap().highlight, HighlightState::Red);
    assert_eq!(sim.node_state(2, 0).unwrap().highlight, HighlightState::Orange);
    // The committed layer is untouched by previews.
    assert!(sim.map.is_node(1, 0, MapLayer::Main));
    assert!(sim.map.is_node(2, 0, MapLayer::Main));
}

#[test]
fn input_pass_decides_modes() {
    let mut sim = Simulation::new();
    sim.add_primary_block(0, 0);
    let m = &sim.map;
    // Escape toggles pause.
    let (g, _) = listen_inputs(GameState::Idle, PlayerState::Idle, true, false, false, None, m);
    assert_eq!(g, GameState::Pause);
    let (g, _) = listen_inputs(GameState::Pause, PlayerState::Idle, true, false, false, None, m);
    assert_eq!(g, GameState::Idle);
    // The destruct key toggles destruct mode.
    let (_, p) = listen_inputs(GameState::Idle, PlayerState::Idle, false, true, false, None, m);
    assert_eq!(p, PlayerState::Destruct);
    let (_, p) = listen_inputs(GameState::Idle, PlayerState::Destruct, false, true, false, None, m);
    assert_eq!(p, PlayerState::Idle);
    // A right click falls back to idle.
    let (_, p) = listen_inputs(
        GameState::Idle,
        PlayerState::Construct(MapNode::Furnace),
        false,
        false,
        true,
        None,
        m,
    );
    assert_eq!(p, PlayerState::Idle);
    // Clicking an occupied cell while idle starts an interaction.
    let cursor = GameCursor { x: 0, y: 0, just_pressed: true };
    let (_, p) = listen_inputs(GameState::Idle, PlayerState::Idle, false, false, false, Some(cursor), m);
    assert_eq!(p, PlayerState::Interact(0, 0));
    // Clicking empty ground does not.
    let cursor = GameCursor { x: 7, y: 7, just_pressed: true };
    let (_, p) = listen_inputs(GameState::Idle, PlayerState::Idle, false, false, false, Some(cursor), m);
    assert_eq!(p, PlayerState::Idle);
}

#[test]
fn selection_highlight_follows_the_cursor() {
    let mut sim = Simulation::new();
    sim.add_primary_block(0, 0);
    sim.step(0, 0, Some((0, 0)));
    assert_eq!(sim.node_state(0, 0).unwrap().highlight, HighlightState::White);
    sim.step(0, 0, Some((9, 9)));
    assert_eq!(sim.node_state(0, 0).unwrap().highlight, HighlightState::Off);
}

#[test]
fn destruct_jitter_stays_under_half_a_second() {
    for _ in 0..200 {
        assert!(colony_core::sim::destruct_jitter_ms() <= 500);
    }
}
