use colony_core::kind::{Cargo, MapNode};
use colony_core::map::MapState;

#[test]
fn tick_rebuilds_energy_and_capacity_from_the_population() {
    let mut m = MapState::new();
    m.add_primary_block(0, 0);
    m.tick(0);
    let (_, silicon_cap) = m.cargo_count(Cargo::Silicon);
    let (_, uranium_cap) = m.cargo_count(Cargo::Uranium);
    let (_, water_cap) = m.cargo_count(Cargo::Water);
    assert_eq!(silicon_cap, 10000);
    assert_eq!(uranium_cap, 1000);
    assert_eq!(water_cap, 0);
    assert_eq!(m.energy_ratio(), 1000);
    m.add_room(1, 0, MapNode::Cargo);
    m.tick(0);
    let (_, silicon_cap) = m.cargo_count(Cargo::Silicon);
    let (_, water_cap) = m.cargo_count(Cargo::Water);
    let (_, aurelium_cap) = m.cargo_count(Cargo::Aurelium);
    assert_eq!(silicon_cap, 20000);
    assert_eq!(water_cap, 10000);
    assert_eq!(aurelium_cap, 1000);
    // anchor makes 50 available, the cargo bay uses 5: 900 permille left.
    assert_eq!(m.energy_ratio(), 900);
}

#[test]
fn energy_ratio_is_zero_without_generation() {
    let mut m = MapState::new();
    m.tick(0);
    assert_eq!(m.energy_ratio(), 0);
    m.add_room(0, 0, MapNode::Enrichment);
    m.tick(0);
    // 0 available, 205 in use: still zero, not a division fault.
    assert_eq!(m.energy_ratio(), 0);
}

#[test]
fn harvest_clamps_between_zero_and_capacity() {
    let mut m = MapState::new();
    m.add_primary_block(0, 0);
    m.tick(0);
    m.harvest(Cargo::Silicon, 5000);
    assert_eq!(m.cargo_count(Cargo::Silicon).0, 5000);
    m.harvest(Cargo::Silicon, 999999999);
    assert_eq!(m.cargo_count(Cargo::Silicon).0, 10000);
    m.harvest(Cargo::Silicon, -999999999);
    assert_eq!(m.cargo_count(Cargo::Silicon).0, 0);
    m.harvest(Cargo::Silicon, 0);
    assert_eq!(m.cargo_count(Cargo::Silicon).0, 0);
}

#[test]
fn shrinking_capacity_truncates_stored_cargo() {
    let mut m = MapState::new();
    m.add_primary_block(0, 0);
    m.add_room(1, 0, MapNode::Cargo);
    m.tick(0);
    m.harvest(Cargo::Silicon, 15000);
    assert_eq!(m.cargo_count(Cargo::Silicon), (15000, 20000));
    m.remove_room(1, 0, colony_core::map::MapLayer::Main);
    m.tick(0);
    assert_eq!(m.cargo_count(Cargo::Silicon), (10000, 10000));
    // Re-running the clamp on an unchanged population moves nothing.
    m.tick(0);
    assert_eq!(m.cargo_count(Cargo::Silicon), (10000, 10000));
}

#[test]
fn furnace_converts_ice_to_water_exactly() {
    let mut m = MapState::new();
    m.add_primary_block(0, 0);
    m.add_room(1, 0, MapNode::Furnace);
    m.add_room(2, 0, MapNode::Cargo);
    m.tick(0);
    m.harvest(Cargo::Ice, 300);
    m.tick(1000);
    // 0.3 ice on hand, rate 0.4/s over one second: exactly 0.3 moves.
    assert_eq!(m.cargo_count(Cargo::Ice).0, 0);
    assert_eq!(m.cargo_count(Cargo::Water).0, 300);
}

#[test]
fn conversion_is_bounded_by_rate_times_delta() {
    let mut m = MapState::new();
    m.add_primary_block(0, 0);
    m.add_room(1, 0, MapNode::Furnace);
    m.add_room(2, 0, MapNode::Cargo);
    m.tick(0);
    m.harvest(Cargo::Ice, 5000);
    m.tick(1000);
    // rate 0.4/s for one second converts 0.4 of the 5.0 stored.
    assert_eq!(m.cargo_count(Cargo::Ice).0, 4600);
    assert_eq!(m.cargo_count(Cargo::Water).0, 400);
}

#[test]
fn conversion_scales_down_at_full_output_capacity() {
    let mut m = MapState::new();
    m.add_primary_block(0, 0);
    m.add_room(1, 0, MapNode::Furnace);
    m.add_room(2, 0, MapNode::Cargo);
    m.tick(0);
    m.harvest(Cargo::Water, 9900);
    m.harvest(Cargo::Ice, 300);
    m.tick(1000);
    // Only 0.1 of water capacity is left, so only 0.1 ice is consumed:
    // conservation holds exactly.
    assert_eq!(m.cargo_count(Cargo::Water).0, 10000);
    assert_eq!(m.cargo_count(Cargo::Ice).0, 200);
}

#[test]
fn furnace_halves_copper_into_plates() {
    let mut m = MapState::new();
    m.add_primary_block(0, 0);
    m.add_room(1, 0, MapNode::Furnace);
    m.tick(0);
    m.harvest(Cargo::Copper, 10000);
    m.tick(1000);
    // rate 0.2/s, ratio one plate per two copper: 0.2 copper -> 0.1 plates.
    assert_eq!(m.cargo_count(Cargo::Copper).0, 9800);
    assert_eq!(m.cargo_count(Cargo::CopperPlates).0, 100);
}

#[test]
fn crusher_turns_stone_into_silicon() {
    let mut m = MapState::new();
    m.add_primary_block(0, 0);
    m.add_room(1, 0, MapNode::Crusher);
    m.add_room(2, 0, MapNode::Cargo);
    m.tick(0);
    m.harvest(Cargo::Stone, 2000);
    m.tick(1000);
    assert_eq!(m.cargo_count(Cargo::Stone).0, 1500);
    assert_eq!(m.cargo_count(Cargo::Silicon).0, 500);
}

#[test]
fn enrichment_consumes_both_inputs_at_the_ratio() {
    let mut m = MapState::new();
    m.add_primary_block(0, 0);
    m.add_room(1, 0, MapNode::Enrichment);
    m.add_room(2, 0, MapNode::Cargo);
    m.add_room(3, 0, MapNode::Generator);
    m.add_room(4, 0, MapNode::Generator);
    m.tick(0);
    m.harvest(Cargo::UraniumRods, 600);
    m.harvest(Cargo::Aurelium, 400);
    m.tick(5000);
    // Budget 0.5 is cut to the scarcer input 0.4; one battery per five
    // units of each input: 0.08 batteries, 0.4 of each input consumed.
    assert_eq!(m.cargo_count(Cargo::UraniumRods).0, 200);
    assert_eq!(m.cargo_count(Cargo::Aurelium).0, 0);
    assert_eq!(m.cargo_count(Cargo::Batteries).0, 80);
}

#[test]
fn brownout_stops_conversions() {
    let mut m = MapState::new();
    m.add_primary_block(0, 0);
    m.add_room(1, 0, MapNode::Enrichment);
    m.add_room(2, 0, MapNode::Cargo);
    m.tick(0);
    m.harvest(Cargo::UraniumRods, 600);
    m.harvest(Cargo::Aurelium, 400);
    // 50 available, 210 in use: browned out, nothing converts.
    m.tick(5000);
    assert_eq!(m.cargo_count(Cargo::UraniumRods).0, 600);
    assert_eq!(m.cargo_count(Cargo::Aurelium).0, 400);
    assert_eq!(m.cargo_count(Cargo::Batteries).0, 0);
    assert_eq!(m.energy_ratio(), 0);
}

#[test]
fn two_furnaces_convert_additively() {
    let mut m = MapState::new();
    m.add_primary_block(0, 0);
    m.add_room(1, 0, MapNode::Furnace);
    m.add_room(2, 0, MapNode::Furnace);
    m.add_room(3, 0, MapNode::Cargo);
    m.add_room(4, 0, MapNode::Generator);
    m.tick(0);
    m.harvest(Cargo::Ice, 5000);
    m.tick(1000);
    assert_eq!(m.cargo_count(Cargo::Ice).0, 4200);
    assert_eq!(m.cargo_count(Cargo::Water).0, 800);
}
