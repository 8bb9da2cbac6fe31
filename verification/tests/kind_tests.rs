use colony_core::kind::{Cargo, MapNode, CARGO_KINDS};

#[test]
fn cargo_names() {
    assert_eq!(Cargo::Stone.name(), "Stone");
    assert_eq!(Cargo::CopperPlates.name(), "Copper plates");
    assert_eq!(Cargo::UraniumRods.name(), "Uranium rods");
    assert_eq!(Cargo::Batteries.name(), "Batteries");
}

#[test]
fn node_metadata() {
    assert_eq!(MapNode::PrimaryBlock.name(), "Main block");
    assert_eq!(MapNode::Enrichment.name(), "Enrichment station");
    assert_eq!(MapNode::Furnace.desc(), "Melts ores and ice");
    assert_eq!(MapNode::Cargo.thumbnail(), "cargo.png");
}

#[test]
fn cargo_index_round_trip() {
    let all = Cargo::all();
    assert_eq!(all.len(), CARGO_KINDS);
    for (i, c) in all.iter().enumerate() {
        assert_eq!(c.index(), i);
        assert_eq!(Cargo::of_index(i).index(), i);
    }
}

#[test]
fn recipes_match_the_table() {
    assert_eq!(MapNode::PrimaryBlock.recipe(), vec![]);
    assert_eq!(MapNode::EmptyRoom.recipe(), vec![(Cargo::Silicon, 10000)]);
    assert_eq!(
        MapNode::Furnace.recipe(),
        vec![(Cargo::Silicon, 10000), (Cargo::Ice, 5000)]
    );
    assert_eq!(
        MapNode::Enrichment.recipe(),
        vec![(Cargo::Silicon, 100000), (Cargo::UraniumRods, 30000)]
    );
}

#[test]
fn energy_table() {
    assert_eq!(MapNode::PrimaryBlock.energy_gen(), 50);
    assert_eq!(MapNode::PrimaryBlock.energy_use(), 0);
    assert_eq!(MapNode::Generator.energy_gen(), 100);
    assert_eq!(MapNode::Generator.energy_use(), 5);
    assert_eq!(MapNode::Furnace.energy_use(), 25);
    assert_eq!(MapNode::Crusher.energy_use(), 15);
    assert_eq!(MapNode::Hook.energy_use(), 55);
    assert_eq!(MapNode::Enrichment.energy_use(), 205);
    assert_eq!(MapNode::EmptyRoom.energy_use(), 5);
}

#[test]
fn capacity_table() {
    assert_eq!(MapNode::PrimaryBlock.capacity_contribution(Cargo::Silicon), 10000);
    assert_eq!(MapNode::PrimaryBlock.capacity_contribution(Cargo::Uranium), 1000);
    assert_eq!(MapNode::PrimaryBlock.capacity_contribution(Cargo::Water), 0);
    assert_eq!(MapNode::Cargo.capacity_contribution(Cargo::Water), 10000);
    assert_eq!(MapNode::Cargo.capacity_contribution(Cargo::Batteries), 1000);
    assert_eq!(MapNode::Cargo.capacity_contribution(Cargo::UraniumRods), 5000);
    assert_eq!(MapNode::Furnace.capacity_contribution(Cargo::Silicon), 0);
}

#[test]
fn conversion_rule_tables() {
    let furnace = MapNode::Furnace.conversion_rules();
    assert_eq!(furnace.len(), 3);
    assert_eq!(furnace[0].input_a, Cargo::Ice);
    assert_eq!(furnace[0].output, Cargo::Water);
    assert_eq!(furnace[0].rate_milli, 400);
    assert_eq!(furnace[0].ratio_den, 1);
    assert_eq!(furnace[2].ratio_den, 5);
    let crusher = MapNode::Crusher.conversion_rules();
    assert_eq!(crusher.len(), 1);
    assert_eq!(crusher[0].input_a, Cargo::Stone);
    assert_eq!(crusher[0].output, Cargo::Silicon);
    let enrich = MapNode::Enrichment.conversion_rules();
    assert_eq!(enrich.len(), 1);
    assert_eq!(enrich[0].input_b, Some(Cargo::Aurelium));
    assert!(MapNode::EmptyRoom.conversion_rules().is_empty());
}
