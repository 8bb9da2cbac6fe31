//! The closed enumerations of structure kinds and cargo (resource) kinds,
//! with their fixed tables: energy contribution, storage-capacity
//! contribution, construction recipe, conversion rules and display metadata.
//!
//! Cargo amounts are fixed-point thousandths of one unit; energy is in whole
//! units; conversion rates are thousandths of a unit per second.

use vstd::prelude::*;

verus! {

/// A kind of placeable structure. `PrimaryBlock` is the network anchor.
#[derive(Clone, Copy, Debug, Hash, PartialEq, Eq, Structural)]
pub enum MapNode {
    PrimaryBlock,
    EmptyRoom,
    Furnace,
    Generator,
    Crusher,
    Cargo,
    Hook,
    Enrichment,
}

/// A kind of tradeable cargo. The first six are raw, the rest refined.
#[derive(Clone, Copy, Debug, Hash, PartialEq, Eq, Structural)]
pub enum Cargo {
    Stone,
    Silicon,
    Ice,
    Copper,
    Uranium,
    Aurelium,
    Water,
    CopperPlates,
    UraniumRods,
    Batteries,
}

/// Number of cargo kinds; ledgers hold one slot per kind.
pub const CARGO_KINDS: usize = 10;

/// Stable position of a cargo kind in a ledger.
pub open spec fn spec_cargo_index(c: Cargo) -> int {
    match c {
        Cargo::Stone => 0,
        Cargo::Silicon => 1,
        Cargo::Ice => 2,
        Cargo::Copper => 3,
        Cargo::Uranium => 4,
        Cargo::Aurelium => 5,
        Cargo::Water => 6,
        Cargo::CopperPlates => 7,
        Cargo::UraniumRods => 8,
        Cargo::Batteries => 9,
    }
}

/// Cargo kind sitting at a ledger position.
pub open spec fn spec_cargo_of_index(i: int) -> Cargo {
    if i == 0 {
        Cargo::Stone
    } else if i == 1 {
        Cargo::Silicon
    } else if i == 2 {
        Cargo::Ice
    } else if i == 3 {
        Cargo::Copper
    } else if i == 4 {
        Cargo::Uranium
    } else if i == 5 {
        Cargo::Aurelium
    } else if i == 6 {
        Cargo::Water
    } else if i == 7 {
        Cargo::CopperPlates
    } else if i == 8 {
        Cargo::UraniumRods
    } else {
        Cargo::Batteries
    }
}

impl Cargo {
    /// Stable position of this cargo kind in a ledger.
    pub fn index(&self) -> (i: usize)
        ensures
            i == spec_cargo_index(*self),
            i < CARGO_KINDS,
    {
        match self {
            Cargo::Stone => 0,
            Cargo::Silicon => 1,
            Cargo::Ice => 2,
            Cargo::Copper => 3,
            Cargo::Uranium => 4,
            Cargo::Aurelium => 5,
            Cargo::Water => 6,
            Cargo::CopperPlates => 7,
            Cargo::UraniumRods => 8,
            Cargo::Batteries => 9,
        }
    }

    /// Cargo kind at ledger position `i`.
    pub fn of_index(i: usize) -> (c: Cargo)
        requires
            i < CARGO_KINDS,
        ensures
            c == spec_cargo_of_index(i as int),
            spec_cargo_index(c) == i,
    {
        if i == 0 {
            Cargo::Stone
        } else if i == 1 {
            Cargo::Silicon
        } else if i == 2 {
            Cargo::Ice
        } else if i == 3 {
            Cargo::Copper
        } else if i == 4 {
            Cargo::Uranium
        } else if i == 5 {
            Cargo::Aurelium
        } else if i == 6 {
            Cargo::Water
        } else if i == 7 {
            Cargo::CopperPlates
        } else if i == 8 {
            Cargo::UraniumRods
        } else {
            Cargo::Batteries
        }
    }

    /// All cargo kinds, in ledger order.
    pub fn all() -> (v: Vec<Cargo>)
        ensures
            v@.len() == CARGO_KINDS,
            forall|i: int| 0 <= i < CARGO_KINDS ==> spec_cargo_index(#[trigger] v@[i]) == i,
    {
        let v = vec![
            Cargo::Stone,
            Cargo::Silicon,
            Cargo::Ice,
            Cargo::Copper,
            Cargo::Uranium,
            Cargo::Aurelium,
            Cargo::Water,
            Cargo::CopperPlates,
            Cargo::UraniumRods,
            Cargo::Batteries,
        ];
        v
    }

    /// Display name of the cargo kind.
    pub fn name(&self) -> (r: &'static str)
        ensures
            r@ == spec_cargo_name(*self),
    {
        match self {
            Cargo::Stone => "Stone",
            Cargo::Silicon => "Silicon",
            Cargo::Ice => "Ice",
            Cargo::Copper => "Copper",
            Cargo::Uranium => "Uranium",
            Cargo::Aurelium => "Aurelium",
            Cargo::Water => "Water",
            Cargo::CopperPlates => "Copper plates",
            Cargo::UraniumRods => "Uranium rods",
            Cargo::Batteries => "Batteries",
        }
    }
}

/// Display name of a cargo kind.
pub open spec fn spec_cargo_name(c: Cargo) -> Seq<char> {
    match c {
        Cargo::Stone => "Stone"@,
        Cargo::Silicon => "Silicon"@,
        Cargo::Ice => "Ice"@,
        Cargo::Copper => "Copper"@,
        Cargo::Uranium => "Uranium"@,
        Cargo::Aurelium => "Aurelium"@,
        Cargo::Water => "Water"@,
        Cargo::CopperPlates => "Copper plates"@,
        Cargo::UraniumRods => "Uranium rods"@,
        Cargo::Batteries => "Batteries"@,
    }
}

/// Energy a structure kind makes available, in whole energy units.
pub open spec fn spec_energy_gen(k: MapNode) -> int {
    match k {
        MapNode::PrimaryBlock => 50,
        MapNode::Generator => 100,
        _ => 0,
    }
}

/// Energy a structure kind consumes (upkeep plus operation), in whole units.
pub open spec fn spec_energy_use(k: MapNode) -> int {
    match k {
        MapNode::PrimaryBlock => 0,
        MapNode::EmptyRoom => 5,
        MapNode::Furnace => 25,
        MapNode::Generator => 5,
        MapNode::Crusher => 15,
        MapNode::Cargo => 5,
        MapNode::Hook => 55,
        MapNode::Enrichment => 205,
    }
}

/// Storage capacity a structure kind adds for a cargo kind, in thousandths.
pub open spec fn spec_capacity_contribution(k: MapNode, c: Cargo) -> int {
    match k {
        MapNode::PrimaryBlock => match c {
            Cargo::Silicon => 10000,
            Cargo::Ice => 10000,
            Cargo::Copper => 10000,
            Cargo::Uranium => 1000,
            Cargo::CopperPlates => 10000,
            _ => 0,
        },
        MapNode::Cargo => match c {
            Cargo::Stone => 10000,
            Cargo::Silicon => 10000,
            Cargo::Ice => 10000,
            Cargo::Copper => 10000,
            Cargo::Uranium => 10000,
            Cargo::Aurelium => 1000,
            Cargo::Water => 10000,
            Cargo::CopperPlates => 10000,
            Cargo::UraniumRods => 5000,
            Cargo::Batteries => 1000,
        },
        _ => 0,
    }
}

/// Largest per-structure table entries; sums over a map stay in range
/// because the map holds at most `crate::map::MAX_CELLS` structures.
pub const MAX_ENERGY_CONTRIBUTION: u64 = 205;

/// Largest per-structure storage contribution, in thousandths.
pub const MAX_CAPACITY_CONTRIBUTION: u64 = 10000;

impl MapNode {
    /// Energy this structure kind makes available, in whole units.
    pub fn energy_gen(&self) -> (r: u64)
        ensures
            r == spec_energy_gen(*self),
            r <= MAX_ENERGY_CONTRIBUTION,
    {
        match self {
            MapNode::PrimaryBlock => 50,
            MapNode::Generator => 100,
            _ => 0,
        }
    }

    /// Energy this structure kind consumes, in whole units.
    pub fn energy_use(&self) -> (r: u64)
        ensures
            r == spec_energy_use(*self),
            r <= MAX_ENERGY_CONTRIBUTION,
    {
        match self {
            MapNode::PrimaryBlock => 0,
            MapNode::EmptyRoom => 5,
            MapNode::Furnace => 25,
            MapNode::Generator => 5,
            MapNode::Crusher => 15,
            MapNode::Cargo => 5,
            MapNode::Hook => 55,
            MapNode::Enrichment => 205,
        }
    }

    /// Storage capacity this structure kind adds for `c`, in thousandths.
    pub fn capacity_contribution(&self, c: Cargo) -> (r: u64)
        ensures
            r == spec_capacity_contribution(*self, c),
            r <= MAX_CAPACITY_CONTRIBUTION,
    {
        match self {
            MapNode::PrimaryBlock => match c {
                Cargo::Silicon => 10000,
                Cargo::Ice => 10000,
                Cargo::Copper => 10000,
                Cargo::Uranium => 1000,
                Cargo::CopperPlates => 10000,
                _ => 0,
            },
            MapNode::Cargo => match c {
                Cargo::Stone => 10000,
                Cargo::Silicon => 10000,
                Cargo::Ice => 10000,
                Cargo::Copper => 10000,
                Cargo::Uranium => 10000,
                Cargo::Aurelium => 1000,
                Cargo::Water => 10000,
                Cargo::CopperPlates => 10000,
                Cargo::UraniumRods => 5000,
                Cargo::Batteries => 1000,
            },
            _ => 0,
        }
    }

    /// Construction recipe: the cargo amounts (in thousandths) debited when
    /// construction of this kind is committed.
    pub fn recipe(&self) -> (v: Vec<(Cargo, u64)>)
        ensures
            v@ == spec_recipe(*self),
    {
        match self {
            MapNode::PrimaryBlock => vec![],
            MapNode::EmptyRoom => vec![(Cargo::Silicon, 10000)],
            MapNode::Furnace => vec![(Cargo::Silicon, 10000), (Cargo::Ice, 5000)],
            MapNode::Generator => vec![(Cargo::Silicon, 20000), (Cargo::UraniumRods, 2000)],
            MapNode::Crusher => vec![(Cargo::Silicon, 30000), (Cargo::CopperPlates, 10000)],
            MapNode::Cargo => vec![(Cargo::Silicon, 10000), (Cargo::CopperPlates, 5000)],
            MapNode::Hook => vec![(Cargo::Silicon, 50000), (Cargo::Water, 20000)],
            MapNode::Enrichment => vec![(Cargo::Silicon, 100000), (Cargo::UraniumRods, 30000)],
        }
    }

    /// Display name of the structure kind.
    pub fn name(&self) -> (r: &'static str)
        ensures
            r@ == spec_node_name(*self),
    {
        match self {
            MapNode::PrimaryBlock => "Main block",
            MapNode::EmptyRoom => "Empty room",
            MapNode::Furnace => "Furnace",
            MapNode::Generator => "Generator",
            MapNode::Crusher => "Crusher",
            MapNode::Cargo => "Cargo",
            MapNode::Hook => "Hook",
            MapNode::Enrichment => "Enrichment station",
        }
    }

    /// Thumbnail asset of the structure kind.
    pub fn thumbnail(&self) -> (r: &'static str)
        ensures
            r@ == spec_node_thumbnail(*self),
    {
        match self {
            MapNode::PrimaryBlock => "primary.png",
            MapNode::EmptyRoom => "room.png",
            MapNode::Furnace => "furnace.png",
            MapNode::Generator => "generator.png",
            MapNode::Crusher => "crusher.png",
            MapNode::Cargo => "cargo.png",
            MapNode::Hook => "hook.png",
            MapNode::Enrichment => "enrichment.png",
        }
    }

    /// Short description of the structure kind.
    pub fn desc(&self) -> (r: &'static str)
        ensures
            r@ == spec_node_desc(*self),
    {
        match self {
            MapNode::PrimaryBlock => "Your rescue capsule",
            MapNode::EmptyRoom => "Just an empty room",
            MapNode::Furnace => "Melts ores and ice",
            MapNode::Generator => "Generates power",
            MapNode::Crusher => "Crushes stones into the silicone dust",
            MapNode::Cargo => "Increases your storage capabilities",
            MapNode::Hook => "Automatic hook",
            MapNode::Enrichment => "Produces batteries",
        }
    }

    /// Conversion rules this structure kind runs each tick.
    pub fn conversion_rules(&self) -> (v: Vec<ConvRule>)
        ensures
            v@ == spec_conversion_rules(*self),
    {
        match self {
            MapNode::Furnace => vec![
                ConvRule {
                    input_a: Cargo::Ice,
                    input_b: None,
                    output: Cargo::Water,
                    rate_milli: 400,
                    ratio_den: 1,
                },
                ConvRule {
                    input_a: Cargo::Copper,
                    input_b: None,
                    output: Cargo::CopperPlates,
                    rate_milli: 200,
                    ratio_den: 2,
                },
                ConvRule {
                    input_a: Cargo::Uranium,
                    input_b: None,
                    output: Cargo::UraniumRods,
                    rate_milli: 100,
                    ratio_den: 5,
                },
            ],
            MapNode::Crusher => vec![
                ConvRule {
                    input_a: Cargo::Stone,
                    input_b: None,
                    output: Cargo::Silicon,
                    rate_milli: 500,
                    ratio_den: 1,
                },
            ],
            MapNode::Enrichment => vec![
                ConvRule {
                    input_a: Cargo::UraniumRods,
                    input_b: Some(Cargo::Aurelium),
                    output: Cargo::Batteries,
                    rate_milli: 100,
                    ratio_den: 5,
                },
            ],
            _ => vec![],
        }
    }
}

/// Construction recipe of a structure kind, in thousandths per cargo kind.
pub open spec fn spec_recipe(k: MapNode) -> Seq<(Cargo, u64)> {
    match k {
        MapNode::PrimaryBlock => seq![],
        MapNode::EmptyRoom => seq![(Cargo::Silicon, 10000u64)],
        MapNode::Furnace => seq![(Cargo::Silicon, 10000u64), (Cargo::Ice, 5000u64)],
        MapNode::Generator => seq![(Cargo::Silicon, 20000u64), (Cargo::UraniumRods, 2000u64)],
        MapNode::Crusher => seq![(Cargo::Silicon, 30000u64), (Cargo::CopperPlates, 10000u64)],
        MapNode::Cargo => seq![(Cargo::Silicon, 10000u64), (Cargo::CopperPlates, 5000u64)],
        MapNode::Hook => seq![(Cargo::Silicon, 50000u64), (Cargo::Water, 20000u64)],
        MapNode::Enrichment => seq![(Cargo::Silicon, 100000u64), (Cargo::UraniumRods, 30000u64)],
    }
}

/// Display name of a structure kind.
pub open spec fn spec_node_name(k: MapNode) -> Seq<char> {
    match k {
        MapNode::PrimaryBlock => "Main block"@,
        MapNode::EmptyRoom => "Empty room"@,
        MapNode::Furnace => "Furnace"@,
        MapNode::Generator => "Generator"@,
        MapNode::Crusher => "Crusher"@,
        MapNode::Cargo => "Cargo"@,
        MapNode::Hook => "Hook"@,
        MapNode::Enrichment => "Enrichment station"@,
    }
}

/// Thumbnail asset of a structure kind.
pub open spec fn spec_node_thumbnail(k: MapNode) -> Seq<char> {
    match k {
        MapNode::PrimaryBlock => "primary.png"@,
        MapNode::EmptyRoom => "room.png"@,
        MapNode::Furnace => "furnace.png"@,
        MapNode::Generator => "generator.png"@,
        MapNode::Crusher => "crusher.png"@,
        MapNode::Cargo => "cargo.png"@,
        MapNode::Hook => "hook.png"@,
        MapNode::Enrichment => "enrichment.png"@,
    }
}

/// Short description of a structure kind.
pub open spec fn spec_node_desc(k: MapNode) -> Seq<char> {
    match k {
        MapNode::PrimaryBlock => "Your rescue capsule"@,
        MapNode::EmptyRoom => "Just an empty room"@,
        MapNode::Furnace => "Melts ores and ice"@,
        MapNode::Generator => "Generates power"@,
        MapNode::Crusher => "Crushes stones into the silicone dust"@,
        MapNode::Cargo => "Increases your storage capabilities"@,
        MapNode::Hook => "Automatic hook"@,
        MapNode::Enrichment => "Produces batteries"@,
    }
}

/// One conversion flow: up to two input cargo kinds turn into an output kind
/// at `rate_milli` thousandths of input per second, producing one unit of
/// output for every `ratio_den` units of input.
#[derive(Clone, Copy, Debug)]
pub struct ConvRule {
    pub input_a: Cargo,
    pub input_b: Option<Cargo>,
    pub output: Cargo,
    pub rate_milli: u64,
    pub ratio_den: u64,
}

/// A rule is well formed when its rate and ratio are small and positive and
/// its output is not one of its inputs.
pub open spec fn rule_wf(r: ConvRule) -> bool {
    &&& 0 < r.rate_milli <= 500
    &&& 0 < r.ratio_den <= 5
    &&& r.output != r.input_a
    &&& r.input_b matches Some(b) ==> r.output != b && b != r.input_a
}

/// Conversion rules a structure kind runs each tick, in order.
pub open spec fn spec_conversion_rules(k: MapNode) -> Seq<ConvRule> {
    match k {
        MapNode::Furnace => seq![
            ConvRule {
                input_a: Cargo::Ice,
                input_b: None,
                output: Cargo::Water,
                rate_milli: 400,
                ratio_den: 1,
            },
            ConvRule {
                input_a: Cargo::Copper,
                input_b: None,
                output: Cargo::CopperPlates,
                rate_milli: 200,
                ratio_den: 2,
            },
            ConvRule {
                input_a: Cargo::Uranium,
                input_b: None,
                output: Cargo::UraniumRods,
                rate_milli: 100,
                ratio_den: 5,
            },
        ],
        MapNode::Crusher => seq![
            ConvRule {
                input_a: Cargo::Stone,
                input_b: None,
                output: Cargo::Silicon,
                rate_milli: 500,
                ratio_den: 1,
            },
        ],
        MapNode::Enrichment => seq![
            ConvRule {
                input_a: Cargo::UraniumRods,
                input_b: Some(Cargo::Aurelium),
                output: Cargo::Batteries,
                rate_milli: 100,
                ratio_den: 5,
            },
        ],
        _ => seq![],
    }
}

/// Every rule in every kind's table is well formed.
pub proof fn lemma_rules_wf(k: MapNode)
    ensures
        forall|i: int|
            0 <= i < spec_conversion_rules(k).len() ==> rule_wf(#[trigger] spec_conversion_rules(k)[i]),
{
}

} // verus!
