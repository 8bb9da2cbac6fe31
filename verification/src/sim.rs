//! The simulation shell: player intent (construct / destruct / interact),
//! the per-structure lifecycle table keyed by cell, and the per-tick
//! orchestration that ties input decisions, the layered map, connectivity
//! and the economy together. The host supplies cursor readings, button
//! edges and the clock as plain values.

use vstd::prelude::*;
use crate::grid::GameCursor;
use crate::kind::{Cargo, MapNode, spec_recipe, spec_cargo_index};
use crate::lifecycle::{
    ActionState, HighlightState, NodeState, BUILD_DURATION_MS,
    MAX_DESTRUCT_JITTER_MS,
};
use crate::map::{cellv, MapLayer, MapState, MAX_CELLS, MAX_COORD, spec_is_available};
use crate::connectivity::{
    all_connected, connected_set, exclv, spec_connected, vec_contains_cell, vec_has_cell,
};
use crate::economy::{clamp_all, caps_of, kinds_of, run_conversions, spec_clamp, total_gen, total_use, MAX_TICK_MS};

verus! {

/// The simulation meta-state: ticking or paused.
#[derive(Clone, Copy, Debug, Hash, PartialEq, Eq, Structural)]
pub enum GameState {
    Idle,
    Pause,
}

/// The player's current intent.
#[derive(Clone, Copy, Debug, Hash, PartialEq, Eq, Structural)]
pub enum PlayerState {
    Idle,
    Construct(MapNode),
    Destruct,
    Interact(i32, i32),
}

/// Relies on rand::random: a value drawn from the thread-local generator.
/// Nothing can be promised of a random value.
pub assume_specification<T>[ rand::random::<T> ]() -> (r: T)
    where
        rand::distributions::Standard: rand::distributions::Distribution<T>,
;

/// A random destruction stagger of up to half a second, in milliseconds,
/// so that simultaneously orphaned structures do not all finish in the
/// same tick.
pub fn destruct_jitter_ms() -> (r: u64)
    ensures
        r <= MAX_DESTRUCT_JITTER_MS,
{
    let raw: u64 = rand::random::<u64>();
    raw % (MAX_DESTRUCT_JITTER_MS + 1)
}

/// One lifecycle table row: a cell and the state of the structure on it.
pub type NodeRec = ((i32, i32), NodeState);

/// Mathematical cell of a table row.
pub open spec fn node_key(e: NodeRec) -> (int, int) {
    (e.0.0 as int, e.0.1 as int)
}

/// Whether some row of `s` sits at cell `c`.
pub open spec fn nodes_has(s: Seq<NodeRec>, c: (int, int)) -> bool {
    exists|i: int| 0 <= i < s.len() && node_key(#[trigger] s[i]) == c
}

/// Index of the row of `s` at cell `c` (unique when rows are distinct).
pub open spec fn nodes_index_of(s: Seq<NodeRec>, c: (int, int)) -> int {
    choose|i: int| 0 <= i < s.len() && node_key(s[i]) == c
}

/// State recorded for cell `c`.
pub open spec fn nodes_state(s: Seq<NodeRec>, c: (int, int)) -> NodeState {
    s[nodes_index_of(s, c)].1
}

/// No two rows share a cell.
pub open spec fn nodes_unique(s: Seq<NodeRec>) -> bool {
    forall|i: int, j: int| 0 <= i < j < s.len() ==> node_key(s[i]) != node_key(s[j])
}

/// In a duplicate-free table, the row at `s[i]`'s cell is `s[i]` itself.
proof fn lemma_node_index_unique(s: Seq<NodeRec>, i: int)
    requires
        nodes_unique(s),
        0 <= i < s.len(),
    ensures
        nodes_has(s, node_key(s[i])),
        nodes_index_of(s, node_key(s[i])) == i,
        nodes_state(s, node_key(s[i])) == s[i].1,
{
    let c = node_key(s[i]);
    assert(nodes_has(s, c));
    let j = nodes_index_of(s, c);
    assert(0 <= j < s.len() && node_key(s[j]) == c);
    if j < i {
        assert(node_key(s[j]) != node_key(s[i]));
        assert(false);
    } else if j > i {
        assert(node_key(s[i]) != node_key(s[j]));
        assert(false);
    }
}

/// Finds the position of the row at cell `(x, y)`, if any.
fn node_find(v: &Vec<NodeRec>, x: i32, y: i32) -> (r: Option<usize>)
    ensures
        match r {
            Some(i) => i < v@.len() && node_key(v@[i as int]) == (x as int, y as int),
            None => !nodes_has(v@, (x as int, y as int)),
        },
{
    let mut i: usize = 0;
    while i < v.len()
        invariant
            i <= v@.len(),
            forall|j: int| 0 <= j < i ==> node_key(#[trigger] v@[j]) != (x as int, y as int),
        decreases v@.len() - i,
    {
        let e = v[i];
        if e.0.0 == x && e.0.1 == y {
            return Some(i);
        }
        i = i + 1;
    }
    proof {
        if nodes_has(v@, (x as int, y as int)) {
            let j = nodes_index_of(v@, (x as int, y as int));
            assert(0 <= j < v@.len() && node_key(v@[j]) == (x as int, y as int));
        }
    }
    None
}

/// Appending a row at a fresh cell keeps the table duplicate-free and adds
/// exactly that cell.
proof fn lemma_nodes_push(s: Seq<NodeRec>, e: NodeRec)
    requires
        nodes_unique(s),
        !nodes_has(s, node_key(e)),
    ensures
        nodes_unique(s.push(e)),
        nodes_has(s.push(e), node_key(e)),
        nodes_state(s.push(e), node_key(e)) == e.1,
        forall|c: (int, int)|
            c != node_key(e) ==> (#[trigger] nodes_has(s.push(e), c) <==> nodes_has(s, c)),
        forall|c: (int, int)|
            c != node_key(e) && #[trigger] nodes_has(s, c) ==> nodes_state(s.push(e), c)
                == nodes_state(s, c),
{
    let s2 = s.push(e);
    assert forall|i: int, j: int| 0 <= i < j < s2.len() implies node_key(s2[i]) != node_key(
        s2[j],
    ) by {
        if j == s.len() {
            assert(s2[j] == e);
            assert(s2[i] == s[i]);
            if node_key(s[i]) == node_key(e) {
                assert(nodes_has(s, node_key(e)));
            }
        } else {
            assert(s2[i] == s[i]);
            assert(s2[j] == s[j]);
        }
    }
    assert(s2[s.len() as int] == e);
    lemma_node_index_unique(s2, s.len() as int);
    assert forall|c: (int, int)| c != node_key(e) implies (#[trigger] nodes_has(s2, c)
        <==> nodes_has(s, c)) by {
        if nodes_has(s2, c) {
            let i = nodes_index_of(s2, c);
            assert(0 <= i < s2.len() && node_key(s2[i]) == c);
            assert(i < s.len());
            assert(s2[i] == s[i]);
            assert(nodes_has(s, c));
        }
        if nodes_has(s, c) {
            let i = nodes_index_of(s, c);
            assert(0 <= i < s.len() && node_key(s[i]) == c);
            assert(s2[i] == s[i]);
            assert(nodes_has(s2, c));
        }
    }
    assert forall|c: (int, int)| c != node_key(e) && #[trigger] nodes_has(s, c) implies nodes_state(
        s2,
        c,
    ) == nodes_state(s, c) by {
        let i = nodes_index_of(s, c);
        assert(0 <= i < s.len() && node_key(s[i]) == c);
        assert(s2[i] == s[i]);
        lemma_node_index_unique(s, i);
        lemma_node_index_unique(s2, i);
    }
}

/// Removing the row at index `i` removes exactly its cell from the table.
proof fn lemma_nodes_remove(s: Seq<NodeRec>, i: int)
    requires
        nodes_unique(s),
        0 <= i < s.len(),
    ensures
        nodes_unique(s.remove(i)),
        !nodes_has(s.remove(i), node_key(s[i])),
        forall|c: (int, int)|
            c != node_key(s[i]) ==> (#[trigger] nodes_has(s.remove(i), c) <==> nodes_has(s, c)),
        forall|c: (int, int)|
            c != node_key(s[i]) && #[trigger] nodes_has(s, c) ==> nodes_state(s.remove(i), c)
                == nodes_state(s, c),
{
    let s2 = s.remove(i);
    let k = node_key(s[i]);
    s.remove_ensures(i);
    assert forall|a: int, b: int| 0 <= a < b < s2.len() implies node_key(s2[a]) != node_key(
        s2[b],
    ) by {
        let a0: int = if a < i {
            a
        } else {
            a + 1
        };
        let b0: int = if b < i {
            b
        } else {
            b + 1
        };
        assert(s2[a] == s[a0]);
        assert(s2[b] == s[b0]);
        assert(node_key(s[a0]) != node_key(s[b0]));
    }
    assert forall|c: (int, int)| #[trigger] nodes_has(s2, c) implies nodes_has(s, c) && c != k by {
        let j = nodes_index_of(s2, c);
        assert(0 <= j < s2.len() && node_key(s2[j]) == c);
        let j0: int = if j < i {
            j
        } else {
            j + 1
        };
        assert(s2[j] == s[j0]);
        lemma_node_index_unique(s, j0);
        if c == k {
            assert(j0 != i);
            if j0 < i {
                assert(node_key(s[j0]) != node_key(s[i]));
            } else {
                assert(node_key(s[i]) != node_key(s[j0]));
            }
            assert(false);
        }
    }
    assert forall|c: (int, int)| c != k && #[trigger] nodes_has(s, c) implies nodes_has(s2, c)
        && nodes_state(s2, c) == nodes_state(s, c) by {
        let j = nodes_index_of(s, c);
        assert(0 <= j < s.len() && node_key(s[j]) == c);
        assert(j != i);
        let j2: int = if j < i {
            j
        } else {
            j - 1
        };
        assert(s2[j2] == s[j]);
        lemma_node_index_unique(s2, j2);
        lemma_node_index_unique(s, j);
    }
}

/// Inserts or replaces the row at cell `(x, y)`.
fn node_upsert(v: &mut Vec<NodeRec>, x: i32, y: i32, st: NodeState)
    requires
        nodes_unique(old(v)@),
    ensures
        nodes_unique(final(v)@),
        nodes_has(final(v)@, (x as int, y as int)),
        nodes_state(final(v)@, (x as int, y as int)) == st,
        forall|c: (int, int)|
            c != (x as int, y as int) ==> (#[trigger] nodes_has(final(v)@, c) <==> nodes_has(
                old(v)@,
                c,
            )),
        forall|c: (int, int)|
            c != (x as int, y as int) && #[trigger] nodes_has(old(v)@, c) ==> nodes_state(
                final(v)@,
                c,
            ) == nodes_state(old(v)@, c),
        final(v)@.len() <= old(v)@.len() + 1,
{
    match node_find(v, x, y) {
        Some(i) => {
            let ghost s0 = v@;
            let _ = v.remove(i);
            proof {
                lemma_nodes_remove(s0, i as int);
            }
            let ghost s1 = v@;
            v.push(((x, y), st));
            proof {
                lemma_nodes_push(s1, ((x, y), st));
                assert forall|c: (int, int)|
                    c != (x as int, y as int) && #[trigger] nodes_has(s0, c) implies nodes_state(
                    v@,
                    c,
                ) == nodes_state(s0, c) by {
                    assert(nodes_has(s1, c));
                    assert(nodes_state(s1, c) == nodes_state(s0, c));
                    assert(nodes_state(v@, c) == nodes_state(s1, c));
                }
            }
        },
        None => {
            let ghost s0 = v@;
            v.push(((x, y), st));
            proof {
                lemma_nodes_push(s0, ((x, y), st));
            }
        },
    }
}

/// The recipe debited from a ledger, item by item, each subtraction
/// clamped into `[0, capacity]`.
pub open spec fn debit_recipe(cur: Seq<u64>, cap: Seq<u64>, recipe: Seq<(Cargo, u64)>) -> Seq<u64>
    decreases recipe.len(),
{
    if recipe.len() == 0 {
        cur
    } else {
        let prev = debit_recipe(cur, cap, recipe.drop_last());
        let i = spec_cargo_index(recipe.last().0);
        prev.update(i, spec_clamp(prev[i] - recipe.last().1, cap[i] as int) as u64)
    }
}

/// Every recipe amount is small enough for signed arithmetic.
pub proof fn lemma_recipe_bounds(k: MapNode)
    ensures
        forall|i: int|
            0 <= i < spec_recipe(k).len() ==> (#[trigger] spec_recipe(k)[i]).1 <= 100000,
{
}

/// What one lifecycle pass decides for one table row, given the set of
/// cells connected to an anchor, the clock, a destruction stagger and the
/// selected cell: a structure found disconnected is forced into
/// destruction (from idle or mid-construction alike); construction and
/// destruction complete on their timers; an idle structure's highlight
/// follows selection. A completed destruction returns nothing: the row
/// leaves the table, and the caller deletes its cell from the `Main`
/// layer at that same moment.
pub open spec fn spec_node_update(
    e: NodeRec,
    conn: Set<(int, int)>,
    now: int,
    jitter: int,
    selected: Option<(i32, i32)>,
) -> Option<NodeRec> {
    let cell = node_key(e);
    match e.1.action {
        ActionState::Idle => {
            let hl = match selected {
                Some(sc) => if (sc.0 as int, sc.1 as int) == cell {
                    HighlightState::White
                } else {
                    HighlightState::Off
                },
                None => HighlightState::Off,
            };
            if !conn.contains(cell) {
                Some(
                    (
                        e.0,
                        NodeState {
                            highlight: hl,
                            action: ActionState::Destruct((now + jitter) as u64),
                        },
                    ),
                )
            } else {
                Some((e.0, NodeState { highlight: hl, action: ActionState::Idle }))
            }
        },
        ActionState::Construct(t0) => {
            if !conn.contains(cell) {
                Some(
                    (
                        e.0,
                        NodeState {
                            highlight: e.1.highlight,
                            action: ActionState::Destruct((now + jitter) as u64),
                        },
                    ),
                )
            } else if now >= t0 + BUILD_DURATION_MS {
                Some((e.0, NodeState { highlight: e.1.highlight, action: ActionState::Idle }))
            } else {
                Some(e)
            }
        },
        ActionState::Destruct(t0) => {
            if now >= t0 + BUILD_DURATION_MS {
                None
            } else {
                Some(e)
            }
        },
    }
}

/// One lifecycle pass over a whole table, with one stagger value per row.
pub open spec fn spec_update_nodes(
    s: Seq<NodeRec>,
    conn: Set<(int, int)>,
    now: int,
    js: Seq<int>,
    selected: Option<(i32, i32)>,
) -> Seq<NodeRec>
    decreases s.len(),
{
    if s.len() == 0 {
        Seq::empty()
    } else {
        let prev = spec_update_nodes(s.drop_last(), conn, now, js, selected);
        match spec_node_update(s.last(), conn, now, js[s.len() - 1], selected) {
            Some(e2) => prev.push(e2),
            None => prev,
        }
    }
}

/// A lifecycle pass keeps the rows' cells among the input's cells and
/// keeps the table duplicate-free.
proof fn lemma_update_nodes_unique(
    s: Seq<NodeRec>,
    conn: Set<(int, int)>,
    now: int,
    js: Seq<int>,
    selected: Option<(i32, i32)>,
)
    requires
        nodes_unique(s),
    ensures
        nodes_unique(spec_update_nodes(s, conn, now, js, selected)),
        forall|k: int|
            0 <= k < spec_update_nodes(s, conn, now, js, selected).len() ==> nodes_has(
                s,
                node_key(#[trigger] spec_update_nodes(s, conn, now, js, selected)[k]),
            ),
    decreases s.len(),
{
    let res = spec_update_nodes(s, conn, now, js, selected);
    if s.len() == 0 {
    } else {
        let s1 = s.drop_last();
        assert(nodes_unique(s1)) by {
            assert forall|i: int, j: int| 0 <= i < j < s1.len() implies node_key(s1[i])
                != node_key(s1[j]) by {
                assert(s1[i] == s[i]);
                assert(s1[j] == s[j]);
            }
        }
        lemma_update_nodes_unique(s1, conn, now, js, selected);
        let prev = spec_update_nodes(s1, conn, now, js, selected);
        assert forall|k: int| 0 <= k < prev.len() implies nodes_has(
            s,
            node_key(#[trigger] prev[k]),
        ) by {
            assert(nodes_has(s1, node_key(prev[k])));
            let j = nodes_index_of(s1, node_key(prev[k]));
            assert(0 <= j < s1.len() && node_key(s1[j]) == node_key(prev[k]));
            assert(s[j] == s1[j]);
            assert(nodes_has(s, node_key(prev[k])));
        }
        match spec_node_update(s.last(), conn, now, js[s.len() - 1], selected) {
            Some(e2) => {
                assert(node_key(e2) == node_key(s.last()));
                assert(res == prev.push(e2));
                assert(!nodes_has(s1, node_key(e2))) by {
                    if nodes_has(s1, node_key(e2)) {
                        let j = nodes_index_of(s1, node_key(e2));
                        assert(0 <= j < s1.len() && node_key(s1[j]) == node_key(e2));
                        assert(s[j] == s1[j]);
                        assert(node_key(s[j]) != node_key(s[s.len() - 1]));
                    }
                }
                assert forall|i: int, j: int| 0 <= i < j < res.len() implies node_key(res[i])
                    != node_key(res[j]) by {
                    assert(res[i] == prev[i]);
                    if j < prev.len() {
                        assert(res[j] == prev[j]);
                    } else {
                        assert(res[j] == e2);
                        assert(nodes_has(s1, node_key(prev[i])));
                    }
                }
                assert forall|k: int| 0 <= k < res.len() implies nodes_has(
                    s,
                    node_key(#[trigger] res[k]),
                ) by {
                    if k < prev.len() {
                        assert(res[k] == prev[k]);
                    } else {
                        assert(res[k] == e2);
                        assert(s[s.len() - 1] == s.last());
                        lemma_node_index_unique(s, s.len() - 1);
                    }
                }
            },
            None => {
                assert(res == prev);
            },
        }
    }
}

/// Lifecycle monotonicity: within one episode the action only moves
/// forward — a structure under destruction never returns to idleness or
/// construction, whatever the connectivity, the clock or the stagger say.
pub proof fn lemma_destruct_is_final(
    e: NodeRec,
    conn: Set<(int, int)>,
    now: int,
    jitter: int,
    selected: Option<(i32, i32)>,
)
    requires
        e.1.action matches ActionState::Destruct(t0),
    ensures
        spec_node_update(e, conn, now, jitter, selected) matches Some(e2) ==> e2.1.action
            == e.1.action,
{
}

/// The row's destruction timer has run out at instant `now`.
pub open spec fn destruct_done(e: NodeRec, now: int) -> bool {
    match e.1.action {
        ActionState::Destruct(t0) => now >= t0 + BUILD_DURATION_MS,
        _ => false,
    }
}

/// Some row of `s` at cell `c` has a completed destruction.
pub open spec fn has_completed_at(s: Seq<NodeRec>, c: (int, int), now: int) -> bool {
    exists|k: int| 0 <= k < s.len() && node_key(#[trigger] s[k]) == c && destruct_done(s[k], now)
}

/// The cells whose destruction completes at instant `now`: a lifecycle
/// pass deletes exactly these from the `Main` layer.
pub open spec fn completed_cells(s: Seq<NodeRec>, now: int) -> Set<(int, int)> {
    Set::new(|c: (int, int)| has_completed_at(s, c, now))
}

/// Highlight a structure carries while destruct mode previews the removal
/// of the cursor cell: structures still connected on the preview layer are
/// unmarked, the one under the cursor is red, the rest of the doomed set
/// orange.
pub open spec fn spec_destruct_highlight(
    build_m: Map<(int, int), MapNode>,
    cursor: Option<GameCursor>,
    cell: (int, int),
) -> HighlightState {
    if spec_connected(build_m, None, cell) {
        HighlightState::Off
    } else {
        match cursor {
            Some(c) => if cell == (c.x as int, c.y as int) {
                HighlightState::Red
            } else {
                HighlightState::Orange
            },
            None => HighlightState::Orange,
        }
    }
}

/// The whole simulation: the layered map (with its ledger) and the
/// lifecycle table, one row per placed structure.
pub struct Simulation {
    pub map: MapState,
    pub nodes: Vec<NodeRec>,
}

impl Simulation {
    /// Well-formed simulation: well-formed map store, one lifecycle row per
    /// cell.
    pub open spec fn wf(&self) -> bool {
        &&& self.map.wf()
        &&& nodes_unique(self.nodes@)
    }

    /// A fresh simulation: empty map, empty lifecycle table.
    pub fn new() -> (r: Simulation)
        ensures
            r.wf(),
            r.map.spec_layer(MapLayer::Main) == Map::<(int, int), MapNode>::empty(),
            r.map.spec_layer(MapLayer::Build) == Map::<(int, int), MapNode>::empty(),
            r.nodes@.len() == 0,
            r.map.ledger.energy_available == 0,
            r.map.ledger.energy_in_use == 0,
    {
        Simulation { map: MapState::new(), nodes: Vec::new() }
    }

    /// Places the network anchor at `(x, y)` and registers it as idle.
    pub fn add_primary_block(&mut self, x: i32, y: i32)
        requires
            old(self).wf(),
            -MAX_COORD <= x <= MAX_COORD,
            -MAX_COORD <= y <= MAX_COORD,
            old(self).map.spec_entries(MapLayer::Main).len() < MAX_CELLS,
        ensures
            final(self).wf(),
            final(self).map.spec_layer(MapLayer::Main) == old(self).map.spec_layer(
                MapLayer::Main,
            ).insert((x as int, y as int), MapNode::PrimaryBlock),
            final(self).map.spec_entries(MapLayer::Build) == old(self).map.spec_entries(
                MapLayer::Build,
            ),
            final(self).map.ledger == old(self).map.ledger,
            nodes_has(final(self).nodes@, (x as int, y as int)),
            nodes_state(final(self).nodes@, (x as int, y as int)) == (NodeState {
                highlight: HighlightState::Off,
                action: ActionState::Idle,
            }),
            forall|c: (int, int)|
                c != (x as int, y as int) ==> (#[trigger] nodes_has(final(self).nodes@, c)
                    <==> nodes_has(old(self).nodes@, c)),
            forall|c: (int, int)|
                c != (x as int, y as int) && #[trigger] nodes_has(old(self).nodes@, c)
                    ==> nodes_state(final(self).nodes@, c) == nodes_state(old(self).nodes@, c),
    {
        self.map.add_primary_block(x, y);
        node_upsert(
            &mut self.nodes,
            x,
            y,
            NodeState { highlight: HighlightState::Off, action: ActionState::Idle },
        );
    }

    /// Highlight of the placement preview: green when the ghost structure
    /// may be committed at the cursor cell, red otherwise.
    pub fn preview_highlight(&self, x: i32, y: i32, kind: MapNode) -> (r: HighlightState)
        requires
            self.wf(),
            -MAX_COORD <= x <= MAX_COORD,
            -MAX_COORD <= y <= MAX_COORD,
        ensures
            r == (if spec_is_available(self.map.spec_layer(MapLayer::Main), x as int, y as int, kind) {
                HighlightState::Green
            } else {
                HighlightState::Red
            }),
    {
        if self.map.is_available(x, y, kind) {
            HighlightState::Green
        } else {
            HighlightState::Red
        }
    }

    /// Commits construction of `kind` at `(x, y)` when the cell accepts it:
    /// the structure enters the `Main` layer, the recipe cost is debited
    /// (each subtraction clamped into `[0, capacity]`), and the structure
    /// starts constructing at `now_ms`. Returns whether it was committed;
    /// on refusal nothing changes.
    pub fn confirm_construct(&mut self, kind: MapNode, x: i32, y: i32, now_ms: u64) -> (r: bool)
        requires
            old(self).wf(),
            -MAX_COORD <= x <= MAX_COORD,
            -MAX_COORD <= y <= MAX_COORD,
            old(self).map.spec_entries(MapLayer::Main).len() < MAX_CELLS,
        ensures
            final(self).wf(),
            r == spec_is_available(
                old(self).map.spec_layer(MapLayer::Main),
                x as int,
                y as int,
                kind,
            ),
            !r ==> final(self).map.spec_layer(MapLayer::Main) == old(self).map.spec_layer(
                MapLayer::Main,
            ) && final(self).nodes@ == old(self).nodes@ && final(self).map.ledger.current@ == old(
                self,
            ).map.ledger.current@,
            final(self).map.spec_entries(MapLayer::Build) == old(self).map.spec_entries(
                MapLayer::Build,
            ),
            final(self).map.ledger.capacity@ == old(self).map.ledger.capacity@,
            final(self).map.ledger.energy_available == old(self).map.ledger.energy_available,
            final(self).map.ledger.energy_in_use == old(self).map.ledger.energy_in_use,
            r ==> final(self).map.spec_layer(MapLayer::Main) == old(self).map.spec_layer(
                MapLayer::Main,
            ).insert((x as int, y as int), kind),
            r ==> final(self).map.ledger.current@ == debit_recipe(
                old(self).map.ledger.current@,
                old(self).map.ledger.capacity@,
                spec_recipe(kind),
            ),
            r ==> nodes_has(final(self).nodes@, (x as int, y as int)) && nodes_state(
                final(self).nodes@,
                (x as int, y as int),
            ) == (NodeState {
                highlight: HighlightState::Off,
                action: ActionState::Construct(now_ms),
            }),
            r ==> forall|c: (int, int)|
                c != (x as int, y as int) ==> (#[trigger] nodes_has(final(self).nodes@, c)
                    <==> nodes_has(old(self).nodes@, c)),
            r ==> forall|c: (int, int)|
                c != (x as int, y as int) && #[trigger] nodes_has(old(self).nodes@, c)
                    ==> nodes_state(final(self).nodes@, c) == nodes_state(old(self).nodes@, c),
    {
        if !self.map.is_available(x, y, kind) {
            return false;
        }
        self.map.add_room(x, y, kind);
        let recipe = kind.recipe();
        let ghost cur0 = self.map.ledger.current@;
        let ghost cap0 = self.map.ledger.capacity@;
        let ghost main1 = self.map.spec_entries(MapLayer::Main);
        let mut i: usize = 0;
        while i < recipe.len()
            invariant
                self.wf(),
                recipe@ == spec_recipe(kind),
                i <= recipe@.len(),
                self.map.ledger.capacity@ == cap0,
                self.map.ledger.energy_available == old(self).map.ledger.energy_available,
                self.map.ledger.energy_in_use == old(self).map.ledger.energy_in_use,
                self.map.spec_entries(MapLayer::Main) == main1,
                self.map.ledger.current@ == debit_recipe(
                    cur0,
                    cap0,
                    spec_recipe(kind).subrange(0, i as int),
                ),
                self.map.spec_entries(MapLayer::Build) == old(self).map.spec_entries(
                    MapLayer::Build,
                ),
                self.nodes@ == old(self).nodes@,
            decreases recipe@.len() - i,
        {
            let item = recipe[i];
            proof {
                lemma_recipe_bounds(kind);
                assert(item.1 <= 100000);
                assert(spec_recipe(kind).subrange(0, i + 1).drop_last() =~= spec_recipe(
                    kind,
                ).subrange(0, i as int));
                assert(spec_recipe(kind).subrange(0, i + 1).last() == spec_recipe(kind)[i as int]);
            }
            self.map.harvest(item.0, -(item.1 as i64));
            i = i + 1;
        }
        proof {
            assert(spec_recipe(kind).subrange(0, spec_recipe(kind).len() as int) =~= spec_recipe(
                kind,
            ));
        }
        node_upsert(
            &mut self.nodes,
            x,
            y,
            NodeState { highlight: HighlightState::Off, action: ActionState::Construct(now_ms) },
        );
        true
    }
}

impl Simulation {
    /// Confirms destruction of the structure at `(x, y)`: a regular
    /// structure's lifecycle row turns to destruction at once, staggered by
    /// up to half a second. Its cell stays on the `Main` layer — deletion
    /// happens only when the destruction completes, on the lifecycle pass
    /// whose instant reaches the start plus the build duration. Anchors and
    /// empty cells are left alone.
    pub fn destruct_confirm(&mut self, x: i32, y: i32, now_ms: u64)
        requires
            old(self).wf(),
            now_ms + MAX_DESTRUCT_JITTER_MS <= u64::MAX,
        ensures
            final(self).wf(),
            final(self).map == old(self).map,
            !old(self).map.spec_is_room(x as int, y as int, MapLayer::Main) ==> final(self).nodes@
                == old(self).nodes@,
            old(self).map.spec_is_room(x as int, y as int, MapLayer::Main) ==> {
                &&& nodes_has(final(self).nodes@, (x as int, y as int))
                &&& nodes_state(final(self).nodes@, (x as int, y as int)).action matches ActionState::Destruct(t0)
                    && now_ms <= t0 <= now_ms + MAX_DESTRUCT_JITTER_MS
                &&& nodes_state(final(self).nodes@, (x as int, y as int)).highlight == (
                if nodes_has(old(self).nodes@, (x as int, y as int)) {
                    nodes_state(old(self).nodes@, (x as int, y as int)).highlight
                } else {
                    HighlightState::Off
                })
                &&& forall|c: (int, int)|
                    c != (x as int, y as int) ==> (#[trigger] nodes_has(final(self).nodes@, c)
                        <==> nodes_has(old(self).nodes@, c))
                &&& forall|c: (int, int)|
                    c != (x as int, y as int) && #[trigger] nodes_has(old(self).nodes@, c)
                        ==> nodes_state(final(self).nodes@, c) == nodes_state(old(self).nodes@, c)
            },
    {
        if !self.map.is_room(x, y, MapLayer::Main) {
            return ;
        }
        let hl = match self.node_state(x, y) {
            Some(st) => st.highlight,
            None => HighlightState::Off,
        };
        let jit = destruct_jitter_ms();
        node_upsert(
            &mut self.nodes,
            x,
            y,
            NodeState { highlight: hl, action: ActionState::Destruct(now_ms + jit) },
        );
    }

    /// One destruct-mode preview pass: the preview (`Build`) layer is
    /// rebuilt as `Main` minus the cursor cell, and every structure is then
    /// painted from it — still connected on the preview: unmarked; under
    /// the cursor: red; the rest of the doomed set: orange. The committed
    /// layer is not touched: actual removal happens only when a confirmed
    /// destruction completes.
    pub fn destruct_preview(&mut self, cursor: Option<GameCursor>)
        requires
            old(self).wf(),
        ensures
            final(self).wf(),
            final(self).map.spec_entries(MapLayer::Main) == old(self).map.spec_entries(
                MapLayer::Main,
            ),
            final(self).map.ledger == old(self).map.ledger,
            final(self).map.spec_layer(MapLayer::Build) == (match cursor {
                Some(c) => if old(self).map.spec_is_room(c.x as int, c.y as int, MapLayer::Main) {
                    old(self).map.spec_layer(MapLayer::Main).remove((c.x as int, c.y as int))
                } else {
                    old(self).map.spec_layer(MapLayer::Main)
                },
                None => old(self).map.spec_layer(MapLayer::Main),
            }),
            final(self).nodes@.len() == old(self).nodes@.len(),
            forall|k: int|
                0 <= k < old(self).nodes@.len() ==> #[trigger] final(self).nodes@[k] == (
                old(self).nodes@[k].0,
                NodeState {
                    highlight: spec_destruct_highlight(
                        final(self).map.spec_layer(MapLayer::Build),
                        cursor,
                        node_key(old(self).nodes@[k]),
                    ),
                    action: old(self).nodes@[k].1.action,
                },
            ),
    {
        self.map.sync_build();
        match cursor {
            Some(c) => {
                self.map.remove_room(c.x, c.y, MapLayer::Build);
            },
            None => {},
        }
        let keep = self.map.connected_cells(MapLayer::Build, None);
        let ghost map1 = self.map;
        let ghost build_m = self.map.spec_layer(MapLayer::Build);
        let ghost nodes0 = self.nodes@;
        let mut i: usize = 0;
        while i < self.nodes.len()
            invariant
                self.map == map1,
                map1.wf(),
                i <= self.nodes@.len(),
                self.nodes@.len() == nodes0.len(),
                build_m == map1.spec_layer(MapLayer::Build),
                nodes0 == old(self).nodes@,
                nodes_unique(nodes0),
                all_connected(build_m, exclv(None), keep@),
                forall|c: (int, int)|
                    #[trigger] spec_connected(build_m, exclv(None), c) ==> vec_has_cell(keep@, c),
                forall|k: int|
                    0 <= k < i ==> #[trigger] self.nodes@[k] == (
                    nodes0[k].0,
                    NodeState {
                        highlight: spec_destruct_highlight(build_m, cursor, node_key(nodes0[k])),
                        action: nodes0[k].1.action,
                    },
                ),
                forall|k: int| i <= k < nodes0.len() ==> #[trigger] self.nodes@[k] == nodes0[k],
            decreases self.nodes@.len() - i,
        {
            let e = self.nodes[i];
            let connected = vec_contains_cell(&keep, e.0.0, e.0.1);
            proof {
                if vec_has_cell(keep@, node_key(e)) {
                    let k = choose|k: int| 0 <= k < keep@.len() && cellv(keep@[k]) == node_key(e);
                    assert(spec_connected(build_m, exclv(None), cellv(keep@[k])));
                }
                assert(connected == spec_connected(build_m, None, node_key(e)));
            }
            let hl: HighlightState = if connected {
                HighlightState::Off
            } else {
                match cursor {
                    Some(c) => if e.0.0 == c.x && e.0.1 == c.y {
                        HighlightState::Red
                    } else {
                        HighlightState::Orange
                    },
                    None => HighlightState::Orange,
                }
            };
            self.nodes[i] = (e.0, NodeState { highlight: hl, action: e.1.action });
            i = i + 1;
        }
        proof {
            assert(nodes_unique(self.nodes@)) by {
                assert forall|k1: int, k2: int|
                    0 <= k1 < k2 < self.nodes@.len() implies node_key(self.nodes@[k1]) != node_key(
                    self.nodes@[k2],
                ) by {
                    assert(self.nodes@[k1].0 == nodes0[k1].0);
                    assert(self.nodes@[k2].0 == nodes0[k2].0);
                }
            }
        }
    }

    /// One lifecycle pass at instant `now_ms`: connectivity is recomputed
    /// from the `Main` layer; structures found disconnected are forced into
    /// destruction (from idle or mid-construction alike, staggered by up to
    /// half a second each); construction finishes on its timer; idle
    /// structures' highlights follow the selected cell; and every
    /// destruction whose timer has run out ends now — its row leaves the
    /// table and its cell leaves the `Main` layer at this same moment.
    pub fn update_nodes(&mut self, now_ms: u64, selected: Option<(i32, i32)>)
        requires
            old(self).wf(),
            now_ms + MAX_DESTRUCT_JITTER_MS <= u64::MAX,
        ensures
            final(self).wf(),
            final(self).map.spec_layer(MapLayer::Main) == old(self).map.spec_layer(
                MapLayer::Main,
            ).remove_keys(completed_cells(old(self).nodes@, now_ms as int)),
            final(self).map.spec_entries(MapLayer::Build) == old(self).map.spec_entries(
                MapLayer::Build,
            ),
            final(self).map.ledger == old(self).map.ledger,
            exists|js: Seq<int>|
                {
                    &&& js.len() == old(self).nodes@.len()
                    &&& (forall|i: int| 0 <= i < js.len() ==> 0 <= #[trigger] js[i] <= MAX_DESTRUCT_JITTER_MS)
                    &&& final(self).nodes@ == #[trigger] spec_update_nodes(
                        old(self).nodes@,
                        connected_set(old(self).map.spec_layer(MapLayer::Main)),
                        now_ms as int,
                        js,
                        selected,
                    )
                },
    {
        let keep = self.map.connected_cells(MapLayer::Main, None);
        let ghost m0 = self.map.spec_layer(MapLayer::Main);
        let ghost conn = connected_set(m0);
        let ghost nodes0 = self.nodes@;
        let ghost build0 = self.map.spec_entries(MapLayer::Build);
        let ghost ledger0 = self.map.ledger;
        proof {
            assert(m0.remove_keys(completed_cells(nodes0.subrange(0, 0), now_ms as int))
                =~= m0) by {
                assert forall|c: (int, int)|
                    !(#[trigger] has_completed_at(nodes0.subrange(0, 0), c, now_ms as int)) by {
                    if has_completed_at(nodes0.subrange(0, 0), c, now_ms as int) {
                        let k = choose|k: int|
                            0 <= k < nodes0.subrange(0, 0).len() && node_key(
                                #[trigger] nodes0.subrange(0, 0)[k],
                            ) == c && destruct_done(nodes0.subrange(0, 0)[k], now_ms as int);
                    }
                }
            }
        }
        let mut out: Vec<NodeRec> = Vec::new();
        let ghost mut js: Seq<int> = Seq::empty();
        let mut i: usize = 0;
        while i < self.nodes.len()
            invariant
                self.nodes@ == nodes0,
                nodes_unique(nodes0),
                now_ms + MAX_DESTRUCT_JITTER_MS <= u64::MAX,
                i <= nodes0.len(),
                self.map.wf(),
                self.map.spec_entries(MapLayer::Build) == build0,
                self.map.ledger == ledger0,
                self.map.spec_layer(MapLayer::Main) == m0.remove_keys(
                    completed_cells(nodes0.subrange(0, i as int), now_ms as int),
                ),
                conn == connected_set(m0),
                all_connected(m0, exclv(None), keep@),
                forall|c: (int, int)|
                    #[trigger] spec_connected(m0, exclv(None), c) ==> vec_has_cell(keep@, c),
                js.len() == i,
                forall|k: int| 0 <= k < js.len() ==> 0 <= #[trigger] js[k] <= MAX_DESTRUCT_JITTER_MS,
                out@ == spec_update_nodes(
                    nodes0.subrange(0, i as int),
                    conn,
                    now_ms as int,
                    js,
                    selected,
                ),
            decreases nodes0.len() - i,
        {
            let e = self.nodes[i];
            let jit = destruct_jitter_ms();
            let ghost js0 = js;
            let ghost out0 = out@;
            let ghost main_in = self.map.spec_layer(MapLayer::Main);
            proof {
                js = js.push(jit as int);
            }
            let in_conn = vec_contains_cell(&keep, e.0.0, e.0.1);
            proof {
                if vec_has_cell(keep@, node_key(e)) {
                    let k = choose|k: int| 0 <= k < keep@.len() && cellv(keep@[k]) == node_key(e);
                    assert(spec_connected(m0, exclv(None), cellv(keep@[k])));
                }
                assert(in_conn == conn.contains(node_key(e)));
            }
            match e.1.action {
                ActionState::Idle => {
                    let hl: HighlightState = match selected {
                        Some(sc) => if sc.0 == e.0.0 && sc.1 == e.0.1 {
                            HighlightState::White
                        } else {
                            HighlightState::Off
                        },
                        None => HighlightState::Off,
                    };
                    if in_conn {
                        out.push((e.0, NodeState { highlight: hl, action: ActionState::Idle }));
                    } else {
                        out.push(
                            (
                                e.0,
                                NodeState {
                                    highlight: hl,
                                    action: ActionState::Destruct(now_ms + jit),
                                },
                            ),
                        );
                    }
                },
                ActionState::Construct(t0) => {
                    if !in_conn {
                        out.push(
                            (
                                e.0,
                                NodeState {
                                    highlight: e.1.highlight,
                                    action: ActionState::Destruct(now_ms + jit),
                                },
                            ),
                        );
                    } else if now_ms >= BUILD_DURATION_MS && now_ms - BUILD_DURATION_MS >= t0 {
                        out.push(
                            (
                                e.0,
                                NodeState { highlight: e.1.highlight, action: ActionState::Idle },
                            ),
                        );
                    } else {
                        out.push(e);
                    }
                },
                ActionState::Destruct(t0) => {
                    if now_ms >= BUILD_DURATION_MS && now_ms - BUILD_DURATION_MS >= t0 {
                        // The destruction completes: the cell leaves the
                        // committed layer together with its row.
                        self.map.remove(e.0.0, e.0.1, MapLayer::Main);
                    } else {
                        out.push(e);
                    }
                },
            }
            proof {
                let pre = nodes0.subrange(0, i + 1);
                let sub_i = nodes0.subrange(0, i as int);
                assert(pre.drop_last() =~= sub_i);
                assert(pre.last() == nodes0[i as int]);
                assert(e == nodes0[i as int]);
                assert(js[pre.len() - 1] == jit as int);
                assert forall|k: int| 0 <= k < js0.len() implies js[k] == js0[k] by {}
                assert(spec_update_nodes(sub_i, conn, now_ms as int, js, selected) == out0) by {
                    lemma_update_nodes_js_prefix(sub_i, conn, now_ms as int, js0, js, selected);
                }
                match spec_node_update(pre.last(), conn, now_ms as int, jit as int, selected) {
                    Some(e2) => {
                        assert(out@ == out0.push(e2));
                    },
                    None => {
                        assert(out@ == out0);
                    },
                }
                let ci = completed_cells(sub_i, now_ms as int);
                let ci1 = completed_cells(pre, now_ms as int);
                if destruct_done(nodes0[i as int], now_ms as int) {
                    assert(ci1 =~= ci.insert(node_key(e))) by {
                        assert forall|c: (int, int)|
                            #[trigger] has_completed_at(pre, c, now_ms as int) implies has_completed_at(
                            sub_i,
                            c,
                            now_ms as int,
                        ) || c == node_key(e) by {
                            let k = choose|k: int|
                                0 <= k < pre.len() && node_key(#[trigger] pre[k]) == c
                                    && destruct_done(pre[k], now_ms as int);
                            if k < i {
                                assert(pre[k] == sub_i[k]);
                                assert(has_completed_at(sub_i, c, now_ms as int));
                            } else {
                                assert(pre[k] == e);
                            }
                        }
                        assert forall|c: (int, int)|
                            has_completed_at(sub_i, c, now_ms as int) || c == node_key(
                                e,
                            ) implies #[trigger] has_completed_at(pre, c, now_ms as int) by {
                            if has_completed_at(sub_i, c, now_ms as int) {
                                let k = choose|k: int|
                                    0 <= k < sub_i.len() && node_key(#[trigger] sub_i[k]) == c
                                        && destruct_done(sub_i[k], now_ms as int);
                                assert(pre[k] == sub_i[k]);
                            } else {
                                assert(pre[i as int] == e);
                            }
                        }
                    }
                    assert(self.map.spec_layer(MapLayer::Main) =~= m0.remove_keys(ci1)) by {
                        assert(self.map.spec_layer(MapLayer::Main) == main_in.remove(node_key(e)));
                        assert(main_in == m0.remove_keys(ci));
                    }
                } else {
                    assert(ci1 =~= ci) by {
                        assert forall|c: (int, int)|
                            #[trigger] has_completed_at(pre, c, now_ms as int) implies has_completed_at(
                            sub_i,
                            c,
                            now_ms as int,
                        ) by {
                            let k = choose|k: int|
                                0 <= k < pre.len() && node_key(#[trigger] pre[k]) == c
                                    && destruct_done(pre[k], now_ms as int);
                            if k < i {
                                assert(pre[k] == sub_i[k]);
                                assert(has_completed_at(sub_i, c, now_ms as int));
                            } else {
                                assert(pre[k] == e);
                            }
                        }
                        assert forall|c: (int, int)|
                            #[trigger] has_completed_at(sub_i, c, now_ms as int) implies has_completed_at(
                            pre,
                            c,
                            now_ms as int,
                        ) by {
                            let k = choose|k: int|
                                0 <= k < sub_i.len() && node_key(#[trigger] sub_i[k]) == c
                                    && destruct_done(sub_i[k], now_ms as int);
                            assert(pre[k] == sub_i[k]);
                        }
                    }
                }
            }
            i = i + 1;
        }
        proof {
            assert(nodes0.subrange(0, nodes0.len() as int) =~= nodes0);
            lemma_update_nodes_unique(nodes0, conn, now_ms as int, js, selected);
        }
        self.nodes = out;
    }

    /// The lifecycle state recorded for the structure at `(x, y)`, if any.
    pub fn node_state(&self, x: i32, y: i32) -> (r: Option<NodeState>)
        requires
            self.wf(),
        ensures
            r == if nodes_has(self.nodes@, (x as int, y as int)) {
                Some(nodes_state(self.nodes@, (x as int, y as int)))
            } else {
                Option::<NodeState>::None
            },
    {
        match node_find(&self.nodes, x, y) {
            Some(i) => {
                proof {
                    lemma_node_index_unique(self.nodes@, i as int);
                }
                Some(self.nodes[i].1)
            },
            None => None,
        }
    }

    /// One full simulation tick: the economy recomputes and converts, then
    /// the lifecycle pass recomputes connectivity from the `Main` layer,
    /// advances every structure's state and deletes completed destructions
    /// from `Main`.
    pub fn step(&mut self, now_ms: u64, delta_ms: u64, selected: Option<(i32, i32)>)
        requires
            old(self).wf(),
            delta_ms <= MAX_TICK_MS,
            now_ms + MAX_DESTRUCT_JITTER_MS <= u64::MAX,
        ensures
            final(self).wf(),
            final(self).map.ledger.energy_available == total_gen(old(self).map.main@),
            final(self).map.ledger.energy_in_use == total_use(old(self).map.main@),
            final(self).map.ledger.capacity@ == caps_of(old(self).map.main@),
            final(self).map.ledger.current@ == ({
                let clamped = clamp_all(old(self).map.ledger.current@, caps_of(old(self).map.main@));
                if total_gen(old(self).map.main@) > total_use(old(self).map.main@) {
                    run_conversions(
                        clamped,
                        caps_of(old(self).map.main@),
                        kinds_of(old(self).map.main@),
                        delta_ms as int,
                    )
                } else {
                    clamped
                }
            }),
            final(self).map.spec_layer(MapLayer::Main) == old(self).map.spec_layer(
                MapLayer::Main,
            ).remove_keys(completed_cells(old(self).nodes@, now_ms as int)),
            final(self).map.spec_entries(MapLayer::Build) == old(self).map.spec_entries(
                MapLayer::Build,
            ),
            exists|js: Seq<int>|
                {
                    &&& js.len() == old(self).nodes@.len()
                    &&& (forall|i: int| 0 <= i < js.len() ==> 0 <= #[trigger] js[i] <= MAX_DESTRUCT_JITTER_MS)
                    &&& final(self).nodes@ == #[trigger] spec_update_nodes(
                        old(self).nodes@,
                        connected_set(old(self).map.spec_layer(MapLayer::Main)),
                        now_ms as int,
                        js,
                        selected,
                    )
                },
    {
        self.map.tick(delta_ms);
        proof {
            assert(self.map.spec_layer(MapLayer::Main) == old(self).map.spec_layer(
                MapLayer::Main,
            ));
            assert(self.map.spec_entries(MapLayer::Build) == old(self).map.spec_entries(
                MapLayer::Build,
            ));
            assert(self.nodes@ == old(self).nodes@);
        }
        self.update_nodes(now_ms, selected);
    }
}

/// A lifecycle pass reads only the stagger entries for the rows it has:
/// extending the stagger sequence does not change the result.
proof fn lemma_update_nodes_js_prefix(
    s: Seq<NodeRec>,
    conn: Set<(int, int)>,
    now: int,
    js0: Seq<int>,
    js1: Seq<int>,
    selected: Option<(i32, i32)>,
)
    requires
        s.len() <= js0.len(),
        forall|k: int| 0 <= k < js0.len() ==> js1[k] == js0[k],
    ensures
        spec_update_nodes(s, conn, now, js1, selected) == spec_update_nodes(
            s,
            conn,
            now,
            js0,
            selected,
        ),
    decreases s.len(),
{
    if s.len() == 0 {
    } else {
        lemma_update_nodes_js_prefix(s.drop_last(), conn, now, js0, js1, selected);
        assert(js1[s.len() - 1] == js0[s.len() - 1]);
    }
}

/// The meta-state after one input pass: Escape toggles pause.
pub open spec fn spec_game_next(g: GameState, esc_pressed: bool) -> GameState {
    if esc_pressed {
        match g {
            GameState::Idle => GameState::Pause,
            GameState::Pause => GameState::Idle,
        }
    } else {
        g
    }
}

/// Player intent changes that do not involve the cursor: the destruct key
/// toggles destruct mode, a right click falls back to idle.
pub open spec fn spec_player_buttons(
    p: PlayerState,
    d_pressed: bool,
    right_click: bool,
) -> PlayerState {
    if d_pressed {
        if p == PlayerState::Destruct {
            PlayerState::Idle
        } else {
            PlayerState::Destruct
        }
    } else if right_click {
        PlayerState::Idle
    } else {
        p
    }
}

/// The player intent after one input pass: clicking an occupied cell while
/// idle starts an interaction; otherwise the button rules apply.
pub open spec fn spec_player_next(
    p: PlayerState,
    d_pressed: bool,
    right_click: bool,
    cursor: Option<GameCursor>,
    m: Map<(int, int), MapNode>,
) -> PlayerState {
    match cursor {
        Some(c) => if p == PlayerState::Idle && c.just_pressed && m.dom().contains(
            (c.x as int, c.y as int),
        ) {
            PlayerState::Interact(c.x, c.y)
        } else {
            spec_player_buttons(p, d_pressed, right_click)
        },
        None => spec_player_buttons(p, d_pressed, right_click),
    }
}

/// One pass over the frame's input: returns the next meta-state and player
/// intent from the pressed keys, the mouse and the cursor reading.
pub fn listen_inputs(
    game_state: GameState,
    player_state: PlayerState,
    esc_pressed: bool,
    d_pressed: bool,
    right_click: bool,
    cursor: Option<GameCursor>,
    map: &MapState,
) -> (r: (GameState, PlayerState))
    requires
        map.wf(),
    ensures
        r.0 == spec_game_next(game_state, esc_pressed),
        r.1 == spec_player_next(
            player_state,
            d_pressed,
            right_click,
            cursor,
            map.spec_layer(MapLayer::Main),
        ),
{
    let g = if esc_pressed {
        match game_state {
            GameState::Idle => GameState::Pause,
            GameState::Pause => GameState::Idle,
        }
    } else {
        game_state
    };
    let interact: Option<(i32, i32)> = match cursor {
        Some(c) => {
            if matches!(player_state, PlayerState::Idle) && c.just_pressed && map.is_node(
                c.x,
                c.y,
                MapLayer::Main,
            ) {
                Some((c.x, c.y))
            } else {
                None
            }
        },
        None => None,
    };
    let p = match interact {
        Some(cell) => PlayerState::Interact(cell.0, cell.1),
        None => {
            if d_pressed {
                if matches!(player_state, PlayerState::Destruct) {
                    PlayerState::Idle
                } else {
                    PlayerState::Destruct
                }
            } else if right_click {
                PlayerState::Idle
            } else {
                player_state
            }
        },
    };
    (g, p)
}

} // verus!
