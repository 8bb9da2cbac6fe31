//! The layered map store: per layer, a mapping from cell coordinate to
//! placed structure kind, held as a duplicate-free vector of entries and
//! modeled as a `Map<(int, int), MapNode>`. Also owns the derived bounding
//! box and the colony's cargo ledger.

use vstd::prelude::*;
use crate::economy::Ledger;
use crate::kind::{MapNode, CARGO_KINDS};

verus! {

/// One of the two placement universes: `Main` is authoritative, `Build` is
/// the per-tick preview used for what-if evaluation.
#[derive(Clone, Copy, Debug, Hash, PartialEq, Eq, Structural)]
pub enum MapLayer {
    Main,
    Build,
}

/// One placed structure: its cell and its kind.
pub type Entry = ((i32, i32), MapNode);

/// Largest magnitude a cell coordinate may have; keeps neighbor arithmetic
/// and bounding boxes away from `i32` overflow.
pub const MAX_COORD: i32 = 1000000;

/// Largest number of structures one layer may hold; keeps ledger sums away
/// from `u64` overflow.
pub const MAX_CELLS: usize = 1000000;

/// Mathematical cell of an entry.
pub open spec fn entry_key(e: Entry) -> (int, int) {
    (e.0.0 as int, e.0.1 as int)
}

/// Mathematical cell of an executable cell pair.
pub open spec fn cellv(c: (i32, i32)) -> (int, int) {
    (c.0 as int, c.1 as int)
}

/// Whether some entry of `s` sits at cell `c`.
pub open spec fn seq_has_key(s: Seq<Entry>, c: (int, int)) -> bool {
    exists|i: int| 0 <= i < s.len() && entry_key(s[i]) == c
}

/// Index of the entry of `s` at cell `c` (unique when entries are distinct).
pub open spec fn seq_index_of(s: Seq<Entry>, c: (int, int)) -> int {
    choose|i: int| 0 <= i < s.len() && entry_key(s[i]) == c
}

/// Kind of the entry of `s` at cell `c`.
pub open spec fn seq_kind_at(s: Seq<Entry>, c: (int, int)) -> MapNode {
    s[seq_index_of(s, c)].1
}

/// No two entries share a cell.
pub open spec fn entries_unique(s: Seq<Entry>) -> bool {
    forall|i: int, j: int| 0 <= i < j < s.len() ==> entry_key(s[i]) != entry_key(s[j])
}

/// Every entry's coordinates stay within `MAX_COORD`.
pub open spec fn coords_bounded(s: Seq<Entry>) -> bool {
    forall|i: int|
        0 <= i < s.len() ==> -MAX_COORD <= (#[trigger] s[i]).0.0 <= MAX_COORD && -MAX_COORD
            <= s[i].0.1 <= MAX_COORD
}

/// Well-formed entry vector: duplicate-free, bounded coordinates, bounded
/// population.
pub open spec fn layer_wf(s: Seq<Entry>) -> bool {
    &&& entries_unique(s)
    &&& coords_bounded(s)
    &&& s.len() <= MAX_CELLS
}

/// The mapping from cells to structure kinds that an entry vector holds.
pub open spec fn map_of(s: Seq<Entry>) -> Map<(int, int), MapNode> {
    Map::new(|c: (int, int)| seq_has_key(s, c), |c: (int, int)| seq_kind_at(s, c))
}

/// In a duplicate-free entry vector, the entry at `s[i]`'s cell is `s[i]`
/// itself.
pub proof fn lemma_index_unique(s: Seq<Entry>, i: int)
    requires
        entries_unique(s),
        0 <= i < s.len(),
    ensures
        seq_has_key(s, entry_key(s[i])),
        seq_index_of(s, entry_key(s[i])) == i,
        seq_kind_at(s, entry_key(s[i])) == s[i].1,
{
    let c = entry_key(s[i]);
    assert(seq_has_key(s, c));
    let j = seq_index_of(s, c);
    assert(0 <= j < s.len() && entry_key(s[j]) == c);
    if j < i {
        assert(entry_key(s[j]) != entry_key(s[i]));
        assert(false);
    } else if j > i {
        assert(entry_key(s[i]) != entry_key(s[j]));
        assert(false);
    }
}

/// Appending an entry at a fresh cell extends the mapping by that cell.
pub proof fn lemma_map_of_push(s: Seq<Entry>, e: Entry)
    requires
        entries_unique(s),
        !seq_has_key(s, entry_key(e)),
    ensures
        entries_unique(s.push(e)),
        map_of(s.push(e)) == map_of(s).insert(entry_key(e), e.1),
{
    let s2 = s.push(e);
    let k = entry_key(e);
    assert forall|i: int, j: int| 0 <= i < j < s2.len() implies entry_key(s2[i]) != entry_key(
        s2[j],
    ) by {
        if j == s.len() {
            assert(s2[j] == e);
            assert(s2[i] == s[i]);
            if entry_key(s[i]) == k {
                assert(seq_has_key(s, k));
            }
        } else {
            assert(s2[i] == s[i]);
            assert(s2[j] == s[j]);
        }
    }
    assert forall|c: (int, int)| #[trigger] seq_has_key(s2, c) implies seq_has_key(s, c) || c
        == k by {
        let i = seq_index_of(s2, c);
        assert(0 <= i < s2.len() && entry_key(s2[i]) == c);
        if i < s.len() {
            assert(s2[i] == s[i]);
            assert(seq_has_key(s, c));
        } else {
            assert(s2[i] == e);
        }
    }
    assert forall|c: (int, int)| #[trigger] seq_has_key(s, c) implies seq_has_key(s2, c) by {
        let i = seq_index_of(s, c);
        assert(0 <= i < s.len() && entry_key(s[i]) == c);
        assert(s2[i] == s[i]);
        assert(seq_has_key(s2, c));
    }
    assert(seq_has_key(s2, k)) by {
        assert(s2[s.len() as int] == e);
        lemma_index_unique(s2, s.len() as int);
    }
    assert forall|c: (int, int)| #[trigger] seq_has_key(s2, c) implies seq_kind_at(s2, c) == (
    if c == k {
        e.1
    } else {
        seq_kind_at(s, c)
    }) by {
        if c == k {
            assert(s2[s.len() as int] == e);
            lemma_index_unique(s2, s.len() as int);
        } else {
            let i = seq_index_of(s, c);
            assert(0 <= i < s.len() && entry_key(s[i]) == c);
            assert(s2[i] == s[i]);
            lemma_index_unique(s2, i);
            lemma_index_unique(s, i);
        }
    }
    assert(map_of(s.push(e)) =~= map_of(s).insert(entry_key(e), e.1));
}

/// Removing the entry at index `i` removes exactly its cell from the
/// mapping.
pub proof fn lemma_map_of_remove(s: Seq<Entry>, i: int)
    requires
        entries_unique(s),
        0 <= i < s.len(),
    ensures
        entries_unique(s.remove(i)),
        map_of(s.remove(i)) == map_of(s).remove(entry_key(s[i])),
{
    let s2 = s.remove(i);
    let k = entry_key(s[i]);
    s.remove_ensures(i);
    assert forall|a: int, b: int| 0 <= a < b < s2.len() implies entry_key(s2[a]) != entry_key(
        s2[b],
    ) by {
        let a0: int = if a < i {
            a
        } else {
            a + 1
        };
        let b0: int = if b < i {
            b
        } else {
            b + 1
        };
        assert(s2[a] == s[a0]);
        assert(s2[b] == s[b0]);
        assert(entry_key(s[a0]) != entry_key(s[b0]));
    }
    assert forall|c: (int, int)| #[trigger] seq_has_key(s2, c) implies seq_has_key(s, c) && c
        != k by {
        let j = seq_index_of(s2, c);
        assert(0 <= j < s2.len() && entry_key(s2[j]) == c);
        let j0: int = if j < i {
            j
        } else {
            j + 1
        };
        assert(s2[j] == s[j0]);
        assert(seq_has_key(s, c)) by {
            lemma_index_unique(s, j0);
        }
        if c == k {
            assert(entry_key(s[j0]) == entry_key(s[i]));
            assert(j0 != i);
            if j0 < i {
                assert(entry_key(s[j0]) != entry_key(s[i]));
            } else {
                assert(entry_key(s[i]) != entry_key(s[j0]));
            }
            assert(false);
        }
    }
    assert forall|c: (int, int)| seq_has_key(s, c) && c != k implies #[trigger] seq_has_key(
        s2,
        c,
    ) && seq_kind_at(s2, c) == seq_kind_at(s, c) by {
        let j = seq_index_of(s, c);
        assert(0 <= j < s.len() && entry_key(s[j]) == c);
        assert(j != i);
        let j2: int = if j < i {
            j
        } else {
            j - 1
        };
        assert(s2[j2] == s[j]);
        lemma_index_unique(s2, j2);
        lemma_index_unique(s, j);
    }
    assert(map_of(s.remove(i)) =~= map_of(s).remove(k));
}

/// A duplicate-free entry vector's mapping has exactly one cell per entry.
pub proof fn lemma_map_of_len(s: Seq<Entry>)
    requires
        entries_unique(s),
    ensures
        map_of(s).dom().finite(),
        map_of(s).dom().len() == s.len(),
    decreases s.len(),
{
    if s.len() == 0 {
        assert(map_of(s).dom() =~= Set::<(int, int)>::empty());
    } else {
        let s1 = s.drop_last();
        let e = s.last();
        assert(s == s1.push(e));
        assert(entries_unique(s1));
        assert(!seq_has_key(s1, entry_key(e))) by {
            if seq_has_key(s1, entry_key(e)) {
                let j = seq_index_of(s1, entry_key(e));
                assert(0 <= j < s1.len() && entry_key(s1[j]) == entry_key(e));
                assert(s[j] == s1[j]);
                assert(entry_key(s[j]) != entry_key(s[s.len() - 1]));
            }
        }
        lemma_map_of_push(s1, e);
        lemma_map_of_len(s1);
        assert(map_of(s).dom() =~= map_of(s1).dom().insert(entry_key(e)));
    }
}

/// Finds the position of the entry at cell `(x, y)`, if any.
pub(crate) fn find_index(v: &Vec<Entry>, x: i32, y: i32) -> (r: Option<usize>)
    ensures
        match r {
            Some(i) => i < v@.len() && entry_key(v@[i as int]) == (x as int, y as int),
            None => !seq_has_key(v@, (x as int, y as int)),
        },
{
    let mut i: usize = 0;
    while i < v.len()
        invariant
            i <= v@.len(),
            forall|j: int| 0 <= j < i ==> entry_key(#[trigger] v@[j]) != (x as int, y as int),
        decreases v@.len() - i,
    {
        let e = v[i];
        if e.0.0 == x && e.0.1 == y {
            return Some(i);
        }
        i = i + 1;
    }
    proof {
        if seq_has_key(v@, (x as int, y as int)) {
            let j = seq_index_of(v@, (x as int, y as int));
            assert(0 <= j < v@.len() && entry_key(v@[j]) == (x as int, y as int));
        }
    }
    None
}

/// Inserts or overwrites the entry at cell `(x, y)`.
fn place_in(v: &mut Vec<Entry>, x: i32, y: i32, kind: MapNode)
    requires
        layer_wf(old(v)@),
        -MAX_COORD <= x <= MAX_COORD,
        -MAX_COORD <= y <= MAX_COORD,
        seq_has_key(old(v)@, (x as int, y as int)) || old(v)@.len() < MAX_CELLS,
    ensures
        layer_wf(final(v)@),
        map_of(final(v)@) == map_of(old(v)@).insert((x as int, y as int), kind),
        old(v)@.len() <= final(v)@.len() <= old(v)@.len() + 1,
{
    match find_index(v, x, y) {
        Some(i) => {
            let ghost s0 = v@;
            let e = v.remove(i);
            proof {
                lemma_map_of_remove(s0, i as int);
                assert(!seq_has_key(v@, (x as int, y as int))) by {
                    assert(map_of(v@) == map_of(s0).remove((x as int, y as int)));
                    if seq_has_key(v@, (x as int, y as int)) {
                        assert(map_of(v@).dom().contains((x as int, y as int)));
                    }
                }
            }
            let ghost s1 = v@;
            v.push(((x, y), kind));
            proof {
                lemma_map_of_push(s1, ((x, y), kind));
                assert(map_of(v@) =~= map_of(s0).insert((x as int, y as int), kind));
            }
        },
        None => {
            let ghost s0 = v@;
            v.push(((x, y), kind));
            proof {
                lemma_map_of_push(s0, ((x, y), kind));
            }
        },
    }
}

/// Removes the entry at cell `(x, y)`; does nothing when the cell is empty.
fn remove_in(v: &mut Vec<Entry>, x: i32, y: i32)
    requires
        layer_wf(old(v)@),
    ensures
        layer_wf(final(v)@),
        map_of(final(v)@) == map_of(old(v)@).remove((x as int, y as int)),
        final(v)@.len() <= old(v)@.len(),
{
    match find_index(v, x, y) {
        Some(i) => {
            let ghost s0 = v@;
            let _ = v.remove(i);
            proof {
                lemma_map_of_remove(s0, i as int);
            }
        },
        None => {
            proof {
                assert(!map_of(v@).dom().contains((x as int, y as int)));
                assert(map_of(v@) =~= map_of(v@).remove((x as int, y as int)));
            }
        },
    }
}

/// Whether some layer holds cell `c`.
pub open spec fn in_layers(main: Seq<Entry>, build: Seq<Entry>, c: (int, int)) -> bool {
    seq_has_key(main, c) || seq_has_key(build, c)
}

/// The bounding box is exactly the componentwise minimum and maximum over
/// the cells of both layers; an empty store has the inverted box.
pub open spec fn bounds_ok(
    main: Seq<Entry>,
    build: Seq<Entry>,
    bmin: (i32, i32),
    bmax: (i32, i32),
) -> bool {
    &&& forall|c: (int, int)|
        #[trigger] in_layers(main, build, c) ==> bmin.0 <= c.0 <= bmax.0 && bmin.1 <= c.1
            <= bmax.1
    &&& (main.len() == 0 && build.len() == 0) ==> bmin == (i32::MAX, i32::MAX) && bmax == (
    i32::MIN,
    i32::MIN,
    )
    &&& (main.len() != 0 || build.len() != 0) ==> {
        &&& exists|c: (int, int)| #[trigger] in_layers(main, build, c) && c.0 == bmin.0
        &&& exists|c: (int, int)| #[trigger] in_layers(main, build, c) && c.1 == bmin.1
        &&& exists|c: (int, int)| #[trigger] in_layers(main, build, c) && c.0 == bmax.0
        &&& exists|c: (int, int)| #[trigger] in_layers(main, build, c) && c.1 == bmax.1
    }
}

/// Folds a vector of entries into running componentwise bounds.
fn scan_bounds(v: &Vec<Entry>, mn: (i32, i32), mx: (i32, i32)) -> (r: ((i32, i32), (i32, i32)))
    ensures
        r.0.0 <= mn.0 && r.0.1 <= mn.1 && r.1.0 >= mx.0 && r.1.1 >= mx.1,
        forall|i: int|
            0 <= i < v@.len() ==> r.0.0 <= (#[trigger] v@[i]).0.0 && v@[i].0.0 <= r.1.0 && r.0.1
                <= v@[i].0.1 && v@[i].0.1 <= r.1.1,
        r.0.0 == mn.0 || exists|i: int| 0 <= i < v@.len() && (#[trigger] v@[i]).0.0 == r.0.0,
        r.0.1 == mn.1 || exists|i: int| 0 <= i < v@.len() && (#[trigger] v@[i]).0.1 == r.0.1,
        r.1.0 == mx.0 || exists|i: int| 0 <= i < v@.len() && (#[trigger] v@[i]).0.0 == r.1.0,
        r.1.1 == mx.1 || exists|i: int| 0 <= i < v@.len() && (#[trigger] v@[i]).0.1 == r.1.1,
{
    let mut mnx = mn.0;
    let mut mny = mn.1;
    let mut mxx = mx.0;
    let mut mxy = mx.1;
    let mut i: usize = 0;
    while i < v.len()
        invariant
            i <= v@.len(),
            mnx <= mn.0 && mny <= mn.1 && mxx >= mx.0 && mxy >= mx.1,
            forall|j: int|
                0 <= j < i ==> mnx <= (#[trigger] v@[j]).0.0 && v@[j].0.0 <= mxx && mny
                    <= v@[j].0.1 && v@[j].0.1 <= mxy,
            mnx == mn.0 || exists|j: int| 0 <= j < i && (#[trigger] v@[j]).0.0 == mnx,
            mny == mn.1 || exists|j: int| 0 <= j < i && (#[trigger] v@[j]).0.1 == mny,
            mxx == mx.0 || exists|j: int| 0 <= j < i && (#[trigger] v@[j]).0.0 == mxx,
            mxy == mx.1 || exists|j: int| 0 <= j < i && (#[trigger] v@[j]).0.1 == mxy,
        decreases v@.len() - i,
    {
        let e = v[i];
        if e.0.0 < mnx {
            mnx = e.0.0;
        }
        if e.0.1 < mny {
            mny = e.0.1;
        }
        if e.0.0 > mxx {
            mxx = e.0.0;
        }
        if e.0.1 > mxy {
            mxy = e.0.1;
        }
        i = i + 1;
    }
    ((mnx, mny), (mxx, mxy))
}

/// The layered map store: the committed `Main` layer, the preview `Build`
/// layer, the bounding box over both, and the colony's cargo ledger.
pub struct MapState {
    pub main: Vec<Entry>,
    pub build: Vec<Entry>,
    pub bounds_min: (i32, i32),
    pub bounds_max: (i32, i32),
    pub ledger: Ledger,
}

impl Default for MapState {
    /// Same as `MapState::new`: an empty store.
    fn default() -> (r: MapState)
        ensures
            r.wf(),
            r.spec_layer(MapLayer::Main) == Map::<(int, int), MapNode>::empty(),
            r.spec_layer(MapLayer::Build) == Map::<(int, int), MapNode>::empty(),
    {
        MapState::new()
    }
}

/// The layer that is not `l`.
pub open spec fn other_layer(l: MapLayer) -> MapLayer {
    match l {
        MapLayer::Main => MapLayer::Build,
        MapLayer::Build => MapLayer::Main,
    }
}

/// A cell is free for placement of `k`: an `EmptyRoom` may go on any empty
/// cell with an occupied orthogonal neighbor; any other kind must fill a
/// cell holding an `EmptyRoom`.
pub open spec fn spec_is_available(
    m: Map<(int, int), MapNode>,
    x: int,
    y: int,
    k: MapNode,
) -> bool {
    match k {
        MapNode::EmptyRoom => !m.dom().contains((x, y)) && (m.dom().contains((x + 1, y))
            || m.dom().contains((x - 1, y)) || m.dom().contains((x, y + 1)) || m.dom().contains(
            (x, y - 1),
        )),
        _ => m.dom().contains((x, y)) && m[(x, y)] == MapNode::EmptyRoom,
    }
}

impl MapState {
    /// Entry vector of a layer.
    pub open spec fn spec_entries(&self, l: MapLayer) -> Seq<Entry> {
        match l {
            MapLayer::Main => self.main@,
            MapLayer::Build => self.build@,
        }
    }

    /// Cell-to-kind mapping of a layer.
    pub open spec fn spec_layer(&self, l: MapLayer) -> Map<(int, int), MapNode> {
        map_of(self.spec_entries(l))
    }

    /// Well-formed store: both layers duplicate-free and bounded, the
    /// bounding box exact, the ledger well formed.
    pub open spec fn wf(&self) -> bool {
        &&& layer_wf(self.main@)
        &&& layer_wf(self.build@)
        &&& bounds_ok(self.main@, self.build@, self.bounds_min, self.bounds_max)
        &&& self.ledger.wf()
    }

    /// An empty store: no structures, inverted bounding box, zeroed ledger.
    pub fn new() -> (r: MapState)
        ensures
            r.wf(),
            r.spec_layer(MapLayer::Main) == Map::<(int, int), MapNode>::empty(),
            r.spec_layer(MapLayer::Build) == Map::<(int, int), MapNode>::empty(),
            r.spec_entries(MapLayer::Main).len() == 0,
            r.spec_entries(MapLayer::Build).len() == 0,
            r.ledger.wf(),
            r.ledger.energy_available == 0,
            r.ledger.energy_in_use == 0,
            forall|i: int| 0 <= i < CARGO_KINDS ==> #[trigger] r.ledger.current@[i] == 0,
            forall|i: int| 0 <= i < CARGO_KINDS ==> #[trigger] r.ledger.capacity@[i] == 0,
    {
        let r = MapState {
            main: Vec::new(),
            build: Vec::new(),
            bounds_min: (i32::MAX, i32::MAX),
            bounds_max: (i32::MIN, i32::MIN),
            ledger: Ledger::new(),
        };
        proof {
            assert(map_of(r.main@) =~= Map::<(int, int), MapNode>::empty());
            assert(map_of(r.build@) =~= Map::<(int, int), MapNode>::empty());
        }
        r
    }

    /// Recomputes the bounding box from both layers.
    pub(crate) fn recalculate_bounds(&mut self)
        requires
            layer_wf(old(self).main@),
            layer_wf(old(self).build@),
        ensures
            final(self).main == old(self).main,
            final(self).build == old(self).build,
            final(self).ledger == old(self).ledger,
            bounds_ok(
                final(self).main@,
                final(self).build@,
                final(self).bounds_min,
                final(self).bounds_max,
            ),
    {
        let (mn1, mx1) = scan_bounds(&self.main, (i32::MAX, i32::MAX), (i32::MIN, i32::MIN));
        let (mn2, mx2) = scan_bounds(&self.build, mn1, mx1);
        self.bounds_min = mn2;
        self.bounds_max = mx2;
        proof {
            let main = self.main@;
            let build = self.build@;
            assert forall|c: (int, int)| #[trigger] in_layers(main, build, c) implies mn2.0 <= c.0
                <= mx2.0 && mn2.1 <= c.1 <= mx2.1 by {
                if seq_has_key(main, c) {
                    let i = seq_index_of(main, c);
                    assert(0 <= i < main.len() && entry_key(main[i]) == c);
                } else {
                    let i = seq_index_of(build, c);
                    assert(0 <= i < build.len() && entry_key(build[i]) == c);
                }
            }
            if main.len() != 0 || build.len() != 0 {
                // Each bound is attained by some cell: were it still at its
                // inverted start, it could not cover the bounded coordinates
                // of an existing entry.
                let w: (int, int) = if main.len() != 0 {
                    entry_key(main[0])
                } else {
                    entry_key(build[0])
                };
                assert(in_layers(main, build, w));
                assert(mn2.0 != i32::MAX && mn2.1 != i32::MAX && mx2.0 != i32::MIN && mx2.1
                    != i32::MIN);
                assert(exists|c: (int, int)| #[trigger] in_layers(main, build, c) && c.0
                    == mn2.0) by {
                    if exists|i: int| 0 <= i < build.len() && (#[trigger] build[i]).0.0 == mn2.0 {
                        let i = choose|i: int|
                            0 <= i < build.len() && (#[trigger] build[i]).0.0 == mn2.0;
                        lemma_index_unique(build, i);
                        assert(in_layers(main, build, entry_key(build[i])));
                    } else {
                        let i = choose|i: int|
                            0 <= i < main.len() && (#[trigger] main[i]).0.0 == mn2.0;
                        lemma_index_unique(main, i);
                        assert(in_layers(main, build, entry_key(main[i])));
                    }
                }
                assert(exists|c: (int, int)| #[trigger] in_layers(main, build, c) && c.1
                    == mn2.1) by {
                    if exists|i: int| 0 <= i < build.len() && (#[trigger] build[i]).0.1 == mn2.1 {
                        let i = choose|i: int|
                            0 <= i < build.len() && (#[trigger] build[i]).0.1 == mn2.1;
                        lemma_index_unique(build, i);
                        assert(in_layers(main, build, entry_key(build[i])));
                    } else {
                        let i = choose|i: int|
                            0 <= i < main.len() && (#[trigger] main[i]).0.1 == mn2.1;
                        lemma_index_unique(main, i);
                        assert(in_layers(main, build, entry_key(main[i])));
                    }
                }
                assert(exists|c: (int, int)| #[trigger] in_layers(main, build, c) && c.0
                    == mx2.0) by {
                    if exists|i: int| 0 <= i < build.len() && (#[trigger] build[i]).0.0 == mx2.0 {
                        let i = choose|i: int|
                            0 <= i < build.len() && (#[trigger] build[i]).0.0 == mx2.0;
                        lemma_index_unique(build, i);
                        assert(in_layers(main, build, entry_key(build[i])));
                    } else {
                        let i = choose|i: int|
                            0 <= i < main.len() && (#[trigger] main[i]).0.0 == mx2.0;
                        lemma_index_unique(main, i);
                        assert(in_layers(main, build, entry_key(main[i])));
                    }
                }
                assert(exists|c: (int, int)| #[trigger] in_layers(main, build, c) && c.1
                    == mx2.1) by {
                    if exists|i: int| 0 <= i < build.len() && (#[trigger] build[i]).0.1 == mx2.1 {
                        let i = choose|i: int|
                            0 <= i < build.len() && (#[trigger] build[i]).0.1 == mx2.1;
                        lemma_index_unique(build, i);
                        assert(in_layers(main, build, entry_key(build[i])));
                    } else {
                        let i = choose|i: int|
                            0 <= i < main.len() && (#[trigger] main[i]).0.1 == mx2.1;
                        lemma_index_unique(main, i);
                        assert(in_layers(main, build, entry_key(main[i])));
                    }
                }
            }
        }
    }

    /// Inserts or overwrites the structure at `(x, y)` on `layer`.
    fn add(&mut self, x: i32, y: i32, node: MapNode, layer: MapLayer)
        requires
            old(self).wf(),
            -MAX_COORD <= x <= MAX_COORD,
            -MAX_COORD <= y <= MAX_COORD,
            old(self).spec_layer(layer).dom().contains((x as int, y as int)) || old(
                self,
            ).spec_entries(layer).len() < MAX_CELLS,
        ensures
            final(self).wf(),
            final(self).spec_layer(layer) == old(self).spec_layer(layer).insert(
                (x as int, y as int),
                node,
            ),
            final(self).spec_entries(other_layer(layer)) == old(self).spec_entries(
                other_layer(layer),
            ),
            final(self).ledger == old(self).ledger,
            final(self).spec_entries(layer).len() <= old(self).spec_entries(layer).len() + 1,
    {
        match layer {
            MapLayer::Main => place_in(&mut self.main, x, y, node),
            MapLayer::Build => place_in(&mut self.build, x, y, node),
        }
        self.recalculate_bounds();
    }

    /// Removes whatever structure sits at `(x, y)` on `layer`; a no-op when
    /// the cell is empty. Crate-internal: the lifecycle pass uses it to
    /// delete a cell at the instant its destruction completes.
    pub(crate) fn remove(&mut self, x: i32, y: i32, layer: MapLayer)
        requires
            old(self).wf(),
        ensures
            final(self).wf(),
            final(self).spec_layer(layer) == old(self).spec_layer(layer).remove(
                (x as int, y as int),
            ),
            final(self).spec_entries(other_layer(layer)) == old(self).spec_entries(
                other_layer(layer),
            ),
            final(self).ledger == old(self).ledger,
            final(self).spec_entries(layer).len() <= old(self).spec_entries(layer).len(),
    {
        match layer {
            MapLayer::Main => remove_in(&mut self.main, x, y),
            MapLayer::Build => remove_in(&mut self.build, x, y),
        }
        self.recalculate_bounds();
    }

    /// Places the network anchor at `(x, y)` on the `Main` layer.
    pub fn add_primary_block(&mut self, x: i32, y: i32)
        requires
            old(self).wf(),
            -MAX_COORD <= x <= MAX_COORD,
            -MAX_COORD <= y <= MAX_COORD,
            old(self).spec_layer(MapLayer::Main).dom().contains((x as int, y as int)) || old(
                self,
            ).spec_entries(MapLayer::Main).len() < MAX_CELLS,
        ensures
            final(self).wf(),
            final(self).spec_layer(MapLayer::Main) == old(self).spec_layer(MapLayer::Main).insert(
                (x as int, y as int),
                MapNode::PrimaryBlock,
            ),
            final(self).spec_entries(MapLayer::Build) == old(self).spec_entries(MapLayer::Build),
            final(self).ledger == old(self).ledger,
    {
        self.add(x, y, MapNode::PrimaryBlock, MapLayer::Main);
    }

    /// Commits a structure of kind `node` at `(x, y)` on the `Main` layer.
    /// Callers are responsible for checking `is_available` first.
    pub fn add_room(&mut self, x: i32, y: i32, node: MapNode)
        requires
            old(self).wf(),
            -MAX_COORD <= x <= MAX_COORD,
            -MAX_COORD <= y <= MAX_COORD,
            old(self).spec_layer(MapLayer::Main).dom().contains((x as int, y as int)) || old(
                self,
            ).spec_entries(MapLayer::Main).len() < MAX_CELLS,
        ensures
            final(self).wf(),
            final(self).spec_layer(MapLayer::Main) == old(self).spec_layer(MapLayer::Main).insert(
                (x as int, y as int),
                node,
            ),
            final(self).spec_entries(MapLayer::Build) == old(self).spec_entries(MapLayer::Build),
            final(self).ledger == old(self).ledger,
    {
        self.add(x, y, node, MapLayer::Main);
    }

    /// Removes the structure at `(x, y)` from `layer`, but only when it is a
    /// regular (non-anchor) structure; anchors and empty cells are left
    /// alone.
    pub fn remove_room(&mut self, x: i32, y: i32, layer: MapLayer)
        requires
            old(self).wf(),
        ensures
            final(self).wf(),
            final(self).spec_layer(layer) == if old(self).spec_is_room(x as int, y as int, layer) {
                old(self).spec_layer(layer).remove((x as int, y as int))
            } else {
                old(self).spec_layer(layer)
            },
            final(self).spec_entries(other_layer(layer)) == old(self).spec_entries(
                other_layer(layer),
            ),
            final(self).ledger == old(self).ledger,
    {
        if self.is_room(x, y, layer) {
            self.remove(x, y, layer);
        }
    }

    /// Overwrites the `Build` layer with a copy of `Main`.
    pub fn sync_build(&mut self)
        requires
            old(self).wf(),
        ensures
            final(self).wf(),
            final(self).spec_entries(MapLayer::Main) == old(self).spec_entries(MapLayer::Main),
            final(self).spec_entries(MapLayer::Build) == old(self).spec_entries(MapLayer::Main),
            final(self).spec_layer(MapLayer::Build) == old(self).spec_layer(MapLayer::Main),
            final(self).ledger == old(self).ledger,
    {
        let ghost m0 = self.main@;
        let ghost led0 = self.ledger;
        self.build.clear();
        let mut i: usize = 0;
        while i < self.main.len()
            invariant
                i <= self.main@.len(),
                self.main@ == m0,
                self.ledger == led0,
                self.build@ == m0.subrange(0, i as int),
            decreases self.main@.len() - i,
        {
            let e = self.main[i];
            self.build.push(e);
            proof {
                assert(self.build@ =~= m0.subrange(0, i + 1));
            }
            i = i + 1;
        }
        proof {
            assert(self.build@ =~= m0);
        }
        self.recalculate_bounds();
    }

    /// Whether `(x, y)` on `layer` holds a regular (non-anchor) structure.
    pub open spec fn spec_is_room(&self, x: int, y: int, layer: MapLayer) -> bool {
        &&& self.spec_layer(layer).dom().contains((x, y))
        &&& self.spec_layer(layer)[(x, y)] != MapNode::PrimaryBlock
    }

    /// Whether a structure of kind `node` may be placed at `(x, y)`:
    /// an `EmptyRoom` needs an empty cell with an occupied orthogonal
    /// neighbor, any other kind needs the cell to hold an `EmptyRoom`.
    pub fn is_available(&self, x: i32, y: i32, node: MapNode) -> (r: bool)
        requires
            self.wf(),
            -MAX_COORD <= x <= MAX_COORD,
            -MAX_COORD <= y <= MAX_COORD,
        ensures
            r == spec_is_available(
                self.spec_layer(MapLayer::Main),
                x as int,
                y as int,
                node,
            ),
    {
        match node {
            MapNode::EmptyRoom => !self.is_node(x, y, MapLayer::Main) && (self.is_node(
                x + 1,
                y,
                MapLayer::Main,
            ) || self.is_node(x - 1, y, MapLayer::Main) || self.is_node(x, y + 1, MapLayer::Main)
                || self.is_node(x, y - 1, MapLayer::Main)),
            _ => {
                match self.node(x, y, MapLayer::Main) {
                    Some(k) => matches!(k, MapNode::EmptyRoom),
                    _ => false,
                }
            },
        }
    }

    /// Whether `(x, y)` on `layer` holds a regular (non-anchor) structure.
    pub fn is_room(&self, x: i32, y: i32, layer: MapLayer) -> (r: bool)
        requires
            self.wf(),
        ensures
            r == self.spec_is_room(x as int, y as int, layer),
    {
        match self.node(x, y, layer) {
            Some(k) => !matches!(k, MapNode::PrimaryBlock),
            _ => false,
        }
    }

    /// Whether `(x, y)` on `layer` holds any structure.
    pub fn is_node(&self, x: i32, y: i32, layer: MapLayer) -> (r: bool)
        requires
            self.wf(),
        ensures
            r == self.spec_layer(layer).dom().contains((x as int, y as int)),
    {
        match self.node(x, y, layer) {
            Some(_) => true,
            _ => false,
        }
    }

    /// The structure at `(x, y)` on `layer`, if any.
    pub fn node(&self, x: i32, y: i32, layer: MapLayer) -> (r: Option<MapNode>)
        requires
            self.wf(),
        ensures
            r == if self.spec_layer(layer).dom().contains((x as int, y as int)) {
                Some(self.spec_layer(layer)[(x as int, y as int)])
            } else {
                Option::<MapNode>::None
            },
    {
        let v: &Vec<Entry> = match layer {
            MapLayer::Main => &self.main,
            MapLayer::Build => &self.build,
        };
        match find_index(v, x, y) {
            Some(i) => {
                let e = v[i];
                proof {
                    lemma_index_unique(v@, i as int);
                }
                Some(e.1)
            },
            None => None,
        }
    }

    /// The bounding box over the cells of both layers; inverted when the
    /// store is empty.
    pub fn get_bounds(&self) -> (r: ((i32, i32), (i32, i32)))
        ensures
            r == (self.bounds_min, self.bounds_max),
    {
        (self.bounds_min, self.bounds_max)
    }

    /// The cells of all anchors on the `Main` layer, without duplicates.
    pub fn primary_blocks(&self) -> (r: Vec<(i32, i32)>)
        requires
            self.wf(),
        ensures
            forall|k: int|
                0 <= k < r@.len() ==> {
                    &&& self.spec_layer(MapLayer::Main).dom().contains(cellv(#[trigger] r@[k]))
                    &&& self.spec_layer(MapLayer::Main)[cellv(r@[k])] == MapNode::PrimaryBlock
                },
            forall|c: (int, int)|
                (#[trigger] self.spec_layer(MapLayer::Main).dom().contains(c) && self.spec_layer(
                    MapLayer::Main,
                )[c] == MapNode::PrimaryBlock) ==> exists|k: int|
                    0 <= k < r@.len() && cellv(r@[k]) == c,
            forall|k1: int, k2: int| 0 <= k1 < k2 < r@.len() ==> r@[k1] != r@[k2],
    {
        let mut r: Vec<(i32, i32)> = Vec::new();
        let mut i: usize = 0;
        while i < self.main.len()
            invariant
                self.wf(),
                i <= self.main@.len(),
                anchors_sound(self.main@, r@, i as int),
                anchors_complete(self.main@, r@, i as int),
                forall|k1: int, k2: int| 0 <= k1 < k2 < r@.len() ==> r@[k1] != r@[k2],
            decreases self.main@.len() - i,
        {
            let e = self.main[i];
            let ghost r0 = r@;
            if matches!(e.1, MapNode::PrimaryBlock) {
                proof {
                    // The new cell differs from everything already collected,
                    // because entries are duplicate-free.
                    assert forall|k: int| 0 <= k < r@.len() implies r@[k] != e.0 by {
                        assert(from_anchor_prefix(self.main@, r@[k], i as int));
                        let j = choose|j: int|
                            0 <= j < i && (#[trigger] self.main@[j]).1 == MapNode::PrimaryBlock
                                && r@[k] == self.main@[j].0;
                        assert(entry_key(self.main@[j]) != entry_key(self.main@[i as int]));
                    }
                }
                r.push(e.0);
            }
            proof {
                lemma_anchors_step(self.main@, r0, r@, i as int);
            }
            i = i + 1;
        }
        proof {
            let main = self.main@;
            assert forall|k: int| 0 <= k < r@.len() implies {
                &&& self.spec_layer(MapLayer::Main).dom().contains(cellv(#[trigger] r@[k]))
                &&& self.spec_layer(MapLayer::Main)[cellv(r@[k])] == MapNode::PrimaryBlock
            } by {
                assert(from_anchor_prefix(main, r@[k], main.len() as int));
                let j = choose|j: int|
                    0 <= j < main.len() && (#[trigger] main[j]).1 == MapNode::PrimaryBlock && r@[k]
                        == main[j].0;
                lemma_index_unique(main, j);
                assert(cellv(r@[k]) == entry_key(main[j]));
            }
            assert forall|c: (int, int)|
                #[trigger] self.spec_layer(MapLayer::Main).dom().contains(c) && self.spec_layer(
                    MapLayer::Main,
                )[c] == MapNode::PrimaryBlock implies exists|k: int|
                0 <= k < r@.len() && cellv(r@[k]) == c by {
                let j = seq_index_of(main, c);
                assert(0 <= j < main.len() && entry_key(main[j]) == c);
                lemma_index_unique(main, j);
                assert(main[j].1 == MapNode::PrimaryBlock);
                assert(r@.contains(main[j].0));
                let k = choose|k: int| 0 <= k < r@.len() && r@[k] == main[j].0;
                assert(cellv(r@[k]) == c);
            }
        }
        r
    }
}

/// `c` is the cell of an anchor entry among the first `i` entries of
/// `main`.
pub open spec fn from_anchor_prefix(main: Seq<Entry>, c: (i32, i32), i: int) -> bool {
    exists|j: int|
        0 <= j < i && (#[trigger] main[j]).1 == MapNode::PrimaryBlock && c == main[j].0
}

/// Everything collected in `r` is the cell of an anchor entry among the
/// first `i` entries of `main`.
pub open spec fn anchors_sound(main: Seq<Entry>, r: Seq<(i32, i32)>, i: int) -> bool {
    forall|k: int| 0 <= k < r.len() ==> from_anchor_prefix(main, #[trigger] r[k], i)
}

/// Every anchor among the first `i` entries of `main` has its cell in `r`.
pub open spec fn anchors_complete(main: Seq<Entry>, r: Seq<(i32, i32)>, i: int) -> bool {
    forall|j: int|
        0 <= j < i && (#[trigger] main[j]).1 == MapNode::PrimaryBlock ==> r.contains(main[j].0)
}

/// One collection step preserves soundness and completeness of the anchor
/// cell list.
proof fn lemma_anchors_step(main: Seq<Entry>, r0: Seq<(i32, i32)>, r1: Seq<(i32, i32)>, i: int)
    requires
        0 <= i < main.len(),
        anchors_sound(main, r0, i),
        anchors_complete(main, r0, i),
        r1 == if main[i].1 == MapNode::PrimaryBlock {
            r0.push(main[i].0)
        } else {
            r0
        },
    ensures
        anchors_sound(main, r1, i + 1),
        anchors_complete(main, r1, i + 1),
{
    if main[i].1 == MapNode::PrimaryBlock {
        assert forall|k: int| 0 <= k < r1.len() implies from_anchor_prefix(
            main,
            #[trigger] r1[k],
            i + 1,
        ) by {
            if k < r0.len() {
                assert(r1[k] == r0[k]);
                assert(from_anchor_prefix(main, r0[k], i));
                let j = choose|j: int|
                    0 <= j < i && (#[trigger] main[j]).1 == MapNode::PrimaryBlock && r0[k]
                        == main[j].0;
                assert(0 <= j < i + 1 && main[j].1 == MapNode::PrimaryBlock && r1[k] == main[j].0);
            } else {
                assert(r1[k] == main[i].0);
            }
        }
        assert forall|j: int|
            0 <= j < i + 1 && (#[trigger] main[j]).1 == MapNode::PrimaryBlock implies r1.contains(
            main[j].0,
        ) by {
            if j < i {
                assert(r0.contains(main[j].0));
                let k = choose|k: int| 0 <= k < r0.len() && r0[k] == main[j].0;
                assert(r1[k] == main[j].0);
            } else {
                assert(r1[r1.len() - 1] == main[i].0);
            }
        }
    } else {
        assert forall|k: int| 0 <= k < r1.len() implies from_anchor_prefix(
            main,
            #[trigger] r1[k],
            i + 1,
        ) by {
            assert(from_anchor_prefix(main, r1[k], i));
            let j = choose|j: int|
                0 <= j < i && (#[trigger] main[j]).1 == MapNode::PrimaryBlock && r1[k] == main[j].0;
            assert(0 <= j < i + 1 && main[j].1 == MapNode::PrimaryBlock && r1[k] == main[j].0);
        }
        assert forall|j: int|
            0 <= j < i + 1 && (#[trigger] main[j]).1 == MapNode::PrimaryBlock implies r1.contains(
            main[j].0,
        ) by {
            assert(j < i);
        }
    }
}

} // verus!
