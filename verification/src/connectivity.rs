//! The connectivity engine: flood-fill reachability from anchor
//! (`PrimaryBlock`) cells through chains of orthogonally adjacent regular
//! structures, with an optional speculatively excluded cell, and the
//! per-tick pruning pass that drops disconnected structures from a layer.

use vstd::prelude::*;
use vstd::set_lib::lemma_len_subset;
use crate::kind::MapNode;
use crate::map::{
    cellv, coords_bounded, entries_unique, entry_key, layer_wf, lemma_index_unique,
    lemma_map_of_len, map_of, seq_has_key, seq_index_of, seq_kind_at, Entry, MapLayer, MapState,
    MAX_COORD,
};

verus! {

/// Two cells are orthogonally adjacent.
pub open spec fn adjacent(a: (int, int), b: (int, int)) -> bool {
    ||| a.0 == b.0 && (b.1 == a.1 + 1 || b.1 == a.1 - 1)
    ||| a.1 == b.1 && (b.0 == a.0 + 1 || b.0 == a.0 - 1)
}

/// Cell `c` holds an anchor (`PrimaryBlock`).
pub open spec fn is_anchor_cell(m: Map<(int, int), MapNode>, c: (int, int)) -> bool {
    m.dom().contains(c) && m[c] == MapNode::PrimaryBlock
}

/// Cell `c` holds a regular (non-anchor) structure.
pub open spec fn is_regular_cell(m: Map<(int, int), MapNode>, c: (int, int)) -> bool {
    m.dom().contains(c) && m[c] != MapNode::PrimaryBlock
}

/// Cell `c` is the speculatively excluded cell.
pub open spec fn is_excluded(excl: Option<(int, int)>, c: (int, int)) -> bool {
    excl == Some(c)
}

/// Mathematical form of an executable exclusion argument.
pub open spec fn exclv(e: Option<(i32, i32)>) -> Option<(int, int)> {
    match e {
        Some(c) => Some(cellv(c)),
        None => None,
    }
}

/// A chain witnessing connectivity: it starts at an anchor and each later
/// cell is a regular structure, not the excluded cell, adjacent to its
/// predecessor. Anchors are never excludable: exclusion only constrains the
/// regular cells a walk passes through.
pub open spec fn valid_chain(
    m: Map<(int, int), MapNode>,
    excl: Option<(int, int)>,
    p: Seq<(int, int)>,
) -> bool {
    &&& p.len() >= 1
    &&& is_anchor_cell(m, p[0])
    &&& forall|i: int|
        1 <= i < p.len() ==> is_regular_cell(m, #[trigger] p[i]) && !is_excluded(excl, p[i])
            && adjacent(p[i - 1], p[i])
}

/// Cell `c` is connected: some chain from an anchor reaches it.
pub open spec fn spec_connected(
    m: Map<(int, int), MapNode>,
    excl: Option<(int, int)>,
    c: (int, int),
) -> bool {
    exists|p: Seq<(int, int)>| valid_chain(m, excl, p) && p.last() == c
}

/// Every anchor is connected, whatever the exclusion.
pub proof fn lemma_anchor_connected(
    m: Map<(int, int), MapNode>,
    excl: Option<(int, int)>,
    c: (int, int),
)
    requires
        is_anchor_cell(m, c),
    ensures
        spec_connected(m, excl, c),
{
    let p: Seq<(int, int)> = seq![c];
    assert(valid_chain(m, excl, p));
    assert(p.last() == c);
}

/// A connected cell's regular, non-excluded neighbor is connected too.
pub proof fn lemma_step_connected(
    m: Map<(int, int), MapNode>,
    excl: Option<(int, int)>,
    c: (int, int),
    n: (int, int),
)
    requires
        spec_connected(m, excl, c),
        is_regular_cell(m, n),
        !is_excluded(excl, n),
        adjacent(c, n),
    ensures
        spec_connected(m, excl, n),
{
    let p = choose|p: Seq<(int, int)>| valid_chain(m, excl, p) && p.last() == c;
    let p2 = p.push(n);
    assert(p2.last() == n);
    assert(valid_chain(m, excl, p2)) by {
        assert(p2[0] == p[0]);
        assert forall|i: int|
            1 <= i < p2.len() implies is_regular_cell(m, #[trigger] p2[i]) && !is_excluded(
            excl,
            p2[i],
        ) && adjacent(p2[i - 1], p2[i]) by {
            if i < p.len() {
                assert(p2[i] == p[i]);
                assert(p2[i - 1] == p[i - 1]);
            } else {
                assert(p2[i] == n);
                assert(p2[i - 1] == p[p.len() - 1]);
            }
        }
    }
}

/// The set `vis` contains every anchor of `m`.
pub open spec fn contains_all_anchors(m: Map<(int, int), MapNode>, vis: Set<(int, int)>) -> bool {
    forall|c: (int, int)| #[trigger] is_anchor_cell(m, c) ==> vis.contains(c)
}

/// The set `vis` is closed under one connectivity step.
pub open spec fn closed_under_step(
    m: Map<(int, int), MapNode>,
    excl: Option<(int, int)>,
    vis: Set<(int, int)>,
) -> bool {
    forall|c: (int, int), n: (int, int)|
        #![trigger vis.contains(c), is_regular_cell(m, n), adjacent(c, n)]
        vis.contains(c) && is_regular_cell(m, n) && !is_excluded(excl, n) && adjacent(c, n)
            ==> vis.contains(n)
}

/// A set that holds every anchor and is closed under steps covers every
/// connected cell.
pub proof fn lemma_closed_covers_chain(
    m: Map<(int, int), MapNode>,
    excl: Option<(int, int)>,
    vis: Set<(int, int)>,
    p: Seq<(int, int)>,
)
    requires
        valid_chain(m, excl, p),
        contains_all_anchors(m, vis),
        closed_under_step(m, excl, vis),
    ensures
        vis.contains(p.last()),
    decreases p.len(),
{
    if p.len() == 1 {
        assert(is_anchor_cell(m, p[0]));
    } else {
        let q = p.drop_last();
        assert(valid_chain(m, excl, q)) by {
            assert(q[0] == p[0]);
            assert forall|i: int|
                1 <= i < q.len() implies is_regular_cell(m, #[trigger] q[i]) && !is_excluded(
                excl,
                q[i],
            ) && adjacent(q[i - 1], q[i]) by {
                assert(q[i] == p[i]);
                assert(q[i - 1] == p[i - 1]);
            }
        }
        lemma_closed_covers_chain(m, excl, vis, q);
        let last = p.len() - 1;
        assert(q.last() == p[last - 1]);
        assert(is_regular_cell(m, p[last]) && !is_excluded(excl, p[last]) && adjacent(
            p[last - 1],
            p[last],
        ));
        assert(vis.contains(p[last]));
    }
}

/// A connected set member stays connected when the map loses an unrelated
/// cell, and vice versa: excluding a non-anchor cell `x` is the same as
/// removing `x` from the map outright.
pub proof fn lemma_speculative_matches_literal(
    m: Map<(int, int), MapNode>,
    x: (int, int),
    c: (int, int),
)
    requires
        !is_anchor_cell(m, x),
    ensures
        spec_connected(m, Some(x), c) == spec_connected(m.remove(x), None, c),
{
    let m2 = m.remove(x);
    if spec_connected(m, Some(x), c) {
        let p = choose|p: Seq<(int, int)>| valid_chain(m, Some(x), p) && p.last() == c;
        assert(valid_chain(m2, None, p)) by {
            assert(p[0] != x);
            assert(is_anchor_cell(m2, p[0]));
            assert forall|i: int|
                1 <= i < p.len() implies is_regular_cell(m2, #[trigger] p[i]) && !is_excluded(
                None,
                p[i],
            ) && adjacent(p[i - 1], p[i]) by {
                assert(is_regular_cell(m, p[i]) && p[i] != x);
            }
        }
        assert(spec_connected(m2, None, c));
    }
    if spec_connected(m2, None, c) {
        let p = choose|p: Seq<(int, int)>| valid_chain(m2, None, p) && p.last() == c;
        assert(valid_chain(m, Some(x), p)) by {
            assert(is_anchor_cell(m, p[0]));
            assert forall|i: int|
                1 <= i < p.len() implies is_regular_cell(m, #[trigger] p[i]) && !is_excluded(
                Some(x),
                p[i],
            ) && adjacent(p[i - 1], p[i]) by {
                assert(m2.dom().contains(p[i]));
                assert(p[i] != x);
            }
        }
        assert(spec_connected(m, Some(x), c));
    }
}

/// Some element of `v` denotes cell `c`.
pub open spec fn vec_has_cell(v: Seq<(i32, i32)>, c: (int, int)) -> bool {
    exists|k: int| 0 <= k < v.len() && cellv(#[trigger] v[k]) == c
}

/// All elements of `v` denote distinct cells.
pub open spec fn cells_distinct(v: Seq<(i32, i32)>) -> bool {
    forall|k1: int, k2: int| 0 <= k1 < k2 < v.len() ==> cellv(v[k1]) != cellv(v[k2])
}

/// All elements of `v` denote cells of `m`.
pub open spec fn cells_in_dom(m: Map<(int, int), MapNode>, v: Seq<(i32, i32)>) -> bool {
    forall|k: int| 0 <= k < v.len() ==> m.dom().contains(cellv(#[trigger] v[k]))
}

/// All elements of `v` denote connected cells.
pub open spec fn all_connected(
    m: Map<(int, int), MapNode>,
    excl: Option<(int, int)>,
    v: Seq<(i32, i32)>,
) -> bool {
    forall|k: int| 0 <= k < v.len() ==> spec_connected(m, excl, cellv(#[trigger] v[k]))
}

/// The set of cells that `v`'s elements denote.
pub open spec fn cells_set(v: Seq<(i32, i32)>) -> Set<(int, int)> {
    Set::new(|c: (int, int)| vec_has_cell(v, c))
}

/// Every anchor cell is already visited or still on the stack.
pub open spec fn anchors_covered(
    m: Map<(int, int), MapNode>,
    visited: Seq<(i32, i32)>,
    stack: Seq<(i32, i32)>,
) -> bool {
    forall|c: (int, int)|
        #[trigger] is_anchor_cell(m, c) ==> vec_has_cell(visited, c) || vec_has_cell(stack, c)
}

/// Every step out of a visited cell lands on a visited cell or one still on
/// the stack.
pub open spec fn closure_except_stack(
    m: Map<(int, int), MapNode>,
    excl: Option<(int, int)>,
    visited: Seq<(i32, i32)>,
    stack: Seq<(i32, i32)>,
) -> bool {
    forall|c: (int, int), n: (int, int)|
        #![trigger vec_has_cell(visited, c), is_regular_cell(m, n), adjacent(c, n)]
        vec_has_cell(visited, c) && is_regular_cell(m, n) && !is_excluded(excl, n) && adjacent(
            c,
            n,
        ) ==> vec_has_cell(visited, n) || vec_has_cell(stack, n)
}

/// How appending one element changes the cells a vector denotes.
pub proof fn lemma_has_cell_push(v: Seq<(i32, i32)>, x: (i32, i32))
    ensures
        forall|c: (int, int)| #[trigger] vec_has_cell(v, c) ==> vec_has_cell(v.push(x), c),
        vec_has_cell(v.push(x), cellv(x)),
        forall|c: (int, int)|
            #[trigger] vec_has_cell(v.push(x), c) ==> vec_has_cell(v, c) || c == cellv(x),
{
    let v2 = v.push(x);
    assert forall|c: (int, int)| #[trigger] vec_has_cell(v, c) implies vec_has_cell(v2, c) by {
        let k = choose|k: int| 0 <= k < v.len() && cellv(v[k]) == c;
        assert(v2[k] == v[k]);
        assert(cellv(v2[k]) == c);
    }
    assert(v2[v.len() as int] == x);
    assert(cellv(v2[v.len() as int]) == cellv(x));
    assert forall|c: (int, int)| #[trigger] vec_has_cell(v2, c) implies vec_has_cell(v, c) || c
        == cellv(x) by {
        let k = choose|k: int| 0 <= k < v2.len() && cellv(v2[k]) == c;
        if k < v.len() {
            assert(v2[k] == v[k]);
            assert(vec_has_cell(v, c));
        } else {
            assert(v2[k] == x);
        }
    }
}

/// How removing the last element changes the cells a vector denotes.
pub proof fn lemma_has_cell_drop_last(v: Seq<(i32, i32)>)
    requires
        v.len() >= 1,
    ensures
        forall|c: (int, int)|
            #[trigger] vec_has_cell(v, c) ==> vec_has_cell(v.drop_last(), c) || cellv(v.last())
                == c,
        forall|c: (int, int)| #[trigger] vec_has_cell(v.drop_last(), c) ==> vec_has_cell(v, c),
{
    let v1 = v.drop_last();
    assert forall|c: (int, int)| #[trigger] vec_has_cell(v, c) implies vec_has_cell(v1, c)
        || cellv(v.last()) == c by {
        let k = choose|k: int| 0 <= k < v.len() && cellv(v[k]) == c;
        if k < v.len() - 1 {
            assert(v1[k] == v[k]);
            assert(vec_has_cell(v1, c));
        }
    }
    assert forall|c: (int, int)| #[trigger] vec_has_cell(v1, c) implies vec_has_cell(v, c) by {
        let k = choose|k: int| 0 <= k < v1.len() && cellv(v1[k]) == c;
        assert(v1[k] == v[k]);
        assert(cellv(v[k]) == c);
    }
}

/// A vector of distinct cells denotes exactly as many cells as it has
/// elements.
pub proof fn lemma_cells_set_len(v: Seq<(i32, i32)>)
    requires
        cells_distinct(v),
    ensures
        cells_set(v).finite(),
        cells_set(v).len() == v.len(),
    decreases v.len(),
{
    if v.len() == 0 {
        assert forall|c: (int, int)| !(#[trigger] vec_has_cell(v, c)) by {
            if vec_has_cell(v, c) {
                let k = choose|k: int| 0 <= k < v.len() && cellv(v[k]) == c;
            }
        }
        assert(cells_set(v) =~= Set::<(int, int)>::empty());
    } else {
        let v1 = v.drop_last();
        assert(cells_distinct(v1)) by {
            assert forall|k1: int, k2: int| 0 <= k1 < k2 < v1.len() implies cellv(v1[k1]) != cellv(
                v1[k2],
            ) by {
                assert(v1[k1] == v[k1]);
                assert(v1[k2] == v[k2]);
            }
        }
        lemma_cells_set_len(v1);
        lemma_has_cell_drop_last(v);
        assert(!vec_has_cell(v1, cellv(v.last()))) by {
            if vec_has_cell(v1, cellv(v.last())) {
                let k = choose|k: int| 0 <= k < v1.len() && cellv(v1[k]) == cellv(v.last());
                assert(v1[k] == v[k]);
                assert(cellv(v[k]) == cellv(v[v.len() - 1]));
            }
        }
        assert(vec_has_cell(v, cellv(v.last()))) by {
            assert(cellv(v[v.len() - 1]) == cellv(v.last()));
        }
        assert(cells_set(v) =~= cells_set(v1).insert(cellv(v.last())));
    }
}

/// Whether some element of the vector is the cell `(x, y)`.
pub(crate) fn vec_contains_cell(v: &Vec<(i32, i32)>, x: i32, y: i32) -> (r: bool)
    ensures
        r == vec_has_cell(v@, (x as int, y as int)),
{
    let mut i: usize = 0;
    while i < v.len()
        invariant
            i <= v@.len(),
            forall|k: int| 0 <= k < i ==> cellv(#[trigger] v@[k]) != (x as int, y as int),
        decreases v@.len() - i,
    {
        let e = v[i];
        if e.0 == x && e.1 == y {
            proof {
                assert(cellv(v@[i as int]) == (x as int, y as int));
            }
            return true;
        }
        i = i + 1;
    }
    proof {
        if vec_has_cell(v@, (x as int, y as int)) {
            let k = choose|k: int| 0 <= k < v@.len() && cellv(v@[k]) == (x as int, y as int);
        }
    }
    false
}

/// Whether `(nx, ny)` is a cell a connectivity walk may step onto: it holds
/// a regular structure and is not the excluded cell.
fn step_target(entries: &Vec<Entry>, excl: Option<(i32, i32)>, nx: i32, ny: i32) -> (r: bool)
    requires
        layer_wf(entries@),
    ensures
        r == (is_regular_cell(map_of(entries@), (nx as int, ny as int)) && !is_excluded(
            exclv(excl),
            (nx as int, ny as int),
        )),
{
    let excluded = match excl {
        Some(e) => e.0 == nx && e.1 == ny,
        None => false,
    };
    if excluded {
        return false;
    }
    match crate::map::find_index(entries, nx, ny) {
        Some(i) => {
            let e = entries[i];
            proof {
                lemma_index_unique(entries@, i as int);
            }
            !matches!(e.1, MapNode::PrimaryBlock)
        },
        None => false,
    }
}

/// The cells of all anchor entries, each one at least once.
fn collect_anchors(entries: &Vec<Entry>) -> (r: Vec<(i32, i32)>)
    requires
        layer_wf(entries@),
    ensures
        forall|k: int|
            0 <= k < r@.len() ==> is_anchor_cell(map_of(entries@), cellv(#[trigger] r@[k])),
        forall|c: (int, int)|
            #[trigger] is_anchor_cell(map_of(entries@), c) ==> vec_has_cell(r@, c),
{
    let ghost m = map_of(entries@);
    let mut r: Vec<(i32, i32)> = Vec::new();
    let mut i: usize = 0;
    while i < entries.len()
        invariant
            layer_wf(entries@),
            m == map_of(entries@),
            i <= entries@.len(),
            forall|k: int| 0 <= k < r@.len() ==> is_anchor_cell(m, cellv(#[trigger] r@[k])),
            forall|j: int|
                0 <= j < i && (#[trigger] entries@[j]).1 == MapNode::PrimaryBlock ==> vec_has_cell(
                    r@,
                    entry_key(entries@[j]),
                ),
        decreases entries@.len() - i,
    {
        let e = entries[i];
        if matches!(e.1, MapNode::PrimaryBlock) {
            let ghost r0 = r@;
            r.push(e.0);
            proof {
                lemma_has_cell_push(r0, e.0);
                lemma_index_unique(entries@, i as int);
                assert(cellv(e.0) == entry_key(entries@[i as int]));
                assert(is_anchor_cell(m, cellv(e.0)));
                assert forall|k: int| 0 <= k < r@.len() implies is_anchor_cell(
                    m,
                    cellv(#[trigger] r@[k]),
                ) by {
                    if k < r0.len() {
                        assert(r@[k] == r0[k]);
                    } else {
                        assert(r@[k] == e.0);
                    }
                }
            }
        }
        i = i + 1;
    }
    proof {
        assert forall|c: (int, int)| #[trigger] is_anchor_cell(m, c) implies vec_has_cell(
            r@,
            c,
        ) by {
            let j = seq_index_of(entries@, c);
            assert(0 <= j < entries@.len() && entry_key(entries@[j]) == c);
            lemma_index_unique(entries@, j);
            assert(entries@[j].1 == MapNode::PrimaryBlock);
        }
    }
    r
}

/// Flood fill: the cells connected to an anchor, as the walk visits them.
/// The result lists exactly the connected cells of the layer, anchors
/// included, each once.
fn reachable_cells(entries: &Vec<Entry>, excl: Option<(i32, i32)>) -> (r: Vec<(i32, i32)>)
    requires
        layer_wf(entries@),
    ensures
        all_connected(map_of(entries@), exclv(excl), r@),
        forall|c: (int, int)|
            #[trigger] spec_connected(map_of(entries@), exclv(excl), c) ==> vec_has_cell(r@, c),
        cells_distinct(r@),
        cells_in_dom(map_of(entries@), r@),
{
    let ghost m = map_of(entries@);
    let ghost ex = exclv(excl);
    let mut stack = collect_anchors(entries);
    let mut visited: Vec<(i32, i32)> = Vec::new();
    proof {
        assert forall|k: int| 0 <= k < stack@.len() implies spec_connected(
            m,
            ex,
            cellv(#[trigger] stack@[k]),
        ) by {
            lemma_anchor_connected(m, ex, cellv(stack@[k]));
        }
        lemma_map_of_len(entries@);
        lemma_cells_set_len(visited@);
    }
    while stack.len() > 0
        invariant
            layer_wf(entries@),
            m == map_of(entries@),
            ex == exclv(excl),
            all_connected(m, ex, stack@),
            all_connected(m, ex, visited@),
            cells_in_dom(m, stack@),
            cells_in_dom(m, visited@),
            cells_distinct(visited@),
            visited@.len() <= entries@.len(),
            anchors_covered(m, visited@, stack@),
            closure_except_stack(m, ex, visited@, stack@),
        decreases entries@.len() - visited@.len(), stack@.len(),
    {
        let ghost stack0 = stack@;
        let c = match stack.pop() {
            Some(c) => c,
            None => {
                proof {
                    assert(false);
                }
                (0, 0)
            },
        };
        proof {
            assert(stack@ == stack0.drop_last());
            assert(c == stack0.last());
            lemma_has_cell_drop_last(stack0);
            assert forall|k: int| 0 <= k < stack@.len() implies spec_connected(
                m,
                ex,
                cellv(#[trigger] stack@[k]),
            ) by {
                assert(stack@[k] == stack0[k]);
            }
            assert forall|k: int| 0 <= k < stack@.len() implies m.dom().contains(
                cellv(#[trigger] stack@[k]),
            ) by {
                assert(stack@[k] == stack0[k]);
            }
            assert(spec_connected(m, ex, cellv(c))) by {
                assert(stack0[stack0.len() - 1] == c);
            }
            assert(m.dom().contains(cellv(c))) by {
                assert(stack0[stack0.len() - 1] == c);
            }
        }
        if vec_contains_cell(&visited, c.0, c.1) {
            proof {
                assert(vec_has_cell(visited@, cellv(c)));
                assert forall|cc: (int, int)| #[trigger] is_anchor_cell(m, cc) implies vec_has_cell(
                    visited@,
                    cc,
                ) || vec_has_cell(stack@, cc) by {
                    if vec_has_cell(stack0, cc) && !vec_has_cell(stack@, cc) {
                        assert(cellv(stack0.last()) == cc);
                    }
                }
                assert forall|cc: (int, int), n: (int, int)|
                    #![trigger vec_has_cell(visited@, cc), is_regular_cell(m, n), adjacent(cc, n)]
                    vec_has_cell(visited@, cc) && is_regular_cell(m, n) && !is_excluded(ex, n)
                        && adjacent(cc, n) implies vec_has_cell(visited@, n) || vec_has_cell(
                    stack@,
                    n,
                ) by {
                    if vec_has_cell(stack0, n) && !vec_has_cell(stack@, n) {
                        assert(cellv(stack0.last()) == n);
                    }
                }
            }
            continue;
        }
        let ghost vis0 = visited@;
        visited.push(c);
        proof {
            lemma_has_cell_push(vis0, c);
            assert forall|k: int| 0 <= k < visited@.len() implies spec_connected(
                m,
                ex,
                cellv(#[trigger] visited@[k]),
            ) && m.dom().contains(cellv(visited@[k])) by {
                if k < vis0.len() {
                    assert(visited@[k] == vis0[k]);
                } else {
                    assert(visited@[k] == c);
                }
            }
            assert forall|k1: int, k2: int| 0 <= k1 < k2 < visited@.len() implies cellv(
                visited@[k1],
            ) != cellv(visited@[k2]) by {
                if k2 < vis0.len() {
                    assert(visited@[k1] == vis0[k1]);
                    assert(visited@[k2] == vis0[k2]);
                } else {
                    assert(visited@[k2] == c);
                    assert(visited@[k1] == vis0[k1]);
                    assert(!vec_has_cell(vis0, cellv(c)));
                    assert(cellv(vis0[k1]) != cellv(c));
                }
            }
            // The fresh visit shrinks the unvisited part of the layer.
            lemma_cells_set_len(visited@);
            lemma_map_of_len(entries@);
            assert(cells_set(visited@).subset_of(m.dom())) by {
                assert forall|cc: (int, int)| cells_set(visited@).contains(cc) implies m.dom()
                    .contains(cc) by {
                    let k = choose|k: int| 0 <= k < visited@.len() && cellv(visited@[k]) == cc;
                }
            }
            lemma_len_subset(cells_set(visited@), m.dom());
        }
        // The popped cell's coordinates are bounded, so neighbor arithmetic
        // stays in range.
        proof {
            let j = seq_index_of(entries@, cellv(c));
            assert(seq_has_key(entries@, cellv(c)));
            assert(0 <= j < entries@.len() && entry_key(entries@[j]) == cellv(c));
        }
        let ghost s_in = stack@;
        let n1 = (c.0 + 1, c.1);
        if step_target(entries, excl, n1.0, n1.1) {
            let ghost s0 = stack@;
            stack.push(n1);
            proof {
                lemma_has_cell_push(s0, n1);
                lemma_step_connected(m, ex, cellv(c), cellv(n1));
                lemma_stack_push_ok(m, ex, s0, n1);
            }
        }
        let n2 = (c.0 - 1, c.1);
        if step_target(entries, excl, n2.0, n2.1) {
            let ghost s0 = stack@;
            stack.push(n2);
            proof {
                lemma_has_cell_push(s0, n2);
                lemma_step_connected(m, ex, cellv(c), cellv(n2));
                lemma_stack_push_ok(m, ex, s0, n2);
            }
        }
        let n3 = (c.0, c.1 + 1);
        if step_target(entries, excl, n3.0, n3.1) {
            let ghost s0 = stack@;
            stack.push(n3);
            proof {
                lemma_has_cell_push(s0, n3);
                lemma_step_connected(m, ex, cellv(c), cellv(n3));
                lemma_stack_push_ok(m, ex, s0, n3);
            }
        }
        let n4 = (c.0, c.1 - 1);
        if step_target(entries, excl, n4.0, n4.1) {
            let ghost s0 = stack@;
            stack.push(n4);
            proof {
                lemma_has_cell_push(s0, n4);
                lemma_step_connected(m, ex, cellv(c), cellv(n4));
                lemma_stack_push_ok(m, ex, s0, n4);
            }
        }
        proof {
            // Anchors stay covered: the popped cell is now visited, and the
            // stack only grew since the pop.
            assert forall|cc: (int, int)| #[trigger] is_anchor_cell(m, cc) implies vec_has_cell(
                visited@,
                cc,
            ) || vec_has_cell(stack@, cc) by {
                if vec_has_cell(vis0, cc) {
                } else if vec_has_cell(stack0, cc) {
                    if vec_has_cell(stack0.drop_last(), cc) {
                        lemma_sub_stack(s_in, stack@, cc);
                    } else {
                        assert(cellv(stack0.last()) == cc);
                        assert(vec_has_cell(visited@, cc));
                    }
                }
            }
            // Closure: steps out of previously visited cells still land in
            // the grown stack; steps out of the fresh cell land on one of
            // the four neighbors, each of which was pushed when steppable.
            assert forall|cc: (int, int), n: (int, int)|
                #![trigger vec_has_cell(visited@, cc), is_regular_cell(m, n), adjacent(cc, n)]
                vec_has_cell(visited@, cc) && is_regular_cell(m, n) && !is_excluded(ex, n)
                    && adjacent(cc, n) implies vec_has_cell(visited@, n) || vec_has_cell(
                stack@,
                n,
            ) by {
                if vec_has_cell(vis0, cc) {
                    if !vec_has_cell(vis0, n) {
                        if vec_has_cell(stack0, n) {
                            if vec_has_cell(stack0.drop_last(), n) {
                                lemma_sub_stack(s_in, stack@, n);
                            } else {
                                assert(cellv(stack0.last()) == n);
                                assert(vec_has_cell(visited@, n));
                            }
                        }
                    }
                } else {
                    assert(cc == cellv(c));
                    assert(n == cellv(n1) || n == cellv(n2) || n == cellv(n3) || n == cellv(n4));
                    lemma_sub_stack(s_in, stack@, n);
                }
            }
        }
    }
    proof {
        let vis = cells_set(visited@);
        assert forall|c: (int, int)| !(#[trigger] vec_has_cell(stack@, c)) by {
            if vec_has_cell(stack@, c) {
                let k = choose|k: int| 0 <= k < stack@.len() && cellv(stack@[k]) == c;
            }
        }
        assert(contains_all_anchors(m, vis)) by {
            assert forall|c: (int, int)| #[trigger] is_anchor_cell(m, c) implies vis.contains(
                c,
            ) by {
                assert(vec_has_cell(visited@, c) || vec_has_cell(stack@, c));
            }
        }
        assert(closed_under_step(m, ex, vis)) by {
            assert forall|c: (int, int), n: (int, int)|
                #![trigger vis.contains(c), is_regular_cell(m, n), adjacent(c, n)]
                vis.contains(c) && is_regular_cell(m, n) && !is_excluded(ex, n) && adjacent(
                    c,
                    n,
                ) implies vis.contains(n) by {
                assert(vec_has_cell(visited@, c));
                assert(vec_has_cell(visited@, n) || vec_has_cell(stack@, n));
            }
        }
        assert forall|c: (int, int)| #[trigger] spec_connected(m, ex, c) implies vec_has_cell(
            visited@,
            c,
        ) by {
            let p = choose|p: Seq<(int, int)>| valid_chain(m, ex, p) && p.last() == c;
            lemma_closed_covers_chain(m, ex, vis, p);
        }
    }
    visited
}

/// Pushing a connected cell onto a stack of connected in-map cells keeps
/// both facts, and keeps every cell the stack already had.
proof fn lemma_stack_push_ok(
    m: Map<(int, int), MapNode>,
    ex: Option<(int, int)>,
    s0: Seq<(i32, i32)>,
    x: (i32, i32),
)
    requires
        all_connected(m, ex, s0),
        cells_in_dom(m, s0),
        spec_connected(m, ex, cellv(x)),
        m.dom().contains(cellv(x)),
    ensures
        all_connected(m, ex, s0.push(x)),
        cells_in_dom(m, s0.push(x)),
{
    let s1 = s0.push(x);
    assert forall|k: int| 0 <= k < s1.len() implies spec_connected(
        m,
        ex,
        cellv(#[trigger] s1[k]),
    ) && m.dom().contains(cellv(s1[k])) by {
        if k < s0.len() {
            assert(s1[k] == s0[k]);
        } else {
            assert(s1[k] == x);
        }
    }
}

/// The set of cells connected to an anchor on mapping `m`, with no
/// exclusion: what one per-tick recomputation of the connectivity flags
/// yields.
pub open spec fn connected_set(m: Map<(int, int), MapNode>) -> Set<(int, int)> {
    Set::new(|c: (int, int)| spec_connected(m, None, c))
}

impl MapState {
    /// The connected cells of a layer, anchors included, each exactly once;
    /// `excl` names a cell to treat as removed (anchors are never
    /// excludable).
    pub fn connected_cells(&self, layer: MapLayer, excl: Option<(i32, i32)>) -> (r: Vec<
        (i32, i32),
    >)
        requires
            self.wf(),
        ensures
            all_connected(self.spec_layer(layer), exclv(excl), r@),
            forall|c: (int, int)|
                #[trigger] spec_connected(self.spec_layer(layer), exclv(excl), c) ==> vec_has_cell(
                    r@,
                    c,
                ),
            cells_distinct(r@),
    {
        match layer {
            MapLayer::Main => reachable_cells(&self.main, excl),
            MapLayer::Build => reachable_cells(&self.build, excl),
        }
    }

    /// Whether `(x, y)` on `layer` holds a regular structure with a chain to
    /// an anchor, with `excl` treated as removed.
    pub fn is_room_connected(&self, x: i32, y: i32, layer: MapLayer, excl: Option<(i32, i32)>) -> (r:
        bool)
        requires
            self.wf(),
        ensures
            r == (self.spec_is_room(x as int, y as int, layer) && spec_connected(
                self.spec_layer(layer),
                exclv(excl),
                (x as int, y as int),
            )),
    {
        if !self.is_room(x, y, layer) {
            return false;
        }
        let keep = match layer {
            MapLayer::Main => reachable_cells(&self.main, excl),
            MapLayer::Build => reachable_cells(&self.build, excl),
        };
        let r = vec_contains_cell(&keep, x, y);
        proof {
            if vec_has_cell(keep@, (x as int, y as int)) {
                let k = choose|k: int|
                    0 <= k < keep@.len() && cellv(keep@[k]) == (x as int, y as int);
                assert(spec_connected(self.spec_layer(layer), exclv(excl), cellv(keep@[k])));
            }
        }
        r
    }
}

/// A cell found in an earlier stack is still found after any number of
/// pushes (the later stack extends the earlier one).
proof fn lemma_sub_stack(s_in: Seq<(i32, i32)>, s_out: Seq<(i32, i32)>, c: (int, int))
    requires
        s_out.len() >= s_in.len(),
        forall|k: int| 0 <= k < s_in.len() ==> s_out[k] == s_in[k],
        vec_has_cell(s_in, c) || exists|k: int|
            s_in.len() <= k < s_out.len() && cellv(#[trigger] s_out[k]) == c,
    ensures
        vec_has_cell(s_out, c),
{
    if vec_has_cell(s_in, c) {
        let k = choose|k: int| 0 <= k < s_in.len() && cellv(s_in[k]) == c;
        assert(cellv(s_out[k]) == c);
    } else {
        let k = choose|k: int| s_in.len() <= k < s_out.len() && cellv(#[trigger] s_out[k]) == c;
    }
}

} // verus!
