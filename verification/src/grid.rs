//! Conversion between continuous world positions and discrete cell
//! coordinates. Positions are fixed-point: hundredths of one world unit.

use vstd::prelude::*;
use vstd::arithmetic::div_mod::{lemma_fundamental_div_mod_converse_div, lemma_div_multiples_vanish_fancy};

verus! {

/// Which placement grid is being addressed: coarse room cells, or the fine
/// cells used to position harvester targets.
#[derive(Clone, Copy, Debug, PartialEq, Eq, Structural)]
pub enum CursorLayer {
    Room,
    Hook,
}

impl CursorLayer {
    /// Cell stride of this grid, in hundredths of a world unit.
    pub open spec fn spec_size(self) -> int {
        match self {
            CursorLayer::Room => 201,
            CursorLayer::Hook => 100,
        }
    }

    /// Cell stride of this grid, in hundredths of a world unit
    /// (rooms are 2.01 units wide, the fine grid 1.00).
    pub fn size(&self) -> (s: i64)
        ensures
            s == self.spec_size(),
            100 <= s <= 201,
    {
        match self {
            CursorLayer::Room => 201,
            CursorLayer::Hook => 100,
        }
    }
}

/// Where the player's cursor points, in room-cell coordinates, together with
/// whether the confirm button was pressed this tick.
#[derive(Clone, Copy, Debug, PartialEq, Eq, Structural)]
pub struct GameCursor {
    pub x: i32,
    pub y: i32,
    pub just_pressed: bool,
}

/// World coordinate of a cell's center: cells are laid out `stride` apart.
pub open spec fn spec_to_world(c: int, stride: int) -> int {
    c * stride
}

/// Cell owning a world coordinate: the nearest cell center, i.e.
/// floor((p + stride/2) / stride) in exact arithmetic.
pub open spec fn spec_to_cell(p: int, stride: int) -> int {
    (2 * p + stride) / (2 * stride)
}

/// Round-trip law: converting a cell to its world center and back yields the
/// same cell, for every cell and every positive stride.
pub proof fn lemma_grid_round_trip(c: int, stride: int)
    requires
        0 < stride,
    ensures
        spec_to_cell(spec_to_world(c, stride), stride) == c,
{
    assert(2 * (c * stride) + stride == (2 * stride) * c + stride) by (nonlinear_arith);
    lemma_div_multiples_vanish_fancy(c, stride, 2 * stride);
}

/// Floor division of `a` by a small positive divisor `b`, matching the
/// mathematical (Euclidean) quotient.
fn floor_div(a: i128, b: i128) -> (q: i128)
    requires
        0 < b <= 0x10000,
        -0x100000000000000000000i128 <= a <= 0x100000000000000000000i128,
    ensures
        q == a as int / b as int,
{
    if a >= 0 {
        let q = (a as u128) / (b as u128);
        q as i128
    } else {
        let m = (-a) as u128;
        let bu = b as u128;
        let t = (m + bu - 1) / bu;
        proof {
            let mi = m as int;
            let bi = b as int;
            let ti = (mi + bi - 1) / bi;
            let r = (mi + bi - 1) % bi;
            vstd::arithmetic::div_mod::lemma_fundamental_div_mod(mi + bi - 1, bi);
            // a == (-t) * b + (b - 1 - r), with the remainder in [0, b).
            assert(a as int == (-ti) * bi + (bi - 1 - r)) by (nonlinear_arith)
                requires
                    mi + bi - 1 == bi * ti + r,
                    a as int == -mi,
            ;
            lemma_fundamental_div_mod_converse_div(a as int, bi, -ti, bi - 1 - r);
        }
        -(t as i128)
    }
}

/// Cell coordinate owning the world coordinate `p` on a grid of the given
/// stride.
fn cell_coord(p: i64, s: i64) -> (q: i128)
    requires
        100 <= s <= 201,
    ensures
        q == spec_to_cell(p as int, s as int),
{
    let num: i128 = 2 * (p as i128) + (s as i128);
    let den: i128 = 2 * (s as i128);
    floor_div(num, den)
}

impl GameCursor {
    /// World position (in hundredths of a unit) of the center of cell
    /// `(x, y)` on the given grid.
    pub fn game_to_world(x: i32, y: i32, layer: CursorLayer) -> (w: (i64, i64))
        ensures
            w.0 == spec_to_world(x as int, layer.spec_size()),
            w.1 == spec_to_world(y as int, layer.spec_size()),
    {
        let s = layer.size();
        proof {
            assert(-0x80000000 * 201 <= (x as int) * (s as int) <= 0x80000000 * 201) by (nonlinear_arith)
                requires
                    -0x80000000 <= x as int <= 0x80000000,
                    100 <= s as int <= 201,
            ;
            assert(-0x80000000 * 201 <= (y as int) * (s as int) <= 0x80000000 * 201) by (nonlinear_arith)
                requires
                    -0x80000000 <= y as int <= 0x80000000,
                    100 <= s as int <= 201,
            ;
        }
        ((x as i64) * s, (y as i64) * s)
    }

    /// Cell (on the given grid) whose center is nearest to the world
    /// position `(wx, wy)`; positions exactly between two centers resolve to
    /// the higher cell.
    pub fn world_to_game(wx: i64, wy: i64, layer: CursorLayer) -> (c: (i32, i32))
        requires
            i32::MIN <= spec_to_cell(wx as int, layer.spec_size()) <= i32::MAX,
            i32::MIN <= spec_to_cell(wy as int, layer.spec_size()) <= i32::MAX,
        ensures
            c.0 == spec_to_cell(wx as int, layer.spec_size()),
            c.1 == spec_to_cell(wy as int, layer.spec_size()),
    {
        let s = layer.size();
        let cx = cell_coord(wx, s);
        let cy = cell_coord(wy, s);
        (cx as i32, cy as i32)
    }
}

} // verus!
