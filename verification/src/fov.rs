//! Field of view: which tiles can be seen from an origin within a range,
//! with walls occluding sight.
//!
//! A tile is visible when it is in range and the straight line between it
//! and the origin, walked one step at a time along the dominant axis with
//! the minor coordinate rounded to the nearest tile, crosses only floor
//! tiles strictly between the endpoints.  Sight is symmetric: the line is
//! tried in both directions and either suffices.

use vstd::prelude::*;

use crate::map::GameMap;
use crate::map::TileType;

verus! {

pub open spec fn abs_int(a: int) -> int {
    if a < 0 {
        -a
    } else {
        a
    }
}

pub open spec fn sgn_int(a: int) -> int {
    if a > 0 {
        1
    } else if a < 0 {
        -1
    } else {
        0
    }
}

/// A floor tile lets sight through; walls and the world edge do not.
pub open spec fn transparent_at(m: GameMap, x: int, y: int) -> bool {
    m.in_bounds(x, y) && m.tile_at(x, y) == TileType::Floor
}

/// Number of steps along the dominant axis of the segment.
pub open spec fn line_steps(x0: int, y0: int, x1: int, y1: int) -> int {
    max_int_f(abs_int(x1 - x0), abs_int(y1 - y0))
}

pub open spec fn max_int_f(a: int, b: int) -> int {
    if a < b {
        b
    } else {
        a
    }
}

/// The i-th sample of the rounded line from (x0,y0) towards (x1,y1):
/// the dominant coordinate advances by i, the minor coordinate is the
/// nearest-tile rounding of the exact line (ties rounding away from the
/// start).
pub open spec fn line_point(x0: int, y0: int, x1: int, y1: int, i: int) -> (int, int) {
    let adx = abs_int(x1 - x0);
    let ady = abs_int(y1 - y0);
    if adx >= ady {
        (x0 + sgn_int(x1 - x0) * i, y0 + sgn_int(y1 - y0) * ((2 * ady * i + adx) / (2 * adx)))
    } else {
        (x0 + sgn_int(x1 - x0) * ((2 * adx * i + ady) / (2 * ady)), y0 + sgn_int(y1 - y0) * i)
    }
}

/// The i-th line sample lies on a transparent tile.
pub open spec fn clear_at(m: GameMap, x0: int, y0: int, x1: int, y1: int, i: int) -> bool {
    transparent_at(m, line_point(x0, y0, x1, y1, i).0, line_point(x0, y0, x1, y1, i).1)
}

/// Every tile strictly between the endpoints of the rounded line is
/// transparent; the endpoints themselves are not required to be.
pub open spec fn line_clear(m: GameMap, x0: int, y0: int, x1: int, y1: int) -> bool {
    forall|i: int| 1 <= i < line_steps(x0, y0, x1, y1) ==> #[trigger] clear_at(m, x0, y0, x1, y1, i)
}

/// Sight between two tiles is symmetric by construction.
pub open spec fn sees(m: GameMap, x0: int, y0: int, x1: int, y1: int) -> bool {
    line_clear(m, x0, y0, x1, y1) || line_clear(m, x1, y1, x0, y0)
}

/// Sight runs the same both ways: the definition tries the rounded line
/// in both directions and accepts either.
pub proof fn lemma_sees_symmetric(m: GameMap, x0: int, y0: int, x1: int, y1: int)
    ensures
        sees(m, x0, y0, x1, y1) == sees(m, x1, y1, x0, y0),
{
}

/// Tile (x, y) is visible from (ox, oy) within `range`.
pub open spec fn spec_visible(m: GameMap, ox: int, oy: int, x: int, y: int, range: int) -> bool {
    &&& m.in_bounds(x, y)
    &&& (x - ox) * (x - ox) + (y - oy) * (y - oy) <= range * range
    &&& sees(m, ox, oy, x, y)
}

/// `spec_visible` read through a flat tile index.
pub open spec fn visible_idx(m: GameMap, ox: int, oy: int, range: int, i: int) -> bool {
    spec_visible(m, ox, oy, i % (m.width as int), i / (m.width as int), range)
}

/// Walk the rounded line from (x0,y0) to (x1,y1) and report whether every
/// strictly intermediate tile is floor.
fn line_clear_exec(m: &GameMap, x0: i32, y0: i32, x1: i32, y1: i32) -> (b: bool)
    requires
        m.wf(),
        m.in_bounds(x0 as int, y0 as int),
        m.in_bounds(x1 as int, y1 as int),
    ensures
        b == line_clear(*m, x0 as int, y0 as int, x1 as int, y1 as int),
{
    let adx: i32 = if x1 >= x0 {
        x1 - x0
    } else {
        x0 - x1
    };
    let ady: i32 = if y1 >= y0 {
        y1 - y0
    } else {
        y0 - y1
    };
    let sx: i32 = if x1 > x0 {
        1
    } else if x1 < x0 {
        -1
    } else {
        0
    };
    let sy: i32 = if y1 > y0 {
        1
    } else if y1 < y0 {
        -1
    } else {
        0
    };
    if adx >= ady {
        let mut i: i32 = 1;
        while i < adx
            invariant
                m.wf(),
                m.in_bounds(x0 as int, y0 as int),
                m.in_bounds(x1 as int, y1 as int),
                adx == abs_int(x1 as int - x0 as int),
                ady == abs_int(y1 as int - y0 as int),
                adx >= ady,
                sx == sgn_int(x1 as int - x0 as int),
                sy == sgn_int(y1 as int - y0 as int),
                1 <= i,
                forall|j: int|
                    1 <= j < i ==> #[trigger] clear_at(
                        *m,
                        x0 as int,
                        y0 as int,
                        x1 as int,
                        y1 as int,
                        j,
                    ),
            decreases adx - i,
        {
            proof {
                assert(0 <= 2 * (ady as int) * (i as int) + (adx as int) <= 0x40_0000) by (nonlinear_arith)
                    requires
                        0 <= ady <= 1024,
                        0 <= i <= 1024,
                        0 <= adx <= 1024,
                ;
            }
            let num: u32 = 2 * (ady as u32) * (i as u32) + (adx as u32);
            let den: u32 = 2 * (adx as u32);
            proof {
                vstd::arithmetic::div_mod::lemma_div_pos_is_pos(num as int, den as int);
                assert((num as int) < (den as int) * (ady + 1)) by (nonlinear_arith)
                    requires
                        num == 2 * (ady as int) * (i as int) + (adx as int),
                        den == 2 * (adx as int),
                        1 <= i < adx,
                        0 <= ady <= adx,
                ;
                vstd::arithmetic::div_mod::lemma_multiply_divide_lt(
                    num as int,
                    den as int,
                    ady + 1,
                );
            }
            let offset: i32 = (num / den) as i32;
            proof {
                assert(-1024 <= (sy as int) * (offset as int) <= 1024) by (nonlinear_arith)
                    requires
                        -1 <= sy <= 1,
                        0 <= offset <= 1024,
                ;
                assert(-1024 <= (sx as int) * (i as int) <= 1024) by (nonlinear_arith)
                    requires
                        -1 <= sx <= 1,
                        0 <= i <= 1024,
                ;
            }
            let px: i32 = x0 + sx * i;
            let py: i32 = y0 + sy * offset;
            proof {
                assert((sx as int) * (i as int) == (if sx == 1 {
                    i as int
                } else {
                    -(i as int)
                })) by (nonlinear_arith)
                    requires
                        sx == 1 || sx == -1,
                ;
                assert((sy as int) * (offset as int) == (if sy == 1 {
                    offset as int
                } else if sy == -1 {
                    -(offset as int)
                } else {
                    0
                })) by (nonlinear_arith)
                    requires
                        -1 <= sy <= 1,
                ;
                assert(m.in_bounds(px as int, py as int));
                assert(line_point(x0 as int, y0 as int, x1 as int, y1 as int, i as int) == (
                px as int,
                py as int,
                ));
            }
            let idx = m.xy_idx(px, py);
            let t = m.tiles[idx];
            if t != TileType::Floor {
                proof {
                    assert(!clear_at(*m, x0 as int, y0 as int, x1 as int, y1 as int, i as int));
                }
                return false;
            }
            proof {
                assert(clear_at(*m, x0 as int, y0 as int, x1 as int, y1 as int, i as int));
            }
            i = i + 1;
        }
        true
    } else {
        let mut i: i32 = 1;
        while i < ady
            invariant
                m.wf(),
                m.in_bounds(x0 as int, y0 as int),
                m.in_bounds(x1 as int, y1 as int),
                adx == abs_int(x1 as int - x0 as int),
                ady == abs_int(y1 as int - y0 as int),
                adx < ady,
                sx == sgn_int(x1 as int - x0 as int),
                sy == sgn_int(y1 as int - y0 as int),
                1 <= i,
                forall|j: int|
                    1 <= j < i ==> #[trigger] clear_at(
                        *m,
                        x0 as int,
                        y0 as int,
                        x1 as int,
                        y1 as int,
                        j,
                    ),
            decreases ady - i,
        {
            proof {
                assert(0 <= 2 * (adx as int) * (i as int) + (ady as int) <= 0x40_0000) by (nonlinear_arith)
                    requires
                        0 <= adx <= 1024,
                        0 <= i <= 1024,
                        0 <= ady <= 1024,
                ;
            }
            let num: u32 = 2 * (adx as u32) * (i as u32) + (ady as u32);
            let den: u32 = 2 * (ady as u32);
            proof {
                vstd::arithmetic::div_mod::lemma_div_pos_is_pos(num as int, den as int);
                assert((num as int) < (den as int) * (adx + 1)) by (nonlinear_arith)
                    requires
                        num == 2 * (adx as int) * (i as int) + (ady as int),
                        den == 2 * (ady as int),
                        1 <= i < ady,
                        0 <= adx < ady,
                ;
                vstd::arithmetic::div_mod::lemma_multiply_divide_lt(
                    num as int,
                    den as int,
                    adx + 1,
                );
            }
            let offset: i32 = (num / den) as i32;
            proof {
                assert(-1024 <= (sx as int) * (offset as int) <= 1024) by (nonlinear_arith)
                    requires
                        -1 <= sx <= 1,
                        0 <= offset <= 1024,
                ;
                assert(-1024 <= (sy as int) * (i as int) <= 1024) by (nonlinear_arith)
                    requires
                        -1 <= sy <= 1,
                        0 <= i <= 1024,
                ;
            }
            let px: i32 = x0 + sx * offset;
            let py: i32 = y0 + sy * i;
            proof {
                assert((sy as int) * (i as int) == (if sy == 1 {
                    i as int
                } else {
                    -(i as int)
                })) by (nonlinear_arith)
                    requires
                        sy == 1 || sy == -1,
                ;
                assert((sx as int) * (offset as int) == (if sx == 1 {
                    offset as int
                } else if sx == -1 {
                    -(offset as int)
                } else {
                    0
                })) by (nonlinear_arith)
                    requires
                        -1 <= sx <= 1,
                ;
                assert(m.in_bounds(px as int, py as int));
                assert(line_point(x0 as int, y0 as int, x1 as int, y1 as int, i as int) == (
                px as int,
                py as int,
                ));
            }
            let idx = m.xy_idx(px, py);
            let t = m.tiles[idx];
            if t != TileType::Floor {
                proof {
                    assert(!clear_at(*m, x0 as int, y0 as int, x1 as int, y1 as int, i as int));
                }
                return false;
            }
            proof {
                assert(clear_at(*m, x0 as int, y0 as int, x1 as int, y1 as int, i as int));
            }
            i = i + 1;
        }
        true
    }
}

/// Compute the visible-tile bitset for an origin and range: one entry per
/// map tile, true exactly for the tiles of `spec_visible`.
pub fn field_of_view(m: &GameMap, ox: i32, oy: i32, range: i32) -> (vis: Vec<bool>)
    requires
        m.wf(),
        m.in_bounds(ox as int, oy as int),
        0 <= range <= 1024,
    ensures
        vis@.len() == m.tile_count(),
        forall|i: int|
            0 <= i < m.tile_count() ==> #[trigger] vis@[i] == visible_idx(
                *m,
                ox as int,
                oy as int,
                range as int,
                i,
            ),
{
    let mut vis: Vec<bool> = Vec::new();
    let count: usize = m.tiles.len();
    let w: usize = m.width as usize;
    let mut t: usize = 0;
    while t < count
        invariant
            m.wf(),
            m.in_bounds(ox as int, oy as int),
            0 <= range <= 1024,
            w == m.width as int,
            count == m.tile_count(),
            t <= count,
            vis@.len() == t,
            forall|i: int|
                0 <= i < t ==> #[trigger] vis@[i] == visible_idx(
                    *m,
                    ox as int,
                    oy as int,
                    range as int,
                    i,
                ),
        decreases count - t,
    {
        proof {
            m.lemma_idx_inverse(t as int);
        }
        let x: i32 = (t % w) as i32;
        let y: i32 = (t / w) as i32;
        let dx: i32 = x - ox;
        let dy: i32 = y - oy;
        proof {
            assert(0 <= (dx as int) * (dx as int) <= 0x10_0000 && 0 <= (dy as int) * (dy as int)
                <= 0x10_0000 && 0 <= (range as int) * (range as int) <= 0x10_0000)
                by (nonlinear_arith)
                requires
                    -1024 <= dx <= 1024,
                    -1024 <= dy <= 1024,
                    0 <= range <= 1024,
            ;
        }
        let in_range: bool = dx * dx + dy * dy <= range * range;
        let b: bool = in_range && (line_clear_exec(m, ox, oy, x, y) || line_clear_exec(
            m,
            x,
            y,
            ox,
            oy,
        ));
        vis.push(b);
        t = t + 1;
    }
    vis
}

} // verus!
