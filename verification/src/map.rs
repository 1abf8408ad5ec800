//! The dungeon map: tile grid, generated room list, revealed/visible bitsets,
//! blocked-tile bitset and the per-tile occupant index.

use vstd::prelude::*;

use crate::rect::Rect;
use crate::rng;

verus! {

pub const MAP_WIDTH: i32 = 80;
pub const MAP_HEIGHT: i32 = 50;

pub const MAX_ROOMS: i32 = 30;
pub const MIN_SIZE: i32 = 6;
pub const MAX_SIZE: i32 = 10;

#[derive(Clone, Copy, PartialEq, Eq, Structural, Debug)]
pub enum TileType {
    Wall,
    Floor,
}

pub struct GameMap {
    pub tiles: Vec<TileType>,
    pub rooms: Vec<Rect>,
    pub width: i32,
    pub height: i32,
    pub revealed_tiles: Vec<bool>,
    pub visible_tiles: Vec<bool>,
    pub blocked: Vec<bool>,
    pub tile_content: Vec<Vec<usize>>,
}

impl GameMap {
    pub open spec fn tile_count(self) -> int {
        self.width * self.height
    }

    pub open spec fn dims_ok(self) -> bool {
        3 <= self.width <= 1024 && 3 <= self.height <= 1024
    }

    pub open spec fn spec_idx(self, x: int, y: int) -> int {
        y * self.width + x
    }

    pub open spec fn in_bounds(self, x: int, y: int) -> bool {
        0 <= x < self.width && 0 <= y < self.height
    }

    /// Tiles strictly inside the one-tile border.
    pub open spec fn interior(self, x: int, y: int) -> bool {
        0 < x < self.width - 1 && 0 < y < self.height - 1
    }

    pub open spec fn tile_at(self, x: int, y: int) -> TileType {
        self.tiles@[self.spec_idx(x, y)]
    }

    /// The map never exposes a floor tile on its border.
    pub open spec fn borders_walled(self) -> bool {
        forall|x: int, y: int|
            self.in_bounds(x, y) && !self.interior(x, y) ==> #[trigger] self.tile_at(x, y)
                == TileType::Wall
    }

    /// Every currently visible tile has been revealed.
    pub open spec fn visible_subset_revealed(self) -> bool {
        forall|i: int|
            0 <= i < self.tile_count() && #[trigger] self.visible_tiles@[i]
                ==> self.revealed_tiles@[i]
    }

    pub open spec fn wf(self) -> bool {
        &&& self.dims_ok()
        &&& self.tiles@.len() == self.tile_count()
        &&& self.revealed_tiles@.len() == self.tile_count()
        &&& self.visible_tiles@.len() == self.tile_count()
        &&& self.blocked@.len() == self.tile_count()
        &&& self.tile_content@.len() == self.tile_count()
        &&& self.visible_subset_revealed()
        &&& self.borders_walled()
    }

    /// A generated room sits strictly inside the border: its carved tiles
    /// (`x1+1..=x2`, `y1+1..=y2`) never touch the outermost ring.
    pub open spec fn room_in_border(self, r: Rect) -> bool {
        &&& 0 <= r.x1
        &&& r.x1 + 2 <= r.x2
        &&& r.x2 <= self.width - 2
        &&& 0 <= r.y1
        &&& r.y1 + 2 <= r.y2
        &&& r.y2 <= self.height - 2
    }

    /// A generated room's width and height lie in the configured bounds.
    pub open spec fn room_size_ok(self, r: Rect) -> bool {
        &&& MIN_SIZE <= r.x2 - r.x1 < MAX_SIZE
        &&& MIN_SIZE <= r.y2 - r.y1 < MAX_SIZE
    }

    pub proof fn lemma_idx_bounds(self, x: int, y: int)
        requires
            self.dims_ok(),
            self.in_bounds(x, y),
        ensures
            0 <= self.spec_idx(x, y) < self.tile_count(),
            0 <= y * self.width,
            self.tile_count() <= 0x10_0000,
    {
        assert(0 <= y * self.width && 0 <= y * self.width + x < self.width * self.height
            && self.width * self.height <= 0x10_0000) by (nonlinear_arith)
            requires
                0 <= x < self.width <= 1024,
                0 <= y < self.height <= 1024,
        ;
    }

    /// Distinct coordinates give distinct flat indices.
    pub proof fn lemma_idx_injective(self, x1: int, y1: int, x2: int, y2: int)
        requires
            self.dims_ok(),
            self.in_bounds(x1, y1),
            self.in_bounds(x2, y2),
            self.spec_idx(x1, y1) == self.spec_idx(x2, y2),
        ensures
            x1 == x2 && y1 == y2,
    {
        assert(x1 == x2 && y1 == y2) by (nonlinear_arith)
            requires
                0 <= x1 < self.width,
                0 <= x2 < self.width,
                0 <= y1 < self.height,
                0 <= y2 < self.height,
                y1 * self.width + x1 == y2 * self.width + x2,
        ;
    }

    /// Every flat index comes from exactly one coordinate pair.
    pub proof fn lemma_idx_inverse(self, i: int)
        requires
            self.dims_ok(),
            0 <= i < self.tile_count(),
        ensures
            self.in_bounds(i % (self.width as int), i / (self.width as int)),
            self.spec_idx(i % (self.width as int), i / (self.width as int)) == i,
    {
        let w = self.width as int;
        vstd::arithmetic::div_mod::lemma_fundamental_div_mod(i, w);
        vstd::arithmetic::div_mod::lemma_mod_bound(i, w);
        assert(i / w < self.height) by (nonlinear_arith)
            requires
                w >= 1,
                i < w * self.height,
                i == w * (i / w) + i % w,
                0 <= i % w,
        ;
        assert(i / w >= 0) by (nonlinear_arith)
            requires
                w >= 1,
                i >= 0,
                i == w * (i / w) + i % w,
                i % w < w,
        ;
    }

    pub fn xy_idx(&self, x: i32, y: i32) -> (idx: usize)
        requires
            self.dims_ok(),
            self.in_bounds(x as int, y as int),
        ensures
            idx == self.spec_idx(x as int, y as int),
            0 <= idx < self.tile_count(),
    {
        proof {
            self.lemma_idx_bounds(x as int, y as int);
        }
        (y * self.width) as usize + x as usize
    }

    /// Carve a room: every covered tile becomes floor, nothing else changes.
    fn apply_room_to_map(&mut self, room: &Rect)
        requires
            old(self).wf(),
            old(self).room_in_border(*room),
        ensures
            final(self).wf(),
            final(self).tiles@.len() == old(self).tiles@.len(),
            forall|x: int, y: int|
                old(self).in_bounds(x, y) ==> #[trigger] final(self).tile_at(x, y) == (
                if room.covers(x, y) {
                    TileType::Floor
                } else {
                    old(self).tile_at(x, y)
                }),
            *final(self) == (GameMap { tiles: final(self).tiles, ..*old(self) }),
    {
        let mut y: i32 = room.y1 + 1;
        while y <= room.y2
            invariant
                old(self).wf(),
                old(self).room_in_border(*room),
                room.y1 + 1 <= y <= room.y2 + 1,
                self.tiles@.len() == old(self).tiles@.len(),
                forall|xx: int, yy: int|
                    old(self).in_bounds(xx, yy) ==> #[trigger] self.tile_at(xx, yy) == (
                    if room.covers(xx, yy) && yy < y {
                        TileType::Floor
                    } else {
                        old(self).tile_at(xx, yy)
                    }),
                *self == (GameMap { tiles: self.tiles, ..*old(self) }),
            decreases room.y2 + 1 - y,
        {
            let mut x: i32 = room.x1 + 1;
            while x <= room.x2
                invariant
                    old(self).wf(),
                    old(self).room_in_border(*room),
                    room.y1 + 1 <= y <= room.y2,
                    room.x1 + 1 <= x <= room.x2 + 1,
                    self.tiles@.len() == old(self).tiles@.len(),
                    forall|xx: int, yy: int|
                        old(self).in_bounds(xx, yy) ==> #[trigger] self.tile_at(xx, yy) == (
                        if room.covers(xx, yy) && (yy < y || (yy == y && xx < x)) {
                            TileType::Floor
                        } else {
                            old(self).tile_at(xx, yy)
                        }),
                    *self == (GameMap { tiles: self.tiles, ..*old(self) }),
                decreases room.x2 + 1 - x,
            {
                let ghost pre = *self;
                let idx = self.xy_idx(x, y);
                self.tiles[idx] = TileType::Floor;
                proof {
                    assert forall|xx: int, yy: int| old(self).in_bounds(xx, yy) implies #[trigger] self
                        .tile_at(xx, yy) == (if room.covers(xx, yy) && (yy < y || (yy == y && xx < x
                        + 1)) {
                        TileType::Floor
                    } else {
                        old(self).tile_at(xx, yy)
                    }) by {
                        pre.lemma_idx_bounds(xx, yy);
                        if pre.spec_idx(xx, yy) == pre.spec_idx(x as int, y as int) {
                            pre.lemma_idx_injective(xx, yy, x as int, y as int);
                        }
                        assert(pre.tile_at(xx, yy) == (if room.covers(xx, yy) && (yy < y || (yy == y
                            && xx < x)) {
                            TileType::Floor
                        } else {
                            old(self).tile_at(xx, yy)
                        }));
                    }
                }
                x = x + 1;
            }
            y = y + 1;
        }
        proof {
            assert forall|x: int, y: int|
                old(self).in_bounds(x, y) && !old(self).interior(x, y) implies #[trigger] self.tile_at(
                x,
                y,
            ) == old(self).tile_at(x, y) by {}
            lemma_carve_wf(*old(self), *self);
        }
    }

    /// Carve a horizontal corridor segment at row `y`, spanning the closed
    /// range between `x1` and `x2` in either order.
    fn apply_horizontal_tunnel(&mut self, x1: i32, x2: i32, y: i32)
        requires
            old(self).wf(),
            0 < y < old(self).height - 1,
            0 < x1 < old(self).width - 1,
            0 < x2 < old(self).width - 1,
        ensures
            final(self).wf(),
            forall|xx: int, yy: int|
                old(self).in_bounds(xx, yy) ==> #[trigger] final(self).tile_at(xx, yy) == (
                if yy == y && min_int(x1 as int, x2 as int) <= xx <= max_int(x1 as int, x2 as int) {
                    TileType::Floor
                } else {
                    old(self).tile_at(xx, yy)
                }),
            *final(self) == (GameMap { tiles: final(self).tiles, ..*old(self) }),
    {
        let lo: i32 = if x1 < x2 { x1 } else { x2 };
        let hi: i32 = if x1 < x2 { x2 } else { x1 };
        let mut x: i32 = lo;
        while x <= hi
            invariant
                old(self).wf(),
                0 < y < old(self).height - 1,
                0 < lo,
                hi < old(self).width - 1,
                lo == min_int(x1 as int, x2 as int),
                hi == max_int(x1 as int, x2 as int),
                lo <= x <= hi + 1,
                self.tiles@.len() == old(self).tiles@.len(),
                forall|xx: int, yy: int|
                    old(self).in_bounds(xx, yy) ==> #[trigger] self.tile_at(xx, yy) == (
                    if yy == y && lo <= xx < x {
                        TileType::Floor
                    } else {
                        old(self).tile_at(xx, yy)
                    }),
                *self == (GameMap { tiles: self.tiles, ..*old(self) }),
            decreases hi + 1 - x,
        {
            let ghost pre = *self;
            let idx = self.xy_idx(x, y);
            self.tiles[idx] = TileType::Floor;
            proof {
                assert forall|xx: int, yy: int| old(self).in_bounds(xx, yy) implies #[trigger] self
                    .tile_at(xx, yy) == (if yy == y && lo <= xx < x + 1 {
                    TileType::Floor
                } else {
                    old(self).tile_at(xx, yy)
                }) by {
                    pre.lemma_idx_bounds(xx, yy);
                    if pre.spec_idx(xx, yy) == pre.spec_idx(x as int, y as int) {
                        pre.lemma_idx_injective(xx, yy, x as int, y as int);
                    }
                    assert(pre.tile_at(xx, yy) == (if yy == y && lo <= xx < x {
                        TileType::Floor
                    } else {
                        old(self).tile_at(xx, yy)
                    }));
                }
            }
            x = x + 1;
        }
        proof {
            assert forall|x: int, y: int|
                old(self).in_bounds(x, y) && !old(self).interior(x, y) implies #[trigger] self.tile_at(
                x,
                y,
            ) == old(self).tile_at(x, y) by {}
            lemma_carve_wf(*old(self), *self);
        }
    }

    /// Carve a vertical corridor segment at column `x`, spanning the closed
    /// range between `y1` and `y2` in either order.
    fn apply_vertical_tunnel(&mut self, y1: i32, y2: i32, x: i32)
        requires
            old(self).wf(),
            0 < x < old(self).width - 1,
            0 < y1 < old(self).height - 1,
            0 < y2 < old(self).height - 1,
        ensures
            final(self).wf(),
            forall|xx: int, yy: int|
                old(self).in_bounds(xx, yy) ==> #[trigger] final(self).tile_at(xx, yy) == (
                if xx == x && min_int(y1 as int, y2 as int) <= yy <= max_int(y1 as int, y2 as int) {
                    TileType::Floor
                } else {
                    old(self).tile_at(xx, yy)
                }),
            *final(self) == (GameMap { tiles: final(self).tiles, ..*old(self) }),
    {
        let lo: i32 = if y1 < y2 { y1 } else { y2 };
        let hi: i32 = if y1 < y2 { y2 } else { y1 };
        let mut y: i32 = lo;
        while y <= hi
            invariant
                old(self).wf(),
                0 < x < old(self).width - 1,
                0 < lo,
                hi < old(self).height - 1,
                lo == min_int(y1 as int, y2 as int),
                hi == max_int(y1 as int, y2 as int),
                lo <= y <= hi + 1,
                self.tiles@.len() == old(self).tiles@.len(),
                forall|xx: int, yy: int|
                    old(self).in_bounds(xx, yy) ==> #[trigger] self.tile_at(xx, yy) == (
                    if xx == x && lo <= yy < y {
                        TileType::Floor
                    } else {
                        old(self).tile_at(xx, yy)
                    }),
                *self == (GameMap { tiles: self.tiles, ..*old(self) }),
            decreases hi + 1 - y,
        {
            let ghost pre = *self;
            let idx = self.xy_idx(x, y);
            self.tiles[idx] = TileType::Floor;
            proof {
                assert forall|xx: int, yy: int| old(self).in_bounds(xx, yy) implies #[trigger] self
                    .tile_at(xx, yy) == (if xx == x && lo <= yy < y + 1 {
                    TileType::Floor
                } else {
                    old(self).tile_at(xx, yy)
                }) by {
                    pre.lemma_idx_bounds(xx, yy);
                    if pre.spec_idx(xx, yy) == pre.spec_idx(x as int, y as int) {
                        pre.lemma_idx_injective(xx, yy, x as int, y as int);
                    }
                    assert(pre.tile_at(xx, yy) == (if xx == x && lo <= yy < y {
                        TileType::Floor
                    } else {
                        old(self).tile_at(xx, yy)
                    }));
                }
            }
            y = y + 1;
        }
        proof {
            assert forall|x: int, y: int|
                old(self).in_bounds(x, y) && !old(self).interior(x, y) implies #[trigger] self.tile_at(
                x,
                y,
            ) == old(self).tile_at(x, y) by {}
            lemma_carve_wf(*old(self), *self);
        }
    }

    /// Build the dungeon: propose up to `MAX_ROOMS` random rooms, reject any
    /// proposal that intersects an accepted room, carve each accepted room
    /// and an L-shaped corridor to the previously accepted room's center.
    ///
    /// The accepted rooms are pairwise non-intersecting and sit strictly
    /// inside the border; the border itself stays wall; nothing is revealed
    /// or visible yet.
    pub fn new_map_rooms_and_corridors(rng: &mut rltk::RandomNumberGenerator) -> (map: GameMap)
        ensures
            map.wf(),
            map.width == MAP_WIDTH,
            map.height == MAP_HEIGHT,
            1 <= map.rooms@.len() <= MAX_ROOMS,
            forall|k: int|
                0 <= k < map.rooms@.len() ==> map.room_in_border(#[trigger] map.rooms@[k]),
            forall|k: int|
                0 <= k < map.rooms@.len() ==> map.room_size_ok(#[trigger] map.rooms@[k]),
            forall|k: int, x: int, y: int|
                0 <= k < map.rooms@.len() && #[trigger] map.rooms@[k].covers(x, y)
                    ==> map.tile_at(x, y) == TileType::Floor,
            forall|k: int, x: int, y: int|
                0 <= k < map.rooms@.len() && #[trigger] map.rooms@[k].covers(x, y)
                    ==> map.connected(map.rooms@[0].spec_center(), (x, y)),
            forall|i: int, j: int|
                0 <= i < j < map.rooms@.len() ==> !(#[trigger] map.rooms@[i]).spec_intersects(
                    #[trigger] map.rooms@[j],
                ),
            forall|k: int|
                0 <= k < map.rooms@.len() ==> map.connected(
                    map.rooms@[0].spec_center(),
                    (#[trigger] map.rooms@[k]).spec_center(),
                ),
            forall|i: int|
                0 <= i < map.tile_count()
                    ==> !(#[trigger] map.revealed_tiles@[i]) && !map.visible_tiles@[i],
            map.tile_content@.len() == map.tile_count(),
            forall|i: int| 0 <= i < map.tile_count() ==> (#[trigger] map.tile_content@[i])@.len() == 0,
    {
        let mut map = GameMap {
            tiles: empty_tiles(),
            rooms: Vec::new(),
            width: MAP_WIDTH,
            height: MAP_HEIGHT,
            revealed_tiles: empty_bits(),
            visible_tiles: empty_bits(),
            blocked: empty_bits(),
            tile_content: empty_content(),
        };

        proof {
            assert forall|x: int, y: int|
                map.in_bounds(x, y) && !map.interior(x, y) implies #[trigger] map.tile_at(x, y)
                == TileType::Wall by {
                map.lemma_idx_bounds(x, y);
            }
        }
        let mut attempt: i32 = 0;
        while attempt < MAX_ROOMS
            invariant
                map.wf(),
                map.width == MAP_WIDTH,
                map.height == MAP_HEIGHT,
                attempt >= 1 ==> map.rooms@.len() >= 1,
                0 <= attempt <= MAX_ROOMS,
                map.rooms@.len() <= attempt,
                forall|k: int|
                    0 <= k < map.rooms@.len() ==> map.room_in_border(#[trigger] map.rooms@[k]),
                forall|k: int|
                    0 <= k < map.rooms@.len() ==> map.room_size_ok(#[trigger] map.rooms@[k]),
                forall|k: int, x: int, y: int|
                    0 <= k < map.rooms@.len() && #[trigger] map.rooms@[k].covers(x, y)
                        ==> map.tile_at(x, y) == TileType::Floor,
                forall|i: int, j: int|
                    0 <= i < j < map.rooms@.len() ==> !(#[trigger] map.rooms@[i]).spec_intersects(
                        #[trigger] map.rooms@[j],
                    ),
                forall|k: int|
                    0 <= k < map.rooms@.len() ==> map.connected(
                        map.rooms@[0].spec_center(),
                        (#[trigger] map.rooms@[k]).spec_center(),
                    ),
                forall|i: int|
                    0 <= i < map.tile_count()
                        ==> !(#[trigger] map.revealed_tiles@[i]) && !map.visible_tiles@[i],
                forall|i: int|
                    0 <= i < map.tile_count() ==> (#[trigger] map.tile_content@[i])@.len() == 0,
            decreases MAX_ROOMS - attempt,
        {
            let w = rng::range(rng, MIN_SIZE, MAX_SIZE);
            let h = rng::range(rng, MIN_SIZE, MAX_SIZE);
            let x = rng::roll_dice(rng, 1, MAP_WIDTH - w - 1) - 1;
            let y = rng::roll_dice(rng, 1, MAP_HEIGHT - h - 1) - 1;
            let new_room = Rect::new(x, y, w, h);
            let mut ok = true;
            let mut j: usize = 0;
            while j < map.rooms.len()
                invariant
                    0 <= j <= map.rooms@.len(),
                    ok == forall|k: int|
                        0 <= k < j ==> !new_room.spec_intersects(#[trigger] map.rooms@[k]),
                decreases map.rooms@.len() - j,
            {
                if new_room.intersects(&map.rooms[j]) {
                    ok = false;
                }
                j = j + 1;
            }
            if ok {
                let ghost s0 = map;
                map.apply_room_to_map(&new_room);
                let ghost s1 = map;
                let ghost mut s2 = s1;
                if map.rooms.len() != 0 {
                    let (new_x, new_y) = new_room.center();
                    let prev = map.rooms[map.rooms.len() - 1];
                    let (prev_x, prev_y) = prev.center();
                    if rng::range(rng, 0, 2) == 1 {
                        map.apply_horizontal_tunnel(prev_x, new_x, prev_y);
                        proof {
                            s2 = map;
                        }
                        map.apply_vertical_tunnel(prev_y, new_y, new_x);
                        proof {
                            assert forall|x: int|
                                min_int(prev_x as int, new_x as int) <= x <= max_int(
                                    prev_x as int,
                                    new_x as int,
                                ) implies #[trigger] map.floor_at(x, prev_y as int) by {
                                assert(s2.tile_at(x, prev_y as int) == TileType::Floor);
                            }
                            assert forall|y: int|
                                min_int(prev_y as int, new_y as int) <= y <= max_int(
                                    prev_y as int,
                                    new_y as int,
                                ) implies #[trigger] map.floor_at(new_x as int, y) by {}
                            lemma_corridor_connects(
                                map,
                                prev_x as int,
                                prev_y as int,
                                new_x as int,
                                new_y as int,
                                true,
                            );
                        }
                    } else {
                        map.apply_vertical_tunnel(prev_y, new_y, prev_x);
                        proof {
                            s2 = map;
                        }
                        map.apply_horizontal_tunnel(prev_x, new_x, new_y);
                        proof {
                            assert forall|y: int|
                                min_int(prev_y as int, new_y as int) <= y <= max_int(
                                    prev_y as int,
                                    new_y as int,
                                ) implies #[trigger] map.floor_at(prev_x as int, y) by {
                                assert(s2.tile_at(prev_x as int, y) == TileType::Floor);
                            }
                            assert forall|x: int|
                                min_int(prev_x as int, new_x as int) <= x <= max_int(
                                    prev_x as int,
                                    new_x as int,
                                ) implies #[trigger] map.floor_at(x, new_y as int) by {}
                            lemma_corridor_connects(
                                map,
                                prev_x as int,
                                prev_y as int,
                                new_x as int,
                                new_y as int,
                                false,
                            );
                        }
                    }
                    proof {
                        assert forall|x: int, y: int|
                            s0.in_bounds(x, y) && #[trigger] s0.tile_at(x, y) == TileType::Floor
                            implies map.tile_at(x, y) == TileType::Floor by {
                            assert(s1.tile_at(x, y) == TileType::Floor);
                            assert(s2.tile_at(x, y) == TileType::Floor);
                        }
                        assert forall|k: int|
                            0 <= k < map.rooms@.len() implies map.connected(
                            map.rooms@[0].spec_center(),
                            (#[trigger] map.rooms@[k]).spec_center(),
                        ) by {
                            assert(s0.connected(
                                s0.rooms@[0].spec_center(),
                                s0.rooms@[k].spec_center(),
                            ));
                            lemma_connected_monotone(
                                s0,
                                map,
                                s0.rooms@[0].spec_center(),
                                s0.rooms@[k].spec_center(),
                            );
                        }
                        assert(map.connected(
                            map.rooms@[0].spec_center(),
                            prev.spec_center(),
                        ));
                        lemma_connected_trans(
                            map,
                            map.rooms@[0].spec_center(),
                            (prev_x as int, prev_y as int),
                            (new_x as int, new_y as int),
                        );
                        assert(map.connected(
                            map.rooms@[0].spec_center(),
                            new_room.spec_center(),
                        ));
                    }
                }
                proof {
                    assert forall|x: int, y: int|
                        s0.in_bounds(x, y) && #[trigger] s0.tile_at(x, y) == TileType::Floor
                        implies map.tile_at(x, y) == TileType::Floor by {
                        assert(s1.tile_at(x, y) == TileType::Floor);
                        assert(s2.tile_at(x, y) == TileType::Floor);
                    }
                    assert forall|x: int, y: int| #[trigger]
                        new_room.covers(x, y) implies map.tile_at(x, y) == TileType::Floor by {
                        assert(s1.tile_at(x, y) == TileType::Floor);
                        assert(s2.tile_at(x, y) == TileType::Floor);
                    }
                    assert forall|k: int, x: int, y: int|
                        0 <= k < map.rooms@.len() && #[trigger] map.rooms@[k].covers(x, y)
                        implies map.tile_at(x, y) == TileType::Floor by {
                        assert(s0.rooms@[k].covers(x, y));
                        assert(s0.tile_at(x, y) == TileType::Floor);
                        assert(s1.tile_at(x, y) == TileType::Floor);
                        assert(s2.tile_at(x, y) == TileType::Floor);
                    }
                }
                let ghost carved = map;
                map.rooms.push(new_room);
                proof {
                    assert forall|x: int, y: int|
                        map.in_bounds(x, y) && !map.interior(x, y) implies #[trigger] map.tile_at(
                        x,
                        y,
                    ) == TileType::Wall by {
                        assert(carved.tile_at(x, y) == TileType::Wall);
                    }
                    assert forall|k: int, x: int, y: int|
                        0 <= k < map.rooms@.len() && #[trigger] map.rooms@[k].covers(x, y)
                        implies map.tile_at(x, y) == TileType::Floor by {
                        if k < carved.rooms@.len() {
                            assert(carved.rooms@[k].covers(x, y));
                            assert(carved.tile_at(x, y) == TileType::Floor);
                        } else {
                            assert(new_room.covers(x, y));
                            assert(carved.tile_at(x, y) == TileType::Floor);
                        }
                    }
                    assert forall|k: int|
                        0 <= k < map.rooms@.len() implies map.connected(
                        map.rooms@[0].spec_center(),
                        (#[trigger] map.rooms@[k]).spec_center(),
                    ) by {
                        if k < carved.rooms@.len() {
                            assert(carved.connected(
                                carved.rooms@[0].spec_center(),
                                carved.rooms@[k].spec_center(),
                            ));
                            lemma_connected_monotone(
                                carved,
                                map,
                                carved.rooms@[0].spec_center(),
                                carved.rooms@[k].spec_center(),
                            );
                        } else if carved.rooms@.len() == 0 {
                            let c = new_room.spec_center();
                            lemma_center_covered(new_room);
                            assert(s1.tile_at(c.0, c.1) == TileType::Floor);
                            assert(map.floor_at(c.0, c.1));
                            lemma_connected_refl(map, c);
                        } else {
                            assert(carved.connected(
                                carved.rooms@[0].spec_center(),
                                new_room.spec_center(),
                            ));
                            lemma_connected_monotone(
                                carved,
                                map,
                                carved.rooms@[0].spec_center(),
                                new_room.spec_center(),
                            );
                        }
                    }
                }
            }
            attempt = attempt + 1;
        }
        proof {
            assert forall|k: int, x: int, y: int|
                0 <= k < map.rooms@.len() && #[trigger] map.rooms@[k].covers(x, y)
                implies map.connected(map.rooms@[0].spec_center(), (x, y)) by {
                let r = map.rooms@[k];
                let c = r.spec_center();
                lemma_center_covered(r);
                assert forall|xx: int|
                    min_int(c.0, x) <= xx <= max_int(c.0, x) implies #[trigger] map.floor_at(
                    xx,
                    c.1,
                ) by {
                    assert(map.rooms@[k].covers(xx, c.1));
                }
                lemma_row_connected(map, c.0, x, c.1);
                assert forall|yy: int|
                    min_int(c.1, y) <= yy <= max_int(c.1, y) implies #[trigger] map.floor_at(
                    x,
                    yy,
                ) by {
                    assert(map.rooms@[k].covers(x, yy));
                }
                lemma_column_connected(map, c.1, y, x);
                lemma_connected_trans(map, c, (x, c.1), (x, y));
                assert(map.connected(map.rooms@[0].spec_center(), c));
                lemma_connected_trans(map, map.rooms@[0].spec_center(), c, (x, y));
            }
        }
        map
    }
}

pub open spec fn min_int(a: int, b: int) -> int {
    if a < b {
        a
    } else {
        b
    }
}

pub open spec fn max_int(a: int, b: int) -> int {
    if a < b {
        b
    } else {
        a
    }
}

/// A carve that leaves the border ring untouched preserves map
/// well-formedness.
proof fn lemma_carve_wf(pre: GameMap, post: GameMap)
    requires
        pre.wf(),
        post.width == pre.width,
        post.height == pre.height,
        post.tiles@.len() == pre.tiles@.len(),
        post.revealed_tiles == pre.revealed_tiles,
        post.visible_tiles == pre.visible_tiles,
        post.blocked == pre.blocked,
        post.tile_content == pre.tile_content,
        forall|x: int, y: int|
            pre.in_bounds(x, y) && !pre.interior(x, y) ==> #[trigger] post.tile_at(x, y)
                == pre.tile_at(x, y),
    ensures
        post.wf(),
{
}

fn empty_tiles() -> (v: Vec<TileType>)
    ensures
        v@.len() == MAP_WIDTH * MAP_HEIGHT,
        forall|i: int| 0 <= i < v@.len() ==> v@[i] == TileType::Wall,
{
    let v: Vec<TileType> = vec![TileType::Wall; (MAP_WIDTH * MAP_HEIGHT) as usize];
    v
}

fn empty_bits() -> (v: Vec<bool>)
    ensures
        v@.len() == MAP_WIDTH * MAP_HEIGHT,
        forall|i: int| 0 <= i < v@.len() ==> !v@[i],
{
    let v: Vec<bool> = vec![false; (MAP_WIDTH * MAP_HEIGHT) as usize];
    v
}

fn empty_content() -> (v: Vec<Vec<usize>>)
    ensures
        v@.len() == MAP_WIDTH * MAP_HEIGHT,
        forall|i: int| 0 <= i < v@.len() ==> (#[trigger] v@[i])@.len() == 0,
{
    let mut v: Vec<Vec<usize>> = Vec::new();
    let mut i: usize = 0;
    while i < (MAP_WIDTH * MAP_HEIGHT) as usize
        invariant
            v@.len() == i,
            i <= MAP_WIDTH * MAP_HEIGHT,
            forall|k: int| 0 <= k < i ==> (#[trigger] v@[k])@.len() == 0,
        decreases MAP_WIDTH * MAP_HEIGHT - i,
    {
        v.push(Vec::new());
        i = i + 1;
    }
    v
}

/// Two tiles share an edge.
pub open spec fn adj4(a: (int, int), b: (int, int)) -> bool {
    (a.0 == b.0 && (a.1 == b.1 + 1 || a.1 + 1 == b.1)) || (a.1 == b.1 && (a.0 == b.0 + 1 || a.0
        + 1 == b.0))
}

impl GameMap {
    pub open spec fn floor_at(self, x: int, y: int) -> bool {
        self.in_bounds(x, y) && self.tile_at(x, y) == TileType::Floor
    }

    /// A walk over floor tiles: non-empty, every stop is floor, and
    /// consecutive stops share an edge.
    pub open spec fn is_floor_path(self, p: Seq<(int, int)>) -> bool {
        &&& p.len() >= 1
        &&& forall|i: int| 0 <= i < p.len() ==> self.floor_at((#[trigger] p[i]).0, p[i].1)
        &&& forall|i: int| 0 <= i < p.len() - 1 ==> adj4(#[trigger] p[i], p[i + 1])
    }

    /// Tile `b` can be reached from tile `a` over 4-connected floor.
    pub open spec fn connected(self, a: (int, int), b: (int, int)) -> bool {
        exists|p: Seq<(int, int)>|
            #[trigger] self.is_floor_path(p) && p.first() == a && p.last() == b
    }
}

/// Carving only ever turns wall into floor, so an existing floor walk
/// survives any later carve.
pub proof fn lemma_connected_monotone(m1: GameMap, m2: GameMap, a: (int, int), b: (int, int))
    requires
        m1.connected(a, b),
        m2.width == m1.width,
        m2.height == m1.height,
        forall|x: int, y: int|
            m1.in_bounds(x, y) && #[trigger] m1.tile_at(x, y) == TileType::Floor ==> m2.tile_at(
                x,
                y,
            ) == TileType::Floor,
    ensures
        m2.connected(a, b),
{
    let p = choose|p: Seq<(int, int)>|
        #[trigger] m1.is_floor_path(p) && p.first() == a && p.last() == b;
    assert forall|i: int| 0 <= i < p.len() implies m2.floor_at((#[trigger] p[i]).0, p[i].1) by {
        assert(m1.floor_at(p[i].0, p[i].1));
    }
    assert(m2.is_floor_path(p));
}

pub proof fn lemma_connected_refl(m: GameMap, a: (int, int))
    requires
        m.floor_at(a.0, a.1),
    ensures
        m.connected(a, a),
{
    let p = seq![a];
    assert(m.is_floor_path(p));
}

pub proof fn lemma_connected_trans(m: GameMap, a: (int, int), b: (int, int), c: (int, int))
    requires
        m.connected(a, b),
        m.connected(b, c),
    ensures
        m.connected(a, c),
{
    let p1 = choose|p: Seq<(int, int)>|
        #[trigger] m.is_floor_path(p) && p.first() == a && p.last() == b;
    let p2 = choose|p: Seq<(int, int)>|
        #[trigger] m.is_floor_path(p) && p.first() == b && p.last() == c;
    if p2.len() == 1 {
        assert(m.is_floor_path(p1) && p1.first() == a && p1.last() == c);
    } else {
        let p = p1 + p2.drop_first();
        assert(p.len() == p1.len() + p2.len() - 1);
        assert forall|i: int| 0 <= i < p.len() implies m.floor_at((#[trigger] p[i]).0, p[i].1) by {
            if i < p1.len() {
                assert(p[i] == p1[i]);
                assert(m.floor_at(p1[i].0, p1[i].1));
            } else {
                assert(p[i] == p2[i - p1.len() + 1]);
                assert(m.floor_at(p2[i - p1.len() + 1].0, p2[i - p1.len() + 1].1));
            }
        }
        assert forall|i: int| 0 <= i < p.len() - 1 implies adj4(#[trigger] p[i], p[i + 1]) by {
            if i + 1 < p1.len() {
                assert(p[i] == p1[i] && p[i + 1] == p1[i + 1]);
                assert(adj4(p1[i], p1[i + 1]));
            } else if i + 1 == p1.len() {
                assert(p[i] == p1[i] && p1[i] == b && p2[0] == b);
                assert(p[i + 1] == p2[1]);
                assert(adj4(p2[0], p2[1]));
            } else {
                assert(p[i] == p2[i - p1.len() + 1] && p[i + 1] == p2[i - p1.len() + 2]);
                assert(adj4(p2[i - p1.len() + 1], p2[i - p1.len() + 2]));
            }
        }
        assert(m.is_floor_path(p) && p.first() == a && p.last() == c);
    }
}

/// A run of floor along one row joins its two ends.
pub proof fn lemma_row_connected(m: GameMap, x1: int, x2: int, y: int)
    requires
        forall|x: int| min_int(x1, x2) <= x <= max_int(x1, x2) ==> #[trigger] m.floor_at(x, y),
    ensures
        m.connected((x1, y), (x2, y)),
{
    if x1 <= x2 {
        let p = Seq::new((x2 - x1 + 1) as nat, |i: int| (x1 + i, y));
        assert forall|i: int| 0 <= i < p.len() implies m.floor_at((#[trigger] p[i]).0, p[i].1) by {
            assert(m.floor_at(x1 + i, y));
        }
        assert(m.is_floor_path(p) && p.first() == (x1, y) && p.last() == (x2, y));
    } else {
        let p = Seq::new((x1 - x2 + 1) as nat, |i: int| (x1 - i, y));
        assert forall|i: int| 0 <= i < p.len() implies m.floor_at((#[trigger] p[i]).0, p[i].1) by {
            assert(m.floor_at(x1 - i, y));
        }
        assert(m.is_floor_path(p) && p.first() == (x1, y) && p.last() == (x2, y));
    }
}

/// A run of floor along one column joins its two ends.
pub proof fn lemma_column_connected(m: GameMap, y1: int, y2: int, x: int)
    requires
        forall|y: int| min_int(y1, y2) <= y <= max_int(y1, y2) ==> #[trigger] m.floor_at(x, y),
    ensures
        m.connected((x, y1), (x, y2)),
{
    if y1 <= y2 {
        let p = Seq::new((y2 - y1 + 1) as nat, |i: int| (x, y1 + i));
        assert forall|i: int| 0 <= i < p.len() implies m.floor_at((#[trigger] p[i]).0, p[i].1) by {
            assert(m.floor_at(x, y1 + i));
        }
        assert(m.is_floor_path(p) && p.first() == (x, y1) && p.last() == (x, y2));
    } else {
        let p = Seq::new((y1 - y2 + 1) as nat, |i: int| (x, y1 - i));
        assert forall|i: int| 0 <= i < p.len() implies m.floor_at((#[trigger] p[i]).0, p[i].1) by {
            assert(m.floor_at(x, y1 - i));
        }
        assert(m.is_floor_path(p) && p.first() == (x, y1) && p.last() == (x, y2));
    }
}

/// An L-shaped corridor of floor joins its two corner endpoints.
proof fn lemma_corridor_connects(
    m: GameMap,
    ax: int,
    ay: int,
    bx: int,
    by: int,
    horizontal_first: bool,
)
    requires
        horizontal_first ==> (forall|x: int|
            min_int(ax, bx) <= x <= max_int(ax, bx) ==> #[trigger] m.floor_at(x, ay)) && (forall|
            y: int,
        |
            min_int(ay, by) <= y <= max_int(ay, by) ==> #[trigger] m.floor_at(bx, y)),
        !horizontal_first ==> (forall|y: int|
            min_int(ay, by) <= y <= max_int(ay, by) ==> #[trigger] m.floor_at(ax, y)) && (forall|
            x: int,
        |
            min_int(ax, bx) <= x <= max_int(ax, bx) ==> #[trigger] m.floor_at(x, by)),
    ensures
        m.connected((ax, ay), (bx, by)),
{
    if horizontal_first {
        lemma_row_connected(m, ax, bx, ay);
        lemma_column_connected(m, ay, by, bx);
        lemma_connected_trans(m, (ax, ay), (bx, ay), (bx, by));
    } else {
        lemma_column_connected(m, ay, by, ax);
        lemma_row_connected(m, ax, bx, by);
        lemma_connected_trans(m, (ax, ay), (ax, by), (bx, by));
    }
}

/// A room's center lies among its carved tiles.
proof fn lemma_center_covered(r: Rect)
    requires
        0 <= r.x1,
        r.x1 + 2 <= r.x2,
        0 <= r.y1,
        r.y1 + 2 <= r.y2,
    ensures
        r.covers(r.spec_center().0, r.spec_center().1),
{
}

} // verus!
