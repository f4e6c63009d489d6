use vstd::prelude::*;
use crate::geometry::{Point, Rect};
use crate::rng::{rng_new, rng_range, rng_roll_dice};

verus! {

/// What stands on one tile of the map.
#[derive(Clone, Copy, Debug, PartialEq, Eq, Structural)]
pub enum TileType {
    Wall,
    Floor,
}

/// A rectangular grid of tiles, stored row by row, with the rooms carved into it
/// and one flag per tile for what the player has seen, sees now, and what blocks
/// movement.
pub struct GameMap {
    pub tiles: Vec<TileType>,
    pub rooms: Vec<Rect>,
    pub width: i32,
    pub height: i32,
    pub revealed_tiles: Vec<bool>,
    pub visible_tiles: Vec<bool>,
    pub blocked: Vec<bool>,
}

impl Default for GameMap {
    /// An empty map: no tiles, no rooms, zero by zero.
    fn default() -> (map: GameMap)
        ensures
            map.tiles@.len() == 0,
            map.rooms@.len() == 0,
            map.width == 0,
            map.height == 0,
            map.revealed_tiles@.len() == 0,
            map.visible_tiles@.len() == 0,
            map.blocked@.len() == 0,
            map.wf(),
    {
        GameMap {
            tiles: Vec::new(),
            rooms: Vec::new(),
            width: 0,
            height: 0,
            revealed_tiles: Vec::new(),
            visible_tiles: Vec::new(),
            blocked: Vec::new(),
        }
    }
}

/// The index of tile `(x, y)` in a row-major grid `w` tiles wide.
pub open spec fn cell(w: int, x: int, y: int) -> int {
    y * w + x
}

/// The tile at `(x, y)` of a row-major grid `w` tiles wide.
pub open spec fn tile_at(tiles: Seq<TileType>, w: int, x: int, y: int) -> TileType {
    tiles[cell(w, x, y)]
}

/// Whether `(x, y)` lies in the interior of `r`: the tiles a room carves.
pub open spec fn in_interior(r: Rect, x: int, y: int) -> bool {
    r.x1 < x <= r.x2 && r.y1 < y <= r.y2
}

/// Whether every tile of the interior of `r` is floor.
pub open spec fn room_carved(tiles: Seq<TileType>, w: int, r: Rect) -> bool {
    forall|x: int, y: int| #[trigger] in_interior(r, x, y) ==> tile_at(tiles, w, x, y) == TileType::Floor
}

/// What `GameMap::xy_idx` computes, with the `as usize` conversions of its arguments.
pub open spec fn xy_idx_spec(x: i32, y: i32, width: i32) -> int {
    (y as usize) as int * (width as usize) as int + (x as usize) as int
}

/// Every tile of `new` that differs from `old` is floor: carving never adds walls.
pub open spec fn only_floor_added(old: Seq<TileType>, new: Seq<TileType>) -> bool {
    &&& new.len() == old.len()
    &&& forall|i: int| 0 <= i < old.len() && #[trigger] new[i] != old[i] ==> new[i] == TileType::Floor
}

impl TileType {
    /// The character a tile is drawn with: `.` for floor, `#` for wall.
    pub fn glyph(&self) -> (c: char)
        ensures
            c == (match self {
                TileType::Floor => '.',
                TileType::Wall => '#',
            }),
    {
        match self {
            TileType::Floor => '.',
            TileType::Wall => '#',
        }
    }
}

/// One tile to draw: its screen position and what stands there.
#[derive(Clone, Copy, Debug, PartialEq, Eq, Structural)]
pub struct DrawCell {
    pub x: i32,
    pub y: i32,
    pub tile: TileType,
}

/// The screen position of the `i`-th tile: the tiles are laid out row by row, 80 to a row.
pub open spec fn screen_point(i: int) -> Point {
    Point { x: (i % 80) as i32, y: (i / 80) as i32 }
}

/// The cell that draws tile `i` at its screen position.
pub open spec fn draw_cell_spec(tiles: Seq<TileType>, i: int) -> DrawCell {
    DrawCell { x: screen_point(i).x, y: screen_point(i).y, tile: tiles[i] }
}

/// The cells drawn for the first `n` tiles when exactly the tiles flagged in `revealed` are
/// drawn, in tile order.
pub open spec fn revealed_cells(tiles: Seq<TileType>, revealed: Seq<bool>, n: nat) -> Seq<DrawCell>
    decreases n,
{
    if n == 0 {
        Seq::empty()
    } else {
        let before = revealed_cells(tiles, revealed, (n - 1) as nat);
        if revealed[n - 1] {
            before.push(draw_cell_spec(tiles, n - 1))
        } else {
            before
        }
    }
}

/// The cells drawn for the first `n` tiles when exactly the tiles whose screen position is
/// one of `seen` are drawn, in tile order.
pub open spec fn seen_cells(tiles: Seq<TileType>, seen: Seq<Point>, n: nat) -> Seq<DrawCell>
    decreases n,
{
    if n == 0 {
        Seq::empty()
    } else {
        let before = seen_cells(tiles, seen, (n - 1) as nat);
        if seen.contains(screen_point(n - 1)) {
            before.push(draw_cell_spec(tiles, n - 1))
        } else {
            before
        }
    }
}

/// The cells drawn for the first `n` tiles are, in tile order, exactly those of the tiles whose
/// screen position `(i % 80, i / 80)` is one of `seen`, whichever of them it is.
pub proof fn lemma_seen_cells_exact(tiles: Seq<TileType>, seen: Seq<Point>, n: nat)
    ensures
        seen_cells(tiles, seen, n) == Seq::new(n, |i: int| i).filter(
            |i: int| seen.contains(Point { x: (i % 80) as i32, y: (i / 80) as i32 }),
        ).map_values(|i: int| DrawCell { x: (i % 80) as i32, y: (i / 80) as i32, tile: tiles[i] }),
    decreases n,
{
    reveal(Seq::filter);
    if n > 0 {
        lemma_seen_cells_exact(tiles, seen, (n - 1) as nat);
        let ids = Seq::new(n, |i: int| i);
        assert(ids.drop_last() =~= Seq::new((n - 1) as nat, |i: int| i));
        assert(ids.last() == n - 1);
        let pred = |i: int| seen.contains(Point { x: (i % 80) as i32, y: (i / 80) as i32 });
        let f = |i: int| DrawCell { x: (i % 80) as i32, y: (i / 80) as i32, tile: tiles[i] };
        let sub = ids.drop_last().filter(pred);
        if pred(n - 1) {
            assert(ids.filter(pred) == sub.push(n - 1));
            assert(sub.push(n - 1).map_values(f) =~= sub.map_values(f).push(f(n - 1)));
        } else {
            assert(ids.filter(pred) == sub);
        }
    }
}

/// The cells drawn for the first `n` tiles are, in tile order, exactly those of the tiles flagged
/// in `revealed`, each at its screen position `(i % 80, i / 80)`.
pub proof fn lemma_revealed_cells_exact(tiles: Seq<TileType>, revealed: Seq<bool>, n: nat)
    ensures
        revealed_cells(tiles, revealed, n) == Seq::new(n, |i: int| i).filter(|i: int| revealed[i]).map_values(
            |i: int| DrawCell { x: (i % 80) as i32, y: (i / 80) as i32, tile: tiles[i] },
        ),
    decreases n,
{
    reveal(Seq::filter);
    if n > 0 {
        lemma_revealed_cells_exact(tiles, revealed, (n - 1) as nat);
        let ids = Seq::new(n, |i: int| i);
        assert(ids.drop_last() =~= Seq::new((n - 1) as nat, |i: int| i));
        assert(ids.last() == n - 1);
        let pred = |i: int| revealed[i];
        let f = |i: int| DrawCell { x: (i % 80) as i32, y: (i / 80) as i32, tile: tiles[i] };
        let sub = ids.drop_last().filter(pred);
        if pred(n - 1) {
            assert(ids.filter(pred) == sub.push(n - 1));
            assert(sub.push(n - 1).map_values(f) =~= sub.map_values(f).push(f(n - 1)));
        } else {
            assert(ids.filter(pred) == sub);
        }
    }
}

/// Every tile whose screen position is one of `seen` (any of them, the last one too) is drawn.
pub proof fn lemma_seen_tiles_drawn(tiles: Seq<TileType>, seen: Seq<Point>, n: nat)
    ensures
        forall|i: int|
            0 <= i < n && #[trigger] seen.contains(Point { x: (i % 80) as i32, y: (i / 80) as i32 })
                ==> seen_cells(tiles, seen, n).contains(DrawCell { x: (i % 80) as i32, y: (i / 80) as i32, tile: tiles[i] }),
{
    lemma_seen_cells_exact(tiles, seen, n);
    let ids = Seq::new(n, |i: int| i);
    let pred = |i: int| seen.contains(Point { x: (i % 80) as i32, y: (i / 80) as i32 });
    let f = |i: int| DrawCell { x: (i % 80) as i32, y: (i / 80) as i32, tile: tiles[i] };
    assert forall|i: int|
        0 <= i < n && #[trigger] seen.contains(Point { x: (i % 80) as i32, y: (i / 80) as i32 }) implies seen_cells(
        tiles,
        seen,
        n,
    ).contains(DrawCell { x: (i % 80) as i32, y: (i / 80) as i32, tile: tiles[i] }) by {
        assert(ids[i] == i);
        ids.lemma_filter_contains(pred, i);
        let k = choose|k: int| 0 <= k < ids.filter(pred).len() && ids.filter(pred)[k] == i;
        assert(ids.filter(pred).map_values(f)[k] == f(i));
    }
}

/// Whether `p` is one of `points`.
pub fn contains_point(points: &Vec<Point>, p: Point) -> (found: bool)
    ensures
        found == points@.contains(p),
{
    let mut j: usize = 0;
    while j < points.len()
        invariant
            0 <= j <= points.len(),
            forall|k: int| 0 <= k < j ==> points@[k] != p,
        decreases points.len() - j,
    {
        if points[j].x == p.x && points[j].y == p.y {
            proof {
                assert(points@[j as int] == p);
            }
            return true;
        }
        j = j + 1;
    }
    false
}

/// The cells to draw for the tiles of `map` that the player has revealed, in tile order; the
/// tiles are laid out on screen row by row, 80 to a row.
pub fn draw_map(map: &GameMap) -> (cells: Vec<DrawCell>)
    requires
        map.revealed_tiles.len() >= map.tiles.len(),
        map.tiles.len() / 80 <= i32::MAX,
    ensures
        cells@ == revealed_cells(map.tiles@, map.revealed_tiles@, map.tiles.len() as nat),
        cells@ == Seq::new(map.tiles.len() as nat, |i: int| i).filter(|i: int| map.revealed_tiles@[i]).map_values(
            |i: int| DrawCell { x: (i % 80) as i32, y: (i / 80) as i32, tile: map.tiles@[i] },
        ),
{
    proof {
        lemma_revealed_cells_exact(map.tiles@, map.revealed_tiles@, map.tiles.len() as nat);
    }
    let mut cells: Vec<DrawCell> = Vec::new();
    let mut x: i32 = 0;
    let mut y: i32 = 0;
    let mut idx: usize = 0;
    while idx < map.tiles.len()
        invariant
            0 <= idx <= map.tiles.len(),
            map.revealed_tiles.len() >= map.tiles.len(),
            map.tiles.len() / 80 <= i32::MAX,
            x == idx % 80,
            y == idx / 80,
            cells@ == revealed_cells(map.tiles@, map.revealed_tiles@, idx as nat),
        decreases map.tiles.len() - idx,
    {
        if map.revealed_tiles[idx] {
            cells.push(DrawCell { x, y, tile: map.tiles[idx] });
        }
        proof {
            assert((idx + 1) / 80 <= map.tiles.len() / 80);
        }
        x = x + 1;
        if x > 79 {
            x = 0;
            y = y + 1;
        }
        idx = idx + 1;
    }
    cells
}

/// The cells to draw for the tiles whose screen position is one of `visible`, in tile order;
/// the tiles are laid out on screen row by row, 80 to a row.
pub fn draw_map_old(map: &GameMap, visible: &Vec<Point>) -> (cells: Vec<DrawCell>)
    requires
        map.tiles.len() / 80 <= i32::MAX,
    ensures
        cells@ == seen_cells(map.tiles@, visible@, map.tiles.len() as nat),
        cells@ == Seq::new(map.tiles.len() as nat, |i: int| i).filter(
            |i: int| visible@.contains(Point { x: (i % 80) as i32, y: (i / 80) as i32 }),
        ).map_values(|i: int| DrawCell { x: (i % 80) as i32, y: (i / 80) as i32, tile: map.tiles@[i] }),
{
    proof {
        lemma_seen_cells_exact(map.tiles@, visible@, map.tiles.len() as nat);
    }
    let mut cells: Vec<DrawCell> = Vec::new();
    let mut x: i32 = 0;
    let mut y: i32 = 0;
    let mut idx: usize = 0;
    while idx < map.tiles.len()
        invariant
            0 <= idx <= map.tiles.len(),
            map.tiles.len() / 80 <= i32::MAX,
            x == idx % 80,
            y == idx / 80,
            cells@ == seen_cells(map.tiles@, visible@, idx as nat),
        decreases map.tiles.len() - idx,
    {
        let pt = Point::new(x, y);
        proof {
            assert(pt == screen_point(idx as int));
        }
        if contains_point(visible, pt) {
            cells.push(DrawCell { x, y, tile: map.tiles[idx] });
        }
        proof {
            assert((idx + 1) / 80 <= map.tiles.len() / 80);
        }
        x = x + 1;
        if x > 79 {
            x = 0;
            y = y + 1;
        }
        idx = idx + 1;
    }
    cells
}

impl GameMap {
    /// The grid holds `width * height` tiles and one flag of each sort per tile.
    pub open spec fn wf(&self) -> bool {
        &&& 0 <= self.width
        &&& 0 <= self.height
        &&& self.tiles.len() == self.width * self.height
        &&& self.revealed_tiles.len() == self.tiles.len()
        &&& self.visible_tiles.len() == self.tiles.len()
        &&& self.blocked.len() == self.tiles.len()
    }

    /// The index of tile `(x, y)`: `y * width + x`, each converted with `as usize`.
    pub fn xy_idx(&self, x: i32, y: i32) -> (idx: usize)
        requires
            xy_idx_spec(x, y, self.width) <= usize::MAX,
        ensures
            idx == xy_idx_spec(x, y, self.width),
    {
        let yy = y as usize;
        let ww = self.width as usize;
        let xx = x as usize;
        proof {
            assert(yy as int * ww as int + xx as int <= usize::MAX);
            assert(yy as int * ww as int <= usize::MAX);
        }
        (yy * ww) + xx
    }
}

/// The smaller of two integers.
pub open spec fn min_int(a: int, b: int) -> int {
    if a <= b { a } else { b }
}

/// The larger of two integers.
pub open spec fn max_int(a: int, b: int) -> int {
    if a <= b { b } else { a }
}

/// Whether `(x, y)` lies on the horizontal segment of row `row` between columns `xa` and `xb`.
pub open spec fn on_h_segment(xa: int, xb: int, row: int, x: int, y: int) -> bool {
    min_int(xa, xb) <= x <= max_int(xa, xb) && y == row
}

/// Whether `(x, y)` lies on the vertical segment of column `col` between rows `ya` and `yb`.
pub open spec fn on_v_segment(ya: int, yb: int, col: int, x: int, y: int) -> bool {
    x == col && min_int(ya, yb) <= y <= max_int(ya, yb)
}

/// Every tile of the horizontal segment of row `row` between columns `xa` and `xb` is floor,
/// the tile of index 0 aside (tunnels never carve it).
pub open spec fn h_segment_carved(tiles: Seq<TileType>, w: int, xa: int, xb: int, row: int) -> bool {
    forall|x: int, y: int|
        #[trigger] on_h_segment(xa, xb, row, x, y) && 0 < cell(w, x, y) ==> tile_at(tiles, w, x, y) == TileType::Floor
}

/// Every tile of the vertical segment of column `col` between rows `ya` and `yb` is floor,
/// the tile of index 0 aside (tunnels never carve it).
pub open spec fn v_segment_carved(tiles: Seq<TileType>, w: int, ya: int, yb: int, col: int) -> bool {
    forall|x: int, y: int|
        #[trigger] on_v_segment(ya, yb, col, x, y) && 0 < cell(w, x, y) ==> tile_at(tiles, w, x, y) == TileType::Floor
}

/// The L-shaped corridor from `from` to `to`: along the row of `from` then down the column of
/// `to` when `horizontal_first`, else along the column of `from` then the row of `to`.
pub open spec fn on_corridor(from: (int, int), to: (int, int), horizontal_first: bool, x: int, y: int) -> bool {
    if horizontal_first {
        on_h_segment(from.0, to.0, from.1, x, y) || on_v_segment(from.1, to.1, to.0, x, y)
    } else {
        on_v_segment(from.1, to.1, from.0, x, y) || on_h_segment(from.0, to.0, to.1, x, y)
    }
}

/// Every tile of the L-shaped corridor from `from` to `to` is floor (index 0 aside).
pub open spec fn corridor_carved(
    tiles: Seq<TileType>,
    w: int,
    from: (int, int),
    to: (int, int),
    horizontal_first: bool,
) -> bool {
    if horizontal_first {
        h_segment_carved(tiles, w, from.0, to.0, from.1) && v_segment_carved(tiles, w, from.1, to.1, to.0)
    } else {
        v_segment_carved(tiles, w, from.1, to.1, from.0) && h_segment_carved(tiles, w, from.0, to.0, to.1)
    }
}

/// The centres of `a` and `b` are joined by an L-shaped corridor of floor, in one of its two
/// orientations.
pub open spec fn rooms_connected(tiles: Seq<TileType>, w: int, a: Rect, b: Rect) -> bool {
    corridor_carved(tiles, w, a.center_spec(), b.center_spec(), true)
        || corridor_carved(tiles, w, a.center_spec(), b.center_spec(), false)
}

/// Whether `(x, y)` lies inside a `w` by `h` grid.
pub open spec fn in_grid(w: int, h: int, x: int, y: int) -> bool {
    0 <= x < w && 0 <= y < h
}

/// Carving more floor keeps a carved room carved.
pub proof fn lemma_room_carved_kept(old: Seq<TileType>, new: Seq<TileType>, w: int, h: int, r: Rect)
    requires
        only_floor_added(old, new),
        old.len() == w * h,
        room_carved(old, w, r),
        0 <= r.x1,
        r.x2 < w,
        0 <= r.y1,
        r.y2 < h,
    ensures
        room_carved(new, w, r),
{
    assert forall|x: int, y: int| #[trigger] in_interior(r, x, y) implies tile_at(new, w, x, y) == TileType::Floor by {
        lemma_cell_in_grid(w, h, x, y);
        assert(tile_at(old, w, x, y) == TileType::Floor);
        assert(old[cell(w, x, y)] == TileType::Floor);
    }
}

/// Carving more floor keeps a carved horizontal segment carved.
pub proof fn lemma_h_segment_kept(old: Seq<TileType>, new: Seq<TileType>, w: int, h: int, xa: int, xb: int, row: int)
    requires
        only_floor_added(old, new),
        old.len() == w * h,
        h_segment_carved(old, w, xa, xb, row),
        0 <= xa < w,
        0 <= xb < w,
        0 <= row < h,
    ensures
        h_segment_carved(new, w, xa, xb, row),
{
    assert forall|x: int, y: int| #[trigger] on_h_segment(xa, xb, row, x, y) && 0 < cell(w, x, y) implies tile_at(
        new,
        w,
        x,
        y,
    ) == TileType::Floor by {
        lemma_cell_in_grid(w, h, x, y);
        assert(tile_at(old, w, x, y) == TileType::Floor);
        assert(old[cell(w, x, y)] == TileType::Floor);
    }
}

/// Carving more floor keeps a carved vertical segment carved.
pub proof fn lemma_v_segment_kept(old: Seq<TileType>, new: Seq<TileType>, w: int, h: int, ya: int, yb: int, col: int)
    requires
        only_floor_added(old, new),
        old.len() == w * h,
        v_segment_carved(old, w, ya, yb, col),
        0 <= ya < h,
        0 <= yb < h,
        0 <= col < w,
    ensures
        v_segment_carved(new, w, ya, yb, col),
{
    assert forall|x: int, y: int| #[trigger] on_v_segment(ya, yb, col, x, y) && 0 < cell(w, x, y) implies tile_at(
        new,
        w,
        x,
        y,
    ) == TileType::Floor by {
        lemma_cell_in_grid(w, h, x, y);
        assert(tile_at(old, w, x, y) == TileType::Floor);
        assert(old[cell(w, x, y)] == TileType::Floor);
    }
}

/// Carving more floor keeps a carved corridor carved.
pub proof fn lemma_corridor_carved_kept(
    old: Seq<TileType>,
    new: Seq<TileType>,
    w: int,
    h: int,
    from: (int, int),
    to: (int, int),
    horizontal_first: bool,
)
    requires
        only_floor_added(old, new),
        old.len() == w * h,
        corridor_carved(old, w, from, to, horizontal_first),
        in_grid(w, h, from.0, from.1),
        in_grid(w, h, to.0, to.1),
    ensures
        corridor_carved(new, w, from, to, horizontal_first),
{
    if horizontal_first {
        lemma_h_segment_kept(old, new, w, h, from.0, to.0, from.1);
        lemma_v_segment_kept(old, new, w, h, from.1, to.1, to.0);
    } else {
        lemma_v_segment_kept(old, new, w, h, from.1, to.1, from.0);
        lemma_h_segment_kept(old, new, w, h, from.0, to.0, to.1);
    }
}

/// How many rooms the generator tries to place.
pub const MAX_ROOMS: i32 = 30;
/// The least width and height a generated room is given.
pub const MIN_SIZE: i32 = 6;
/// One more than the greatest width and height a generated room is given.
pub const MAX_SIZE: i32 = 10;
/// The width of a generated map.
pub const MAP_WIDTH: i32 = 80;
/// The height of a generated map.
pub const MAP_HEIGHT: i32 = 50;

/// A room as the generator places it: 6 to 9 tiles wide and high, with its edges inside
/// an 80 by 50 grid (its right edge at most on column 78, its bottom edge at most on row 48).
pub open spec fn generated_room(r: Rect) -> bool {
    &&& 0 <= r.x1
    &&& r.x2 <= 78
    &&& 0 <= r.y1
    &&& r.y2 <= 48
    &&& MIN_SIZE <= r.x2 - r.x1 < MAX_SIZE
    &&& MIN_SIZE <= r.y2 - r.y1 < MAX_SIZE
}

/// Whether tile `i` of a grid `w` wide lies in the interior of one of `rooms`, or on an
/// L-shaped corridor (in either orientation) between the centres of two rooms placed one
/// after the other.
pub open spec fn carved_by_rooms(rooms: Seq<Rect>, w: int, i: int) -> bool {
    (exists|j: int, x: int, y: int|
        0 <= j < rooms.len() && #[trigger] in_interior(rooms[j], x, y) && i == cell(w, x, y)) || (exists|
        j: int,
        hf: bool,
        x: int,
        y: int,
    |
        0 < j < rooms.len() && #[trigger] on_corridor(rooms[j - 1].center_spec(), rooms[j].center_spec(), hf, x, y)
            && i == cell(w, x, y))
}

/// A tile carved for some rooms is still carved once another room is placed after them.
pub proof fn lemma_carved_by_rooms_push(rooms: Seq<Rect>, r: Rect, w: int, i: int)
    requires
        carved_by_rooms(rooms, w, i),
    ensures
        carved_by_rooms(rooms.push(r), w, i),
{
    let more = rooms.push(r);
    if exists|j: int, x: int, y: int| 0 <= j < rooms.len() && #[trigger] in_interior(rooms[j], x, y) && i == cell(w, x, y) {
        let (j, x, y) = choose|j: int, x: int, y: int|
            0 <= j < rooms.len() && #[trigger] in_interior(rooms[j], x, y) && i == cell(w, x, y);
        assert(more[j] == rooms[j]);
        assert(in_interior(more[j], x, y));
    } else {
        let (j, hf, x, y) = choose|j: int, hf: bool, x: int, y: int|
            0 < j < rooms.len() && #[trigger] on_corridor(rooms[j - 1].center_spec(), rooms[j].center_spec(), hf, x, y)
                && i == cell(w, x, y);
        assert(more[j] == rooms[j]);
        assert(more[j - 1] == rooms[j - 1]);
        assert(on_corridor(more[j - 1].center_spec(), more[j].center_spec(), hf, x, y));
    }
}

/// What holds of every map that `new_map_rooms_and_corridors` can make, whatever the
/// random draws: an 80 by 50 grid with no tile revealed, visible or blocked; from 1 to 30
/// rooms, each inside the grid, no two overlapping or touching, each carved in floor; and
/// each room joined to the one placed before it by an L-shaped floor corridor between
/// their centres; and every other tile a wall.
pub open spec fn generated_map(map: GameMap) -> bool {
    &&& map.wf()
    &&& map.width == MAP_WIDTH
    &&& map.height == MAP_HEIGHT
    &&& forall|i: int| 0 <= i < map.tiles.len() ==> !#[trigger] map.revealed_tiles@[i]
    &&& forall|i: int| 0 <= i < map.tiles.len() ==> !#[trigger] map.visible_tiles@[i]
    &&& forall|i: int| 0 <= i < map.tiles.len() ==> !#[trigger] map.blocked@[i]
    &&& 1 <= map.rooms.len() <= MAX_ROOMS
    &&& forall|j: int| 0 <= j < map.rooms.len() ==> generated_room(#[trigger] map.rooms@[j])
    &&& forall|j: int, k: int|
        0 <= j < k < map.rooms.len() ==> !(#[trigger] map.rooms@[j]).overlaps(#[trigger] map.rooms@[k])
    &&& forall|j: int| 0 <= j < map.rooms.len() ==> room_carved(map.tiles@, MAP_WIDTH as int, #[trigger] map.rooms@[j])
    &&& forall|j: int|
        0 < j < map.rooms.len() ==> rooms_connected(
            map.tiles@,
            MAP_WIDTH as int,
            map.rooms@[j - 1],
            #[trigger] map.rooms@[j],
        )
    &&& forall|i: int|
        0 <= i < map.tiles.len() && #[trigger] map.tiles@[i] == TileType::Floor ==> carved_by_rooms(
            map.rooms@,
            MAP_WIDTH as int,
            i,
        )
}

/// A `usize` coordinate as `i32`, or 0 where it does not fit (the conversion that
/// `rltk::Point::new` makes).
pub open spec fn coord_or_zero(v: int) -> i32 {
    if 0 <= v <= i32::MAX {
        v as i32
    } else {
        0
    }
}

/// The point that `index_to_point2d` gives for index `idx` of a grid `w` tiles wide.
pub open spec fn index_to_point_spec(w: int, idx: int) -> Point {
    Point { x: coord_or_zero(idx % w), y: coord_or_zero(idx / w) }
}

/// The index that `point2d_to_index` gives for `p` in a grid `w` tiles wide.
pub open spec fn point_to_index_spec(w: int, p: Point) -> int {
    cell(w, p.x as int, p.y as int)
}

/// The tile that `xy_idx` finds for `(x, y)` in a grid `width` wide.
pub open spec fn tile_xy(tiles: Seq<TileType>, width: i32, x: int, y: int) -> TileType {
    tiles[xy_idx_spec(x as i32, y as i32, width)]
}

/// Every tile of the interior of `r`, as `xy_idx` finds it, is one of `len` tiles.
pub open spec fn room_in_tiles(len: int, width: i32, r: Rect) -> bool {
    forall|x: int, y: int| #[trigger] in_interior(r, x, y) ==> xy_idx_spec(x as i32, y as i32, width) < len
}

/// Where the coordinates and the width are not negative, `xy_idx` finds `(x, y)` at its
/// row-major index.
pub proof fn lemma_xy_idx_spec_is_cell(x: int, y: int, width: i32)
    requires
        0 <= x <= i32::MAX,
        0 <= y <= i32::MAX,
        0 <= width,
    ensures
        xy_idx_spec(x as i32, y as i32, width) == cell(width as int, x, y),
{
}

/// A room inside a well-formed grid has its interior among the tiles, each at its row-major
/// index.
pub proof fn lemma_room_in_grid(map: GameMap, r: Rect)
    requires
        map.wf(),
        map.holds_room(r),
    ensures
        room_in_tiles(map.tiles.len() as int, map.width, r),
        forall|x: int, y: int|
            #[trigger] in_interior(r, x, y) ==> xy_idx_spec(x as i32, y as i32, map.width) == cell(
                map.width as int,
                x,
                y,
            ),
{
    assert forall|x: int, y: int| #[trigger] in_interior(r, x, y) implies xy_idx_spec(
        x as i32,
        y as i32,
        map.width,
    ) == cell(map.width as int, x, y) && xy_idx_spec(x as i32, y as i32, map.width) < map.tiles.len() by {
        lemma_xy_idx_spec_is_cell(x, y, map.width);
        lemma_cell_in_grid(map.width as int, map.height as int, x, y);
    }
}

/// The number of tiles of a grid as `xy_idx`'s arithmetic sees it: `width * height`, each
/// converted with `as usize`.
pub open spec fn grid_size(width: i32, height: i32) -> int {
    (width as usize) as int * (height as usize) as int
}

/// A tunnel can visit `(x, y)` without panicking: its index does not overflow, and it is one of
/// the `len` tiles when it lies strictly between 0 and the grid size.
pub open spec fn tunnel_cell_ok(len: int, width: i32, height: i32, x: int, y: int) -> bool {
    let i = xy_idx_spec(x as i32, y as i32, width);
    &&& i <= usize::MAX
    &&& 0 < i < grid_size(width, height) ==> i < len
}

/// `tiles` with every tile whose index satisfies `covered` turned into floor.
pub open spec fn carve(tiles: Seq<TileType>, covered: spec_fn(int) -> bool) -> Seq<TileType> {
    Seq::new(tiles.len(), |i: int| if covered(i) { TileType::Floor } else { tiles[i] })
}

/// Whether a horizontal tunnel along row `row` between columns `xa` and `xb` carves tile `i`:
/// its index is strictly between 0 and the grid size, and `xy_idx` finds it on the segment.
pub open spec fn h_tunnel_covers(width: i32, height: i32, xa: int, xb: int, row: int, i: int) -> bool {
    &&& 0 < i < grid_size(width, height)
    &&& exists|xx: int, yy: int| #[trigger] on_h_segment(xa, xb, row, xx, yy) && i == xy_idx_spec(xx as i32, yy as i32, width)
}

/// Whether a vertical tunnel along column `col` between rows `ya` and `yb` carves tile `i`.
pub open spec fn v_tunnel_covers(width: i32, height: i32, ya: int, yb: int, col: int, i: int) -> bool {
    &&& 0 < i < grid_size(width, height)
    &&& exists|xx: int, yy: int| #[trigger] on_v_segment(ya, yb, col, xx, yy) && i == xy_idx_spec(xx as i32, yy as i32, width)
}

/// The tiles after a horizontal tunnel along row `row` between columns `xa` and `xb`.
pub open spec fn h_tunnel_result(tiles: Seq<TileType>, width: i32, height: i32, xa: int, xb: int, row: int) -> Seq<
    TileType,
> {
    carve(tiles, |i: int| h_tunnel_covers(width, height, xa, xb, row, i))
}

/// The tiles after a vertical tunnel along column `col` between rows `ya` and `yb`.
pub open spec fn v_tunnel_result(tiles: Seq<TileType>, width: i32, height: i32, ya: int, yb: int, col: int) -> Seq<
    TileType,
> {
    carve(tiles, |i: int| v_tunnel_covers(width, height, ya, yb, col, i))
}

/// A horizontal tunnel carves the same tiles whichever end comes first, and a second identical
/// tunnel changes nothing.
pub proof fn lemma_h_tunnel_symmetric_idempotent(
    tiles: Seq<TileType>,
    width: i32,
    height: i32,
    xa: int,
    xb: int,
    row: int,
)
    ensures
        h_tunnel_result(tiles, width, height, xa, xb, row) == h_tunnel_result(tiles, width, height, xb, xa, row),
        h_tunnel_result(h_tunnel_result(tiles, width, height, xa, xb, row), width, height, xa, xb, row)
            == h_tunnel_result(tiles, width, height, xa, xb, row),
{
    assert forall|i: int| h_tunnel_covers(width, height, xa, xb, row, i) == h_tunnel_covers(width, height, xb, xa, row, i) by {
        assert forall|xx: int, yy: int| on_h_segment(xa, xb, row, xx, yy) == on_h_segment(xb, xa, row, xx, yy) by {}
        if h_tunnel_covers(width, height, xa, xb, row, i) {
            let (xx, yy) = choose|xx: int, yy: int|
                #[trigger] on_h_segment(xa, xb, row, xx, yy) && i == xy_idx_spec(xx as i32, yy as i32, width);
            assert(on_h_segment(xb, xa, row, xx, yy));
        }
        if h_tunnel_covers(width, height, xb, xa, row, i) {
            let (xx, yy) = choose|xx: int, yy: int|
                #[trigger] on_h_segment(xb, xa, row, xx, yy) && i == xy_idx_spec(xx as i32, yy as i32, width);
            assert(on_h_segment(xa, xb, row, xx, yy));
        }
    }
    assert(h_tunnel_result(tiles, width, height, xa, xb, row) =~= h_tunnel_result(tiles, width, height, xb, xa, row));
    assert(h_tunnel_result(h_tunnel_result(tiles, width, height, xa, xb, row), width, height, xa, xb, row)
        =~= h_tunnel_result(tiles, width, height, xa, xb, row));
}

/// A vertical tunnel carves the same tiles whichever end comes first, and a second identical
/// tunnel changes nothing.
pub proof fn lemma_v_tunnel_symmetric_idempotent(
    tiles: Seq<TileType>,
    width: i32,
    height: i32,
    ya: int,
    yb: int,
    col: int,
)
    ensures
        v_tunnel_result(tiles, width, height, ya, yb, col) == v_tunnel_result(tiles, width, height, yb, ya, col),
        v_tunnel_result(v_tunnel_result(tiles, width, height, ya, yb, col), width, height, ya, yb, col)
            == v_tunnel_result(tiles, width, height, ya, yb, col),
{
    assert forall|i: int| v_tunnel_covers(width, height, ya, yb, col, i) == v_tunnel_covers(width, height, yb, ya, col, i) by {
        if v_tunnel_covers(width, height, ya, yb, col, i) {
            let (xx, yy) = choose|xx: int, yy: int|
                #[trigger] on_v_segment(ya, yb, col, xx, yy) && i == xy_idx_spec(xx as i32, yy as i32, width);
            assert(on_v_segment(yb, ya, col, xx, yy));
        }
        if v_tunnel_covers(width, height, yb, ya, col, i) {
            let (xx, yy) = choose|xx: int, yy: int|
                #[trigger] on_v_segment(yb, ya, col, xx, yy) && i == xy_idx_spec(xx as i32, yy as i32, width);
            assert(on_v_segment(ya, yb, col, xx, yy));
        }
    }
    assert(v_tunnel_result(tiles, width, height, ya, yb, col) =~= v_tunnel_result(tiles, width, height, yb, ya, col));
    assert(v_tunnel_result(v_tunnel_result(tiles, width, height, ya, yb, col), width, height, ya, yb, col)
        =~= v_tunnel_result(tiles, width, height, ya, yb, col));
}

/// A horizontal and a vertical tunnel give the same tiles in either order.
pub proof fn lemma_tunnels_commute(
    tiles: Seq<TileType>,
    width: i32,
    height: i32,
    xa: int,
    xb: int,
    row: int,
    ya: int,
    yb: int,
    col: int,
)
    ensures
        v_tunnel_result(h_tunnel_result(tiles, width, height, xa, xb, row), width, height, ya, yb, col)
            == h_tunnel_result(v_tunnel_result(tiles, width, height, ya, yb, col), width, height, xa, xb, row),
{
    assert(v_tunnel_result(h_tunnel_result(tiles, width, height, xa, xb, row), width, height, ya, yb, col)
        =~= h_tunnel_result(v_tunnel_result(tiles, width, height, ya, yb, col), width, height, xa, xb, row));
}

/// Inside a well-formed grid, every tile of a horizontal segment between two columns of the grid
/// on one of its rows can be visited by a tunnel, and `xy_idx` finds it at its row-major index.
pub proof fn lemma_h_segment_cells(len: int, width: i32, height: i32, xa: int, xb: int, row: int)
    requires
        0 <= width,
        0 <= height,
        len == width * height,
        len <= usize::MAX,
        0 <= xa < width,
        0 <= xb < width,
        0 <= row < height,
    ensures
        grid_size(width, height) == len,
        forall|xx: int, yy: int|
            #[trigger] on_h_segment(xa, xb, row, xx, yy) ==> {
                &&& tunnel_cell_ok(len, width, height, xx, yy)
                &&& xy_idx_spec(xx as i32, yy as i32, width) == cell(width as int, xx, yy)
                &&& 0 <= cell(width as int, xx, yy) < len
            },
{
    assert forall|xx: int, yy: int| #[trigger] on_h_segment(xa, xb, row, xx, yy) implies {
        &&& tunnel_cell_ok(len, width, height, xx, yy)
        &&& xy_idx_spec(xx as i32, yy as i32, width) == cell(width as int, xx, yy)
        &&& 0 <= cell(width as int, xx, yy) < len
    } by {
        lemma_xy_idx_spec_is_cell(xx, yy, width);
        lemma_cell_in_grid(width as int, height as int, xx, yy);
    }
}

/// Inside a well-formed grid, every tile of a vertical segment between two rows of the grid on
/// one of its columns can be visited by a tunnel, and `xy_idx` finds it at its row-major index.
pub proof fn lemma_v_segment_cells(len: int, width: i32, height: i32, ya: int, yb: int, col: int)
    requires
        0 <= width,
        0 <= height,
        len == width * height,
        len <= usize::MAX,
        0 <= ya < height,
        0 <= yb < height,
        0 <= col < width,
    ensures
        grid_size(width, height) == len,
        forall|xx: int, yy: int|
            #[trigger] on_v_segment(ya, yb, col, xx, yy) ==> {
                &&& tunnel_cell_ok(len, width, height, xx, yy)
                &&& xy_idx_spec(xx as i32, yy as i32, width) == cell(width as int, xx, yy)
                &&& 0 <= cell(width as int, xx, yy) < len
            },
{
    assert forall|xx: int, yy: int| #[trigger] on_v_segment(ya, yb, col, xx, yy) implies {
        &&& tunnel_cell_ok(len, width, height, xx, yy)
        &&& xy_idx_spec(xx as i32, yy as i32, width) == cell(width as int, xx, yy)
        &&& 0 <= cell(width as int, xx, yy) < len
    } by {
        lemma_xy_idx_spec_is_cell(xx, yy, width);
        lemma_cell_in_grid(width as int, height as int, xx, yy);
    }
}

/// A tile inside a `w` by `h` grid has an index below `w * h`.
pub proof fn lemma_cell_in_grid(w: int, h: int, x: int, y: int)
    requires
        0 <= x < w,
        0 <= y < h,
    ensures
        0 <= cell(w, x, y) < w * h,
{
    assert(y * w + x < w * h) by (nonlinear_arith)
        requires
            0 <= x < w,
            0 <= y < h,
    ;
    assert(0 <= y * w) by (nonlinear_arith)
        requires
            0 <= y,
            0 <= w,
    ;
}

impl GameMap {
    /// Whether `r`, with its interior, lies inside the grid.
    pub open spec fn holds_room(&self, r: Rect) -> bool {
        &&& 0 <= r.x1 <= r.x2 < self.width
        &&& 0 <= r.y1 <= r.y2 < self.height
    }

    /// Turns into floor every tile of the interior of `room`, each found by `xy_idx`; a room
    /// with an empty interior changes nothing.
    fn apply_room_to_map(&mut self, room: &Rect)
        requires
            room.y1 < i32::MAX,
            room.y1 < room.y2 ==> room.x1 < i32::MAX,
            room_in_tiles(old(self).tiles.len() as int, old(self).width, *room),
        ensures
            final(self).tiles.len() == old(self).tiles.len(),
            final(self).width == old(self).width,
            final(self).height == old(self).height,
            final(self).rooms == old(self).rooms,
            final(self).revealed_tiles == old(self).revealed_tiles,
            final(self).visible_tiles == old(self).visible_tiles,
            final(self).blocked == old(self).blocked,
            only_floor_added(old(self).tiles@, final(self).tiles@),
            forall|x: int, y: int|
                #[trigger] in_interior(*room, x, y) ==> tile_xy(final(self).tiles@, old(self).width, x, y)
                    == TileType::Floor,
            forall|i: int|
                0 <= i < old(self).tiles.len() && #[trigger] final(self).tiles@[i] != old(self).tiles@[i]
                    ==> exists|x: int, y: int|
                    #[trigger] in_interior(*room, x, y) && i == xy_idx_spec(x as i32, y as i32, old(self).width),
    {
        let ghost w = self.width;
        let ghost old_tiles = self.tiles@;
        if room.y1 + 1 > room.y2 || room.x1 >= room.x2 {
            proof {
                assert forall|x: int, y: int| #[trigger] in_interior(*room, x, y) implies tile_xy(
                    self.tiles@,
                    w,
                    x,
                    y,
                ) == TileType::Floor by {
                    assert(false);
                }
            }
            return;
        }
        let mut y = room.y1 + 1;
        loop
            invariant_except_break
                self.tiles.len() == old_tiles.len(),
                self.width == old(self).width,
                self.height == old(self).height,
                self.rooms == old(self).rooms,
                self.revealed_tiles == old(self).revealed_tiles,
                self.visible_tiles == old(self).visible_tiles,
                self.blocked == old(self).blocked,
                w == self.width,
                old_tiles == old(self).tiles@,
                room.x1 < room.x2,
                room_in_tiles(old_tiles.len() as int, w, *room),
                room.y1 + 1 <= y <= room.y2,
                only_floor_added(old_tiles, self.tiles@),
                forall|xx: int, yy: int|
                    #[trigger] in_interior(*room, xx, yy) && yy < y ==> tile_xy(self.tiles@, w, xx, yy)
                        == TileType::Floor,
                forall|i: int|
                    0 <= i < old_tiles.len() && #[trigger] self.tiles@[i] != old_tiles[i]
                        ==> exists|xx: int, yy: int|
                        #[trigger] in_interior(*room, xx, yy) && i == xy_idx_spec(xx as i32, yy as i32, w),
            ensures
                self.tiles.len() == old_tiles.len(),
                self.width == old(self).width,
                self.height == old(self).height,
                self.rooms == old(self).rooms,
                self.revealed_tiles == old(self).revealed_tiles,
                self.visible_tiles == old(self).visible_tiles,
                self.blocked == old(self).blocked,
                only_floor_added(old_tiles, self.tiles@),
                forall|xx: int, yy: int|
                    #[trigger] in_interior(*room, xx, yy) ==> tile_xy(self.tiles@, w, xx, yy) == TileType::Floor,
                forall|i: int|
                    0 <= i < old_tiles.len() && #[trigger] self.tiles@[i] != old_tiles[i]
                        ==> exists|xx: int, yy: int|
                        #[trigger] in_interior(*room, xx, yy) && i == xy_idx_spec(xx as i32, yy as i32, w),
            decreases room.y2 - y,
        {
            let mut x = room.x1 + 1;
            loop
                invariant_except_break
                    self.tiles.len() == old_tiles.len(),
                    self.width == old(self).width,
                    self.height == old(self).height,
                    self.rooms == old(self).rooms,
                    self.revealed_tiles == old(self).revealed_tiles,
                    self.visible_tiles == old(self).visible_tiles,
                    self.blocked == old(self).blocked,
                    w == self.width,
                    old_tiles == old(self).tiles@,
                    room_in_tiles(old_tiles.len() as int, w, *room),
                    room.y1 + 1 <= y <= room.y2,
                    room.x1 + 1 <= x <= room.x2,
                    only_floor_added(old_tiles, self.tiles@),
                    forall|xx: int, yy: int|
                        #[trigger] in_interior(*room, xx, yy) && (yy < y || (yy == y && xx < x))
                            ==> tile_xy(self.tiles@, w, xx, yy) == TileType::Floor,
                    forall|i: int|
                        0 <= i < old_tiles.len() && #[trigger] self.tiles@[i] != old_tiles[i]
                            ==> exists|xx: int, yy: int|
                            #[trigger] in_interior(*room, xx, yy) && i == xy_idx_spec(xx as i32, yy as i32, w),
                ensures
                    self.tiles.len() == old_tiles.len(),
                    self.width == old(self).width,
                    self.height == old(self).height,
                    self.rooms == old(self).rooms,
                    self.revealed_tiles == old(self).revealed_tiles,
                    self.visible_tiles == old(self).visible_tiles,
                    self.blocked == old(self).blocked,
                    only_floor_added(old_tiles, self.tiles@),
                    forall|xx: int, yy: int|
                        #[trigger] in_interior(*room, xx, yy) && yy <= y ==> tile_xy(self.tiles@, w, xx, yy)
                            == TileType::Floor,
                    forall|i: int|
                        0 <= i < old_tiles.len() && #[trigger] self.tiles@[i] != old_tiles[i]
                            ==> exists|xx: int, yy: int|
                            #[trigger] in_interior(*room, xx, yy) && i == xy_idx_spec(xx as i32, yy as i32, w),
                decreases room.x2 - x,
            {
                proof {
                    assert(in_interior(*room, x as int, y as int));
                }
                let idx = self.xy_idx(x, y);
                let ghost before = self.tiles@;
                self.tiles.set(idx, TileType::Floor);
                proof {
                    assert forall|xx: int, yy: int|
                        #[trigger] in_interior(*room, xx, yy) && (yy < y || (yy == y && xx < x + 1))
                            implies tile_xy(self.tiles@, w, xx, yy) == TileType::Floor by {
                        if yy == y && xx == x {
                        } else {
                            assert(tile_xy(before, w, xx, yy) == TileType::Floor);
                        }
                    }
                }
                if x == room.x2 {
                    break;
                }
                x = x + 1;
            }
            if y == room.y2 {
                break;
            }
            y = y + 1;
        }
    }

    /// Turns into floor the tiles of row `y` from column `x1` to column `x2` (either
    /// order), each found by `xy_idx`, skipping an index that is 0 or not below
    /// `width * height`.
    fn apply_horizontal_tunnel(&mut self, x1: i32, x2: i32, y: i32)
        requires
            grid_size(old(self).width, old(self).height) <= usize::MAX,
            forall|xx: int, yy: int|
                #[trigger] on_h_segment(x1 as int, x2 as int, y as int, xx, yy) ==> tunnel_cell_ok(
                    old(self).tiles.len() as int,
                    old(self).width,
                    old(self).height,
                    xx,
                    yy,
                ),
        ensures
            final(self).tiles@ == h_tunnel_result(old(self).tiles@, old(self).width, old(self).height, x1 as int, x2 as int, y as int),
            final(self).width == old(self).width,
            final(self).height == old(self).height,
            final(self).rooms == old(self).rooms,
            final(self).revealed_tiles == old(self).revealed_tiles,
            final(self).visible_tiles == old(self).visible_tiles,
            final(self).blocked == old(self).blocked,
            only_floor_added(old(self).tiles@, final(self).tiles@),
            forall|xx: int, yy: int|
                #[trigger] on_h_segment(x1 as int, x2 as int, y as int, xx, yy)
                    && 0 < xy_idx_spec(xx as i32, yy as i32, old(self).width) < grid_size(old(self).width, old(self).height)
                    ==> tile_xy(final(self).tiles@, old(self).width, xx, yy) == TileType::Floor,
            forall|i: int|
                0 <= i < old(self).tiles.len() && #[trigger] final(self).tiles@[i] != old(self).tiles@[i]
                    ==> 0 < i < grid_size(old(self).width, old(self).height) && exists|xx: int, yy: int|
                        #[trigger] on_h_segment(x1 as int, x2 as int, y as int, xx, yy)
                            && i == xy_idx_spec(xx as i32, yy as i32, old(self).width),
    {
        let ghost w = self.width;
        let ghost old_tiles = self.tiles@;
        let lo = if x1 <= x2 { x1 } else { x2 };
        let hi = if x1 <= x2 { x2 } else { x1 };
        let mut x = lo;
        loop
            invariant_except_break
                self.tiles.len() == old_tiles.len(),
                self.width == old(self).width,
                self.height == old(self).height,
                self.rooms == old(self).rooms,
                self.revealed_tiles == old(self).revealed_tiles,
                self.visible_tiles == old(self).visible_tiles,
                self.blocked == old(self).blocked,
                w == self.width,
                old_tiles == old(self).tiles@,
                grid_size(w, self.height) <= usize::MAX,
                forall|xx: int, yy: int|
                    #[trigger] on_h_segment(x1 as int, x2 as int, y as int, xx, yy) ==> tunnel_cell_ok(old_tiles.len() as int, w, self.height, xx, yy),
                lo == min_int(x1 as int, x2 as int),
                hi == max_int(x1 as int, x2 as int),
                lo <= x <= hi,
                only_floor_added(old_tiles, self.tiles@),
                forall|xx: int, yy: int|
                    #[trigger] on_h_segment(x1 as int, x2 as int, y as int, xx, yy) && xx < x
                        && 0 < xy_idx_spec(xx as i32, yy as i32, w) < grid_size(w, self.height)
                        ==> tile_xy(self.tiles@, w, xx, yy) == TileType::Floor,
                forall|i: int|
                    0 <= i < old_tiles.len() && #[trigger] self.tiles@[i] != old_tiles[i]
                        ==> 0 < i < grid_size(w, self.height) && exists|xx: int, yy: int|
                            #[trigger] on_h_segment(x1 as int, x2 as int, y as int, xx, yy)
                                && i == xy_idx_spec(xx as i32, yy as i32, w),
            ensures
                self.tiles.len() == old_tiles.len(),
                self.width == old(self).width,
                self.height == old(self).height,
                self.rooms == old(self).rooms,
                self.revealed_tiles == old(self).revealed_tiles,
                self.visible_tiles == old(self).visible_tiles,
                self.blocked == old(self).blocked,
                only_floor_added(old_tiles, self.tiles@),
                forall|xx: int, yy: int|
                    #[trigger] on_h_segment(x1 as int, x2 as int, y as int, xx, yy)
                        && 0 < xy_idx_spec(xx as i32, yy as i32, w) < grid_size(w, self.height)
                        ==> tile_xy(self.tiles@, w, xx, yy) == TileType::Floor,
                forall|i: int|
                    0 <= i < old_tiles.len() && #[trigger] self.tiles@[i] != old_tiles[i]
                        ==> 0 < i < grid_size(w, self.height) && exists|xx: int, yy: int|
                            #[trigger] on_h_segment(x1 as int, x2 as int, y as int, xx, yy)
                                && i == xy_idx_spec(xx as i32, yy as i32, w),
            decreases hi - x,
        {
            proof {
                assert(tunnel_cell_ok(old_tiles.len() as int, w, self.height, x as int, y as int)) by {
                    assert(on_h_segment(x1 as int, x2 as int, y as int, x as int, y as int));
                }
            }
            let idx = self.xy_idx(x, y);
            let size = (self.width as usize) * (self.height as usize);
            let ghost before = self.tiles@;
            if idx > 0 && idx < size {
                self.tiles.set(idx, TileType::Floor);
                proof {
                    assert(on_h_segment(x1 as int, x2 as int, y as int, x as int, y as int));
                }
            }
            proof {
                assert forall|xx: int, yy: int|
                    #[trigger] on_h_segment(x1 as int, x2 as int, y as int, xx, yy) && xx < x + 1
                        && 0 < xy_idx_spec(xx as i32, yy as i32, w) < grid_size(w, self.height)
                        implies tile_xy(self.tiles@, w, xx, yy) == TileType::Floor by {
                    if xx == x {
                    } else {
                        assert(tile_xy(before, w, xx, yy) == TileType::Floor);
                    }
                }
            }
            if x == hi {
                break;
            }
            x = x + 1;
        }
        proof {
            let target = h_tunnel_result(old_tiles, w, self.height, x1 as int, x2 as int, y as int);
            assert forall|i: int| 0 <= i < old_tiles.len() implies #[trigger] self.tiles@[i] == target[i] by {
                if h_tunnel_covers(w, self.height, x1 as int, x2 as int, y as int, i) {
                    let (xx, yy) = choose|xx: int, yy: int|
                        #[trigger] on_h_segment(x1 as int, x2 as int, y as int, xx, yy) && i == xy_idx_spec(xx as i32, yy as i32, w);
                    assert(tile_xy(self.tiles@, w, xx, yy) == TileType::Floor);
                }
            }
            assert(self.tiles@ =~= target);
        }
    }

    /// Turns into floor the tiles of column `x` from row `y1` to row `y2` (either
    /// order), each found by `xy_idx`, skipping an index that is 0 or not below
    /// `width * height`.
    fn apply_vertical_tunnel(&mut self, y1: i32, y2: i32, x: i32)
        requires
            grid_size(old(self).width, old(self).height) <= usize::MAX,
            forall|xx: int, yy: int|
                #[trigger] on_v_segment(y1 as int, y2 as int, x as int, xx, yy) ==> tunnel_cell_ok(
                    old(self).tiles.len() as int,
                    old(self).width,
                    old(self).height,
                    xx,
                    yy,
                ),
        ensures
            final(self).tiles@ == v_tunnel_result(old(self).tiles@, old(self).width, old(self).height, y1 as int, y2 as int, x as int),
            final(self).width == old(self).width,
            final(self).height == old(self).height,
            final(self).rooms == old(self).rooms,
            final(self).revealed_tiles == old(self).revealed_tiles,
            final(self).visible_tiles == old(self).visible_tiles,
            final(self).blocked == old(self).blocked,
            only_floor_added(old(self).tiles@, final(self).tiles@),
            forall|xx: int, yy: int|
                #[trigger] on_v_segment(y1 as int, y2 as int, x as int, xx, yy)
                    && 0 < xy_idx_spec(xx as i32, yy as i32, old(self).width) < grid_size(old(self).width, old(self).height)
                    ==> tile_xy(final(self).tiles@, old(self).width, xx, yy) == TileType::Floor,
            forall|i: int|
                0 <= i < old(self).tiles.len() && #[trigger] final(self).tiles@[i] != old(self).tiles@[i]
                    ==> 0 < i < grid_size(old(self).width, old(self).height) && exists|xx: int, yy: int|
                        #[trigger] on_v_segment(y1 as int, y2 as int, x as int, xx, yy)
                            && i == xy_idx_spec(xx as i32, yy as i32, old(self).width),
    {
        let ghost w = self.width;
        let ghost old_tiles = self.tiles@;
        let lo = if y1 <= y2 { y1 } else { y2 };
        let hi = if y1 <= y2 { y2 } else { y1 };
        let mut y = lo;
        loop
            invariant_except_break
                self.tiles.len() == old_tiles.len(),
                self.width == old(self).width,
                self.height == old(self).height,
                self.rooms == old(self).rooms,
                self.revealed_tiles == old(self).revealed_tiles,
                self.visible_tiles == old(self).visible_tiles,
                self.blocked == old(self).blocked,
                w == self.width,
                old_tiles == old(self).tiles@,
                grid_size(w, self.height) <= usize::MAX,
                forall|xx: int, yy: int|
                    #[trigger] on_v_segment(y1 as int, y2 as int, x as int, xx, yy) ==> tunnel_cell_ok(old_tiles.len() as int, w, self.height, xx, yy),
                lo == min_int(y1 as int, y2 as int),
                hi == max_int(y1 as int, y2 as int),
                lo <= y <= hi,
                only_floor_added(old_tiles, self.tiles@),
                forall|xx: int, yy: int|
                    #[trigger] on_v_segment(y1 as int, y2 as int, x as int, xx, yy) && yy < y
                        && 0 < xy_idx_spec(xx as i32, yy as i32, w) < grid_size(w, self.height)
                        ==> tile_xy(self.tiles@, w, xx, yy) == TileType::Floor,
                forall|i: int|
                    0 <= i < old_tiles.len() && #[trigger] self.tiles@[i] != old_tiles[i]
                        ==> 0 < i < grid_size(w, self.height) && exists|xx: int, yy: int|
                            #[trigger] on_v_segment(y1 as int, y2 as int, x as int, xx, yy)
                                && i == xy_idx_spec(xx as i32, yy as i32, w),
            ensures
                self.tiles.len() == old_tiles.len(),
                self.width == old(self).width,
                self.height == old(self).height,
                self.rooms == old(self).rooms,
                self.revealed_tiles == old(self).revealed_tiles,
                self.visible_tiles == old(self).visible_tiles,
                self.blocked == old(self).blocked,
                only_floor_added(old_tiles, self.tiles@),
                forall|xx: int, yy: int|
                    #[trigger] on_v_segment(y1 as int, y2 as int, x as int, xx, yy)
                        && 0 < xy_idx_spec(xx as i32, yy as i32, w) < grid_size(w, self.height)
                        ==> tile_xy(self.tiles@, w, xx, yy) == TileType::Floor,
                forall|i: int|
                    0 <= i < old_tiles.len() && #[trigger] self.tiles@[i] != old_tiles[i]
                        ==> 0 < i < grid_size(w, self.height) && exists|xx: int, yy: int|
                            #[trigger] on_v_segment(y1 as int, y2 as int, x as int, xx, yy)
                                && i == xy_idx_spec(xx as i32, yy as i32, w),
            decreases hi - y,
        {
            proof {
                assert(tunnel_cell_ok(old_tiles.len() as int, w, self.height, x as int, y as int)) by {
                    assert(on_v_segment(y1 as int, y2 as int, x as int, x as int, y as int));
                }
            }
            let idx = self.xy_idx(x, y);
            let size = (self.width as usize) * (self.height as usize);
            let ghost before = self.tiles@;
            if idx > 0 && idx < size {
                self.tiles.set(idx, TileType::Floor);
                proof {
                    assert(on_v_segment(y1 as int, y2 as int, x as int, x as int, y as int));
                }
            }
            proof {
                assert forall|xx: int, yy: int|
                    #[trigger] on_v_segment(y1 as int, y2 as int, x as int, xx, yy) && yy < y + 1
                        && 0 < xy_idx_spec(xx as i32, yy as i32, w) < grid_size(w, self.height)
                        implies tile_xy(self.tiles@, w, xx, yy) == TileType::Floor by {
                    if yy == y {
                    } else {
                        assert(tile_xy(before, w, xx, yy) == TileType::Floor);
                    }
                }
            }
            if y == hi {
                break;
            }
            y = y + 1;
        }
        proof {
            let target = v_tunnel_result(old_tiles, w, self.height, y1 as int, y2 as int, x as int);
            assert forall|i: int| 0 <= i < old_tiles.len() implies #[trigger] self.tiles@[i] == target[i] by {
                if v_tunnel_covers(w, self.height, y1 as int, y2 as int, x as int, i) {
                    let (xx, yy) = choose|xx: int, yy: int|
                        #[trigger] on_v_segment(y1 as int, y2 as int, x as int, xx, yy) && i == xy_idx_spec(xx as i32, yy as i32, w);
                    assert(tile_xy(self.tiles@, w, xx, yy) == TileType::Floor);
                }
            }
            assert(self.tiles@ =~= target);
        }
    }

    /// Whether `new_room` overlaps or touches none of the rooms already placed.
    pub fn room_fits(&self, new_room: &Rect) -> (ok: bool)
        ensures
            ok == (forall|j: int| 0 <= j < self.rooms.len() ==> !new_room.overlaps(#[trigger] self.rooms@[j])),
    {
        let mut ok = true;
        let mut j: usize = 0;
        while j < self.rooms.len()
            invariant
                0 <= j <= self.rooms.len(),
                ok == (forall|k: int| 0 <= k < j ==> !new_room.overlaps(#[trigger] self.rooms@[k])),
            decreases self.rooms.len() - j,
        {
            if new_room.intersect(&self.rooms[j]) {
                ok = false;
            }
            j = j + 1;
        }
        ok
    }

    /// Carves an L-shaped corridor of floor from the centre of `prev` to the centre of
    /// `new_room`: along the row of `prev`'s centre and then down the column of the new
    /// centre when `horizontal_first`, else along the column of `prev`'s centre and then
    /// the row of the new centre. The tile of index 0 is never carved.
    pub fn connect_rooms(&mut self, prev: &Rect, new_room: &Rect, horizontal_first: bool)
        requires
            old(self).wf(),
            old(self).holds_room(*prev),
            old(self).holds_room(*new_room),
            prev.x1 + prev.x2 <= i32::MAX,
            prev.y1 + prev.y2 <= i32::MAX,
            new_room.x1 + new_room.x2 <= i32::MAX,
            new_room.y1 + new_room.y2 <= i32::MAX,
        ensures
            final(self).wf(),
            final(self).width == old(self).width,
            final(self).height == old(self).height,
            final(self).rooms == old(self).rooms,
            final(self).revealed_tiles == old(self).revealed_tiles,
            final(self).visible_tiles == old(self).visible_tiles,
            final(self).blocked == old(self).blocked,
            only_floor_added(old(self).tiles@, final(self).tiles@),
            corridor_carved(
                final(self).tiles@,
                old(self).width as int,
                prev.center_spec(),
                new_room.center_spec(),
                horizontal_first,
            ),
            forall|i: int|
                0 <= i < old(self).tiles.len() && #[trigger] final(self).tiles@[i] != old(self).tiles@[i]
                    ==> 0 < i && exists|x: int, y: int|
                        #[trigger] on_corridor(prev.center_spec(), new_room.center_spec(), horizontal_first, x, y)
                            && i == cell(old(self).width as int, x, y),
    {
        let ghost w = self.width as int;
        let ghost h = self.height as int;
        let ghost t0 = self.tiles@;
        let (new_x, new_y) = new_room.center();
        let (prev_x, prev_y) = prev.center();
        let ghost from = prev.center_spec();
        let ghost to = new_room.center_spec();
        let ghost len = t0.len() as int;
        proof {
            lemma_cell_in_grid(w, h, prev_x as int, prev_y as int);
            lemma_cell_in_grid(w, h, new_x as int, new_y as int);
            lemma_h_segment_cells(len, self.width, self.height, from.0, to.0, from.1);
            lemma_h_segment_cells(len, self.width, self.height, from.0, to.0, to.1);
            lemma_v_segment_cells(len, self.width, self.height, from.1, to.1, to.0);
            lemma_v_segment_cells(len, self.width, self.height, from.1, to.1, from.0);
        }
        if horizontal_first {
            self.apply_horizontal_tunnel(prev_x, new_x, prev_y);
            let ghost t1 = self.tiles@;
            self.apply_vertical_tunnel(prev_y, new_y, new_x);
            proof {
                assert forall|x: int, y: int|
                    #[trigger] on_h_segment(from.0, to.0, from.1, x, y) && 0 < cell(w, x, y) implies tile_at(
                        t1,
                        w,
                        x,
                        y,
                    ) == TileType::Floor by {
                    assert(tile_xy(t1, self.width, x, y) == TileType::Floor);
                }
                lemma_h_segment_kept(t1, self.tiles@, w, h, from.0, to.0, from.1);
                assert forall|x: int, y: int|
                    #[trigger] on_v_segment(from.1, to.1, to.0, x, y) && 0 < cell(w, x, y) implies tile_at(
                        self.tiles@,
                        w,
                        x,
                        y,
                    ) == TileType::Floor by {
                    assert(tile_xy(self.tiles@, self.width, x, y) == TileType::Floor);
                }
                assert forall|i: int| 0 <= i < t0.len() && #[trigger] self.tiles@[i] != t0[i] implies 0 < i && exists|
                    x: int,
                    y: int,
                | #[trigger] on_corridor(from, to, horizontal_first, x, y) && i == cell(w, x, y) by {
                    if self.tiles@[i] != t1[i] {
                        let (x, y) = choose|x: int, y: int|
                            #[trigger] on_v_segment(from.1, to.1, to.0, x, y) && i == xy_idx_spec(
                                x as i32,
                                y as i32,
                                self.width,
                            );
                        assert(on_corridor(from, to, horizontal_first, x, y));
                    } else {
                        assert(t1[i] != t0[i]);
                        let (x, y) = choose|x: int, y: int|
                            #[trigger] on_h_segment(from.0, to.0, from.1, x, y) && i == xy_idx_spec(
                                x as i32,
                                y as i32,
                                self.width,
                            );
                        assert(on_corridor(from, to, horizontal_first, x, y));
                    }
                }
            }
        } else {
            self.apply_vertical_tunnel(prev_y, new_y, prev_x);
            let ghost t1 = self.tiles@;
            self.apply_horizontal_tunnel(prev_x, new_x, new_y);
            proof {
                assert forall|x: int, y: int|
                    #[trigger] on_v_segment(from.1, to.1, from.0, x, y) && 0 < cell(w, x, y) implies tile_at(
                        t1,
                        w,
                        x,
                        y,
                    ) == TileType::Floor by {
                    assert(tile_xy(t1, self.width, x, y) == TileType::Floor);
                }
                lemma_v_segment_kept(t1, self.tiles@, w, h, from.1, to.1, from.0);
                assert forall|x: int, y: int|
                    #[trigger] on_h_segment(from.0, to.0, to.1, x, y) && 0 < cell(w, x, y) implies tile_at(
                        self.tiles@,
                        w,
                        x,
                        y,
                    ) == TileType::Floor by {
                    assert(tile_xy(self.tiles@, self.width, x, y) == TileType::Floor);
                }
                assert forall|i: int| 0 <= i < t0.len() && #[trigger] self.tiles@[i] != t0[i] implies 0 < i && exists|
                    x: int,
                    y: int,
                | #[trigger] on_corridor(from, to, horizontal_first, x, y) && i == cell(w, x, y) by {
                    if self.tiles@[i] != t1[i] {
                        let (x, y) = choose|x: int, y: int|
                            #[trigger] on_h_segment(from.0, to.0, to.1, x, y) && i == xy_idx_spec(
                                x as i32,
                                y as i32,
                                self.width,
                            );
                        assert(on_corridor(from, to, horizontal_first, x, y));
                    } else {
                        assert(t1[i] != t0[i]);
                        let (x, y) = choose|x: int, y: int|
                            #[trigger] on_v_segment(from.1, to.1, from.0, x, y) && i == xy_idx_spec(
                                x as i32,
                                y as i32,
                                self.width,
                            );
                        assert(on_corridor(from, to, horizontal_first, x, y));
                    }
                }
            }
        }
    }

    /// The room that `place_room(w, h, x, y, ..)` places: `Rect::new(x, y, w, h)`.
    pub open spec fn room_of(w: i32, h: i32, x: i32, y: i32) -> Rect {
        Rect { x1: x, y1: y, x2: (x + w) as i32, y2: (y + h) as i32 }
    }

    /// One step of the generator: the room `Rect::new(x, y, w, h)` is placed when it overlaps
    /// or touches none of the rooms already placed. Then its interior is carved; when there is a
    /// room before it, an L-shaped corridor is carved from the centre of the last room to its
    /// centre (row first when `horizontal_first`, else column first; index 0 never carved); and
    /// the room is added at the end of `rooms`. A room that does not fit changes nothing.
    /// Returns whether the room was placed.
    pub fn place_room(&mut self, w: i32, h: i32, x: i32, y: i32, horizontal_first: bool) -> (placed: bool)
        requires
            old(self).wf(),
            i32::MIN <= x + w <= i32::MAX,
            i32::MIN <= y + h <= i32::MAX,
            (forall|j: int|
                0 <= j < old(self).rooms.len() ==> !Self::room_of(w, h, x, y).overlaps(#[trigger] old(self).rooms@[j]))
                ==> {
                &&& old(self).holds_room(Self::room_of(w, h, x, y))
                &&& x + (x + w) <= i32::MAX
                &&& y + (y + h) <= i32::MAX
                &&& old(self).rooms.len() > 0 ==> {
                    let prev = old(self).rooms@.last();
                    &&& old(self).holds_room(prev)
                    &&& prev.x1 + prev.x2 <= i32::MAX
                    &&& prev.y1 + prev.y2 <= i32::MAX
                }
            },
        ensures
            placed == (forall|j: int|
                0 <= j < old(self).rooms.len() ==> !Self::room_of(w, h, x, y).overlaps(#[trigger] old(self).rooms@[j])),
            final(self).wf(),
            final(self).width == old(self).width,
            final(self).height == old(self).height,
            final(self).revealed_tiles == old(self).revealed_tiles,
            final(self).visible_tiles == old(self).visible_tiles,
            final(self).blocked == old(self).blocked,
            !placed ==> final(self).tiles@ == old(self).tiles@ && final(self).rooms@ == old(self).rooms@,
            placed ==> {
                let r = Self::room_of(w, h, x, y);
                let ww = old(self).width as int;
                &&& final(self).rooms@ == old(self).rooms@.push(r)
                &&& only_floor_added(old(self).tiles@, final(self).tiles@)
                &&& room_carved(final(self).tiles@, ww, r)
                &&& old(self).rooms.len() > 0 ==> corridor_carved(
                    final(self).tiles@,
                    ww,
                    old(self).rooms@.last().center_spec(),
                    r.center_spec(),
                    horizontal_first,
                )
                &&& forall|i: int|
                    0 <= i < old(self).tiles.len() && #[trigger] final(self).tiles@[i] != old(self).tiles@[i] ==> (
                    exists|xx: int, yy: int| #[trigger] in_interior(r, xx, yy) && i == cell(ww, xx, yy)) || (
                    old(self).rooms.len() > 0 && 0 < i && exists|xx: int, yy: int|
                        #[trigger] on_corridor(
                            old(self).rooms@.last().center_spec(),
                            r.center_spec(),
                            horizontal_first,
                            xx,
                            yy,
                        ) && i == cell(ww, xx, yy))
            },
    {
        let new_room = Rect::new(x, y, w, h);
        if !self.room_fits(&new_room) {
            return false;
        }
        let ghost ww = self.width as int;
        let ghost hh = self.height as int;
        let ghost t0 = self.tiles@;
        let ghost rooms0 = self.rooms@;
        proof {
            lemma_room_in_grid(*self, new_room);
        }
        self.apply_room_to_map(&new_room);
        let ghost t1 = self.tiles@;
        proof {
            assert forall|xx: int, yy: int| #[trigger] in_interior(new_room, xx, yy) implies tile_at(
                t1,
                ww,
                xx,
                yy,
            ) == TileType::Floor by {
                assert(tile_xy(t1, self.width, xx, yy) == TileType::Floor);
            }
            assert forall|i: int| 0 <= i < t0.len() && #[trigger] t1[i] != t0[i] implies exists|xx: int, yy: int|
                #[trigger] in_interior(new_room, xx, yy) && i == cell(ww, xx, yy) by {
                let (xx, yy) = choose|xx: int, yy: int|
                    #[trigger] in_interior(new_room, xx, yy) && i == xy_idx_spec(xx as i32, yy as i32, self.width);
                assert(in_interior(new_room, xx, yy) && i == cell(ww, xx, yy));
            }
        }
        let ghost mut t2 = t1;
        if !self.rooms.is_empty() {
            let prev = self.rooms[self.rooms.len() - 1];
            self.connect_rooms(&prev, &new_room, horizontal_first);
            proof {
                t2 = self.tiles@;
                lemma_room_carved_kept(t1, t2, ww, hh, new_room);
                assert forall|i: int| 0 <= i < t0.len() && #[trigger] t2[i] != t0[i] implies t2[i] == TileType::Floor by {
                    if t2[i] == t1[i] {
                        assert(t1[i] != t0[i]);
                    }
                }
            }
        }
        self.rooms.push(new_room);
        proof {
            assert forall|i: int| 0 <= i < t0.len() && #[trigger] t2[i] != t0[i] implies (exists|xx: int, yy: int|
                #[trigger] in_interior(new_room, xx, yy) && i == cell(ww, xx, yy)) || (rooms0.len() > 0 && 0 < i
                && exists|xx: int, yy: int|
                #[trigger] on_corridor(rooms0.last().center_spec(), new_room.center_spec(), horizontal_first, xx, yy)
                    && i == cell(ww, xx, yy)) by {
                if t1[i] != t0[i] {
                } else {
                    assert(t2[i] != t1[i]);
                }
            }
        }
        true
    }

    /// Makes an 80 by 50 map of walls and carves into it up to 30 random rooms, each
    /// joined to the previous one by an L-shaped corridor; a room that would overlap or
    /// touch one already placed is dropped.
    pub fn new_map_rooms_and_corridors() -> (map: GameMap)
        ensures
            generated_map(map),
    {
        let mut map = GameMap {
            tiles: vec![TileType::Wall; 80 * 50],
            rooms: Vec::new(),
            width: MAP_WIDTH,
            height: MAP_HEIGHT,
            revealed_tiles: vec![false; 80 * 50],
            visible_tiles: vec![false; 80 * 50],
            blocked: vec![false; 80 * 50],
        };
        let mut rng = rng_new();
        let mut attempt: i32 = 0;
        while attempt < MAX_ROOMS
            invariant
                0 <= attempt <= MAX_ROOMS,
                map.rooms.len() <= attempt,
                attempt >= 1 ==> map.rooms.len() >= 1,
                map.wf(),
                map.width == MAP_WIDTH,
                map.height == MAP_HEIGHT,
                forall|i: int| 0 <= i < map.tiles.len() ==> !#[trigger] map.revealed_tiles@[i],
                forall|i: int| 0 <= i < map.tiles.len() ==> !#[trigger] map.visible_tiles@[i],
                forall|i: int| 0 <= i < map.tiles.len() ==> !#[trigger] map.blocked@[i],
                forall|j: int| 0 <= j < map.rooms.len() ==> generated_room(#[trigger] map.rooms@[j]),
                forall|j: int, k: int|
                    0 <= j < k < map.rooms.len() ==> !(#[trigger] map.rooms@[j]).overlaps(#[trigger] map.rooms@[k]),
                forall|j: int|
                    0 <= j < map.rooms.len() ==> room_carved(map.tiles@, MAP_WIDTH as int, #[trigger] map.rooms@[j]),
                forall|j: int|
                    0 < j < map.rooms.len() ==> rooms_connected(
                        map.tiles@,
                        MAP_WIDTH as int,
                        map.rooms@[j - 1],
                        #[trigger] map.rooms@[j],
                    ),
                forall|i: int|
                    0 <= i < map.tiles.len() && #[trigger] map.tiles@[i] == TileType::Floor ==> carved_by_rooms(
                        map.rooms@,
                        MAP_WIDTH as int,
                        i,
                    ),
            decreases MAX_ROOMS - attempt,
        {
            let w = rng_range(&mut rng, MIN_SIZE, MAX_SIZE);
            let h = rng_range(&mut rng, MIN_SIZE, MAX_SIZE);
            let x = rng_roll_dice(&mut rng, 1, map.width - w - 1) - 1;
            let y = rng_roll_dice(&mut rng, 1, map.height - h - 1) - 1;
            let new_room = Rect::new(x, y, w, h);
            // The orientation is drawn only for a room that fits and has a room before it,
            // so the fit is tested before the draw and again inside `place_room`.
            if map.room_fits(&new_room) {
                let ghost rooms0 = map.rooms@;
                let ghost t0 = map.tiles@;
                let horizontal_first = if map.rooms.is_empty() {
                    false
                } else {
                    rng_range(&mut rng, 0, 2) == 1
                };
                proof {
                    assert(new_room == Self::room_of(w, h, x, y));
                    if rooms0.len() > 0 {
                        assert(generated_room(rooms0.last()));
                    }
                }
                let placed = map.place_room(w, h, x, y, horizontal_first);
                let ghost t1 = map.tiles@;
                proof {
                    assert(placed);
                    let n0 = rooms0.len() as int;
                    assert forall|j: int| 0 <= j < n0 implies #[trigger] map.rooms@[j] == rooms0[j] by {}
                    assert(map.rooms@[n0] == new_room);
                    assert forall|j: int| 0 <= j < map.rooms.len() implies room_carved(
                        t1,
                        MAP_WIDTH as int,
                        #[trigger] map.rooms@[j],
                    ) by {
                        if j < n0 {
                            assert(map.rooms@[j] == rooms0[j]);
                            lemma_room_carved_kept(t0, t1, 80, 50, rooms0[j]);
                        }
                    }
                    assert forall|j: int| 0 < j < map.rooms.len() implies rooms_connected(
                        t1,
                        MAP_WIDTH as int,
                        map.rooms@[j - 1],
                        #[trigger] map.rooms@[j],
                    ) by {
                        let a = map.rooms@[j - 1];
                        let b = map.rooms@[j];
                        if j < n0 {
                            assert(a == rooms0[j - 1] && b == rooms0[j]);
                            assert(rooms_connected(t0, MAP_WIDTH as int, rooms0[j - 1], rooms0[j]));
                            assert(generated_room(a));
                            assert(generated_room(b));
                            if corridor_carved(t0, 80, a.center_spec(), b.center_spec(), true) {
                                lemma_corridor_carved_kept(t0, t1, 80, 50, a.center_spec(), b.center_spec(), true);
                            } else {
                                lemma_corridor_carved_kept(t0, t1, 80, 50, a.center_spec(), b.center_spec(), false);
                            }
                        } else {
                            assert(a == rooms0.last());
                            assert(corridor_carved(t1, 80, a.center_spec(), b.center_spec(), horizontal_first));
                        }
                    }
                    assert forall|j: int| 0 <= j < map.rooms.len() implies generated_room(#[trigger] map.rooms@[j]) by {
                        if j < n0 {
                            assert(map.rooms@[j] == rooms0[j]);
                        }
                    }
                    assert forall|j: int, k: int|
                        0 <= j < k < map.rooms.len() implies !(#[trigger] map.rooms@[j]).overlaps(
                        #[trigger] map.rooms@[k],
                    ) by {
                        assert(map.rooms@[j] == rooms0[j]);
                        if k == n0 {
                            assert(!new_room.overlaps(rooms0[j]));
                            crate::geometry::lemma_overlap_symmetric(rooms0[j], new_room);
                        } else {
                            assert(map.rooms@[k] == rooms0[k]);
                        }
                    }
                    assert forall|i: int|
                        0 <= i < map.tiles.len() && #[trigger] map.tiles@[i] == TileType::Floor implies carved_by_rooms(
                        map.rooms@,
                        MAP_WIDTH as int,
                        i,
                    ) by {
                        if t0[i] == TileType::Floor {
                            lemma_carved_by_rooms_push(rooms0, new_room, 80, i);
                        } else if exists|xx: int, yy: int| #[trigger] in_interior(new_room, xx, yy) && i == cell(80, xx, yy) {
                            let (xx, yy) = choose|xx: int, yy: int|
                                #[trigger] in_interior(new_room, xx, yy) && i == cell(80, xx, yy);
                            assert(in_interior(map.rooms@[n0], xx, yy));
                        } else {
                            let (xx, yy) = choose|xx: int, yy: int|
                                #[trigger] on_corridor(rooms0.last().center_spec(), new_room.center_spec(), horizontal_first, xx, yy)
                                    && i == cell(80, xx, yy);
                            assert(map.rooms@[n0 - 1] == rooms0.last());
                            assert(on_corridor(
                                map.rooms@[n0 - 1].center_spec(),
                                map.rooms@[n0].center_spec(),
                                horizontal_first,
                                xx,
                                yy,
                            ));
                        }
                    }
                }
            }
            attempt = attempt + 1;
        }
        map
    }
    /// Whether the tile at `idx` blocks sight: it does exactly when it is a wall.
    pub fn is_opaque(&self, idx: usize) -> (opaque: bool)
        requires
            idx < self.tiles.len(),
        ensures
            opaque == (self.tiles@[idx as int] == TileType::Wall),
    {
        match self.tiles[idx] {
            TileType::Wall => true,
            TileType::Floor => false,
        }
    }

    /// The size of the grid, as a point `(width, height)`.
    pub fn dimensions(&self) -> (p: Point)
        ensures
            p.x == self.width,
            p.y == self.height,
    {
        Point::new(self.width, self.height)
    }

    /// The index of `pt`: `pt.y * width + pt.x`, computed in `i32`. An overflow or a negative
    /// index is not accepted: either would panic.
    pub fn point2d_to_index(&self, pt: Point) -> (idx: usize)
        requires
            i32::MIN <= pt.y * self.width <= i32::MAX,
            0 <= point_to_index_spec(self.width as int, pt) <= i32::MAX,
        ensures
            idx == point_to_index_spec(self.width as int, pt),
    {
        let bounds = self.dimensions();
        let i = (pt.y * bounds.x) + pt.x;
        i as usize
    }

    /// The point of index `idx`: `(idx % width, idx / width)`, each coordinate that does not
    /// fit in `i32` replaced by 0.
    pub fn index_to_point2d(&self, idx: usize) -> (p: Point)
        requires
            self.width > 0,
        ensures
            p == index_to_point_spec(self.width as int, idx as int),
    {
        let bounds = self.dimensions();
        let w = bounds.x as usize;
        let px = idx % w;
        let py = idx / w;
        let x = if px <= 2147483647usize { px as i32 } else { 0i32 };
        let y = if py <= 2147483647usize { py as i32 } else { 0i32 };
        Point::new(x, y)
    }

    /// Whether `pos` lies inside the grid.
    pub fn in_bounds(&self, pos: Point) -> (inside: bool)
        ensures
            inside == in_grid(self.width as int, self.height as int, pos.x as int, pos.y as int),
    {
        let bounds = self.dimensions();
        pos.x >= 0 && pos.x < bounds.x && pos.y >= 0 && pos.y < bounds.y
    }
}

/// Going from an index of the grid to its point and back gives the index again, and the
/// point lies inside the grid.
pub proof fn lemma_index_point_round_trip(map: GameMap, idx: int)
    requires
        map.wf(),
        map.width > 0,
        0 <= idx < map.tiles.len(),
    ensures
        in_grid(
            map.width as int,
            map.height as int,
            index_to_point_spec(map.width as int, idx).x as int,
            index_to_point_spec(map.width as int, idx).y as int,
        ),
        point_to_index_spec(map.width as int, index_to_point_spec(map.width as int, idx)) == idx,
{
    let w = map.width as int;
    let h = map.height as int;
    vstd::arithmetic::div_mod::lemma_fundamental_div_mod(idx, w);
    assert(0 <= idx % w < w) by {
        vstd::arithmetic::div_mod::lemma_mod_pos_bound(idx, w);
    }
    assert(0 <= idx / w < h) by (nonlinear_arith)
        requires
            0 <= idx < w * h,
            w > 0,
            idx == w * (idx / w) + idx % w,
            0 <= idx % w < w,
    ;
    assert((idx / w) * w + idx % w == idx) by (nonlinear_arith)
        requires
            idx == w * (idx / w) + idx % w,
    ;
}

/// Going from a point inside the grid to its index and back gives the point again, and the
/// index lies inside the grid.
pub proof fn lemma_point_index_round_trip(map: GameMap, p: Point)
    requires
        map.wf(),
        in_grid(map.width as int, map.height as int, p.x as int, p.y as int),
    ensures
        0 <= point_to_index_spec(map.width as int, p) < map.tiles.len(),
        index_to_point_spec(map.width as int, point_to_index_spec(map.width as int, p)) == p,
{
    let w = map.width as int;
    let h = map.height as int;
    lemma_cell_in_grid(w, h, p.x as int, p.y as int);
    vstd::arithmetic::div_mod::lemma_fundamental_div_mod_converse(
        cell(w, p.x as int, p.y as int),
        w,
        p.y as int,
        p.x as int,
    );
}

/// On a point inside the grid, `xy_idx` and `point2d_to_index` agree.
pub proof fn lemma_xy_idx_is_point_index(map: GameMap, p: Point)
    requires
        map.wf(),
        in_grid(map.width as int, map.height as int, p.x as int, p.y as int),
    ensures
        xy_idx_spec(p.x, p.y, map.width) == point_to_index_spec(map.width as int, p),
{
}

} // verus!
