use rustlike::geometry::{Point, Rect};
use rustlike::map::{draw_map, draw_map_old, DrawCell, GameMap, TileType};

fn blank_map(width: i32, height: i32) -> GameMap {
    let n = (width * height) as usize;
    GameMap {
        tiles: vec![TileType::Wall; n],
        rooms: Vec::new(),
        width,
        height,
        revealed_tiles: vec![false; n],
        visible_tiles: vec![false; n],
        blocked: vec![false; n],
    }
}

#[test]
fn rect_new_and_center() {
    let r = Rect::new(10, 20, 6, 8);
    assert_eq!(r, Rect { x1: 10, y1: 20, x2: 16, y2: 28 });
    assert_eq!(r.center(), (13, 24));
    let odd = Rect::new(3, 4, 5, 7);
    assert_eq!(odd.center(), (5, 7));
    let neg = Rect::new(-3, -5, 0, 0);
    assert_eq!(neg.center(), (-3, -5));
    let straddle = Rect { x1: -3, x2: 0, y1: -1, y2: 0 };
    assert_eq!(straddle.center(), (-1, 0));
}

#[test]
fn rect_intersect_counts_touching() {
    let a = Rect::new(0, 0, 5, 5);
    let touching = Rect::new(5, 5, 3, 3);
    let apart = Rect::new(6, 0, 3, 3);
    let inside = Rect::new(1, 1, 1, 1);
    assert!(a.intersect(&touching));
    assert!(touching.intersect(&a));
    assert!(!a.intersect(&apart));
    assert!(!apart.intersect(&a));
    assert!(a.intersect(&inside));
}

#[test]
fn xy_idx_is_row_major() {
    let map = blank_map(80, 50);
    assert_eq!(map.xy_idx(0, 0), 0);
    assert_eq!(map.xy_idx(5, 0), 5);
    assert_eq!(map.xy_idx(0, 1), 80);
    assert_eq!(map.xy_idx(79, 49), 3999);
    assert_eq!(map.xy_idx(3, 2), 163);
}

#[test]
fn point_index_round_trips() {
    let map = blank_map(80, 50);
    assert_eq!(map.dimensions(), Point { x: 80, y: 50 });
    assert_eq!(map.point2d_to_index(Point::new(3, 2)), 163);
    assert_eq!(map.index_to_point2d(163), Point::new(3, 2));
    for idx in [0usize, 1, 79, 80, 1234, 3999] {
        let p = map.index_to_point2d(idx);
        assert!(map.in_bounds(p));
        assert_eq!(map.point2d_to_index(p), idx);
        assert_eq!(map.xy_idx(p.x, p.y), idx);
    }
}

#[test]
fn index_to_point_replaces_oversized_coordinate_by_zero() {
    let map = blank_map(1, 1);
    let p = map.index_to_point2d(3_000_000_000usize);
    assert_eq!(p, Point::new(0, 0));
}

#[test]
fn in_bounds_edges() {
    let map = blank_map(80, 50);
    assert!(map.in_bounds(Point::new(0, 0)));
    assert!(map.in_bounds(Point::new(79, 49)));
    assert!(!map.in_bounds(Point::new(80, 0)));
    assert!(!map.in_bounds(Point::new(0, 50)));
    assert!(!map.in_bounds(Point::new(-1, 3)));
    assert!(!map.in_bounds(Point::new(3, -1)));
}

#[test]
fn opaque_exactly_on_walls() {
    let mut map = blank_map(4, 2);
    map.tiles[5] = TileType::Floor;
    assert!(map.is_opaque(0));
    assert!(!map.is_opaque(5));
    assert_eq!(TileType::Floor.glyph(), '.');
    assert_eq!(TileType::Wall.glyph(), '#');
}

#[test]
fn default_map_is_empty() {
    let map = GameMap::default();
    assert_eq!(map.width, 0);
    assert_eq!(map.height, 0);
    assert!(map.tiles.is_empty());
    assert!(map.rooms.is_empty());
}

#[test]
fn room_fits_rejects_touching_rooms() {
    let mut map = blank_map(80, 50);
    assert!(map.room_fits(&Rect::new(10, 10, 6, 6)));
    map.rooms.push(Rect::new(10, 10, 6, 6));
    assert!(!map.room_fits(&Rect::new(16, 10, 6, 6)));
    assert!(!map.room_fits(&Rect::new(12, 12, 2, 2)));
    assert!(map.room_fits(&Rect::new(17, 10, 6, 6)));
}

fn floor(map: &GameMap, x: i32, y: i32) -> bool {
    map.tiles[map.xy_idx(x, y)] == TileType::Floor
}

#[test]
fn connect_rooms_horizontal_first() {
    let mut map = blank_map(80, 50);
    let prev = Rect::new(2, 2, 6, 6); // centre (5, 5)
    let next = Rect::new(20, 10, 6, 6); // centre (23, 13)
    map.connect_rooms(&prev, &next, true);
    for x in 5..=23 {
        assert!(floor(&map, x, 5));
    }
    for y in 5..=13 {
        assert!(floor(&map, 23, y));
    }
    let floors = map.tiles.iter().filter(|t| **t == TileType::Floor).count();
    assert_eq!(floors, 19 + 9 - 1);
    assert!(!floor(&map, 5, 6));
}

#[test]
fn connect_rooms_vertical_first() {
    let mut map = blank_map(80, 50);
    let prev = Rect::new(2, 2, 6, 6); // centre (5, 5)
    let next = Rect::new(20, 10, 6, 6); // centre (23, 13)
    map.connect_rooms(&prev, &next, false);
    for y in 5..=13 {
        assert!(floor(&map, 5, y));
    }
    for x in 5..=23 {
        assert!(floor(&map, x, 13));
    }
    assert!(!floor(&map, 6, 5));
}

#[test]
fn tunnel_never_carves_index_zero() {
    let mut map = blank_map(10, 10);
    let prev = Rect::new(0, 0, 0, 0); // centre (0, 0)
    let next = Rect::new(4, 0, 0, 0); // centre (4, 0)
    map.connect_rooms(&prev, &next, true);
    assert_eq!(map.tiles[0], TileType::Wall);
    for x in 1..=4 {
        assert!(floor(&map, x, 0));
    }
}

fn check_generated(map: &GameMap) {
    assert_eq!(map.width, 80);
    assert_eq!(map.height, 50);
    assert_eq!(map.tiles.len(), 4000);
    assert!(map.revealed_tiles.iter().all(|b| !*b));
    assert!(map.visible_tiles.iter().all(|b| !*b));
    assert!(map.blocked.iter().all(|b| !*b));
    assert!(!map.rooms.is_empty());
    assert!(map.rooms.len() <= 30);
    for (j, r) in map.rooms.iter().enumerate() {
        assert!(r.x1 >= 0 && r.x2 <= 78 && r.y1 >= 0 && r.y2 <= 48);
        assert!((6..10).contains(&(r.x2 - r.x1)));
        assert!((6..10).contains(&(r.y2 - r.y1)));
        for y in r.y1 + 1..=r.y2 {
            for x in r.x1 + 1..=r.x2 {
                assert!(floor(map, x, y));
            }
        }
        for other in map.rooms.iter().skip(j + 1) {
            assert!(!r.intersect(other));
        }
    }
    for j in 1..map.rooms.len() {
        let (ax, ay) = map.rooms[j - 1].center();
        let (bx, by) = map.rooms[j].center();
        let h_first = (ax.min(bx)..=ax.max(bx)).all(|x| floor(map, x, ay))
            && (ay.min(by)..=ay.max(by)).all(|y| floor(map, bx, y));
        let v_first = (ay.min(by)..=ay.max(by)).all(|y| floor(map, ax, y))
            && (ax.min(bx)..=ax.max(bx)).all(|x| floor(map, x, by));
        assert!(h_first || v_first);
    }
}

#[test]
fn generated_maps_keep_their_promises() {
    let mut sizes = std::collections::HashSet::new();
    let mut most_rooms = 0;
    for _ in 0..20 {
        let map = GameMap::new_map_rooms_and_corridors();
        check_generated(&map);
        for r in map.rooms.iter() {
            sizes.insert((r.x2 - r.x1, r.y2 - r.y1));
        }
        most_rooms = most_rooms.max(map.rooms.len());
    }
    // The random sizes and positions really vary.
    assert!(sizes.len() > 1);
    assert!(most_rooms > 1);
}

#[test]
fn draw_map_shows_revealed_tiles_only() {
    let mut map = blank_map(80, 2);
    map.tiles[1] = TileType::Floor;
    map.revealed_tiles[1] = true;
    map.revealed_tiles[81] = true;
    let cells = draw_map(&map);
    assert_eq!(
        cells,
        vec![
            DrawCell { x: 1, y: 0, tile: TileType::Floor },
            DrawCell { x: 1, y: 1, tile: TileType::Wall },
        ]
    );
    let none = draw_map(&blank_map(80, 2));
    assert!(none.is_empty());
}

#[test]
fn draw_map_wraps_rows_at_eighty_whatever_the_width() {
    let mut map = blank_map(100, 1);
    map.revealed_tiles[85] = true;
    let cells = draw_map(&map);
    assert_eq!(cells, vec![DrawCell { x: 5, y: 1, tile: TileType::Wall }]);
}

#[test]
fn draw_map_old_shows_visible_points() {
    let mut map = blank_map(80, 3);
    map.tiles[162] = TileType::Floor;
    let seen = vec![Point::new(2, 2), Point::new(0, 0), Point::new(90, 0)];
    let cells = draw_map_old(&map, &seen);
    assert_eq!(
        cells,
        vec![
            DrawCell { x: 0, y: 0, tile: TileType::Wall },
            DrawCell { x: 2, y: 2, tile: TileType::Floor },
        ]
    );
}

#[test]
fn place_room_carves_pushes_and_connects() {
    let mut map = blank_map(80, 50);
    assert!(map.place_room(6, 6, 2, 2, true)); // Rect (2,2)-(8,8), centre (5, 5)
    assert_eq!(map.rooms, vec![Rect::new(2, 2, 6, 6)]);
    let first_floors = map.tiles.iter().filter(|t| **t == TileType::Floor).count();
    assert_eq!(first_floors, 36);
    assert!(floor(&map, 3, 3) && floor(&map, 8, 8));
    assert!(!floor(&map, 2, 3) && !floor(&map, 3, 2));

    // A room that touches the first is refused and changes nothing.
    let tiles_before = map.tiles.clone();
    assert!(!map.place_room(6, 6, 8, 2, false));
    assert_eq!(map.tiles, tiles_before);
    assert_eq!(map.rooms.len(), 1);

    // The second room is joined column first from (5, 5) to its centre (23, 13).
    assert!(map.place_room(6, 6, 20, 10, false));
    assert_eq!(map.rooms, vec![Rect::new(2, 2, 6, 6), Rect::new(20, 10, 6, 6)]);
    for y in 5..=13 {
        assert!(floor(&map, 5, y));
    }
    for x in 5..=23 {
        assert!(floor(&map, x, 13));
    }
    assert!(!floor(&map, 12, 5));
    let floors = map.tiles.iter().filter(|t| **t == TileType::Floor).count();
    // two rooms, the column (5,9)..(5,13) and the row (5..20, 13) outside them
    assert_eq!(floors, 36 + 36 + 5 + 15);
}

#[test]
fn place_room_first_room_has_no_corridor() {
    let mut map = blank_map(80, 50);
    assert!(map.place_room(7, 8, 10, 10, true));
    let floors = map.tiles.iter().filter(|t| **t == TileType::Floor).count();
    assert_eq!(floors, 7 * 8);
}

#[test]
fn corridor_through_the_corner_leaves_tile_zero() {
    let mut map = blank_map(10, 10);
    let a = Rect::new(0, 0, 0, 0); // centre (0, 0)
    let b = Rect::new(0, 3, 0, 0); // centre (0, 3)
    map.connect_rooms(&a, &b, false);
    assert_eq!(map.tiles[0], TileType::Wall);
    for y in 1..=3 {
        assert!(floor(&map, 0, y));
    }
    let mut again = blank_map(10, 10);
    again.connect_rooms(&b, &a, false);
    again.connect_rooms(&b, &a, false);
    assert_eq!(again.tiles[0], TileType::Wall);
}

#[test]
fn corridors_are_idempotent_and_order_free() {
    let a = Rect::new(2, 2, 6, 6); // centre (5, 5)
    let b = Rect::new(20, 10, 6, 6); // centre (23, 13)
    let mut once = blank_map(80, 50);
    once.connect_rooms(&a, &b, true);
    let mut twice = blank_map(80, 50);
    twice.connect_rooms(&a, &b, true);
    twice.connect_rooms(&a, &b, true);
    assert_eq!(once.tiles, twice.tiles);
    // Both orientations together carve the same tiles whichever comes first.
    let mut hv = blank_map(80, 50);
    hv.connect_rooms(&a, &b, true);
    hv.connect_rooms(&a, &b, false);
    let mut vh = blank_map(80, 50);
    vh.connect_rooms(&a, &b, false);
    vh.connect_rooms(&a, &b, true);
    assert_eq!(hv.tiles, vh.tiles);
}
