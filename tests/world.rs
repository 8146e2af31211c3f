use raycaster::map::TileMap;
use raycaster::player::{Player, RayCastResult, HALF_TURN, QUARTER_TURN, TURN};
use raycaster::vector::Vector;

fn grid(width: usize, height: usize, rows: &[&[u8]], tile_size: u32) -> TileMap {
    let tiles: Vec<u8> = rows.iter().flat_map(|r| r.iter().copied()).collect();
    TileMap::new("test".to_string(), width, height, tile_size, tiles)
}

fn ring() -> TileMap {
    grid(
        5,
        5,
        &[
            &[1, 1, 1, 1, 1],
            &[1, 0, 0, 0, 1],
            &[1, 0, 0, 0, 1],
            &[1, 0, 0, 0, 1],
            &[1, 1, 1, 1, 1],
        ],
        64,
    )
}

fn maze() -> TileMap {
    grid(
        5,
        5,
        &[
            &[1, 1, 1, 1, 1],
            &[1, 0, 1, 0, 1],
            &[1, 1, 0, 0, 1],
            &[1, 0, 0, 0, 1],
            &[1, 1, 1, 1, 1],
        ],
        64,
    )
}

#[test]
fn map_coordinates_truncate_and_reject_outside() {
    let map = ring();
    assert_eq!(map.to_map_coordinates(0, 0), Some((0, 0)));
    assert_eq!(map.to_map_coordinates(63, 64), Some((0, 1)));
    assert_eq!(map.to_map_coordinates(319, 319), Some((4, 4)));
    assert_eq!(map.to_map_coordinates(320, 10), None);
    assert_eq!(map.to_map_coordinates(10, 320), None);
    assert_eq!(map.to_map_coordinates(-1, 10), None);
    assert_eq!(map.to_map_coordinates(10, -63), None);
    assert!(map.in_map(100, 100));
    assert!(!map.in_map(-5, 100));
}

#[test]
fn map_origin_shifts_coordinates() {
    let mut map = ring();
    map.set_position(100, -50);
    assert_eq!(map.get_origin(), (100, -50));
    assert_eq!(map.to_map_coordinates(100, -50), Some((0, 0)));
    assert_eq!(map.to_map_coordinates(99, 0), None);
    assert_eq!(map.to_map_coordinates(164, 14), Some((1, 1)));
}

#[test]
fn auto_tile_size_fits_the_window() {
    let mut map = grid(4, 2, &[&[0, 0, 0, 0], &[0, 0, 0, 0]], 1);
    map.auto_tile_size(800, 600);
    assert_eq!(map.get_tile_size(), 200);
    map.auto_tile_size(801, 100);
    assert_eq!(map.get_tile_size(), 50);
    map.auto_tile_size(3, 100);
    assert_eq!(map.get_tile_size(), 0);
    assert_eq!(map.to_map_coordinates(0, 0), None);
}

fn expect_hit(r: RayCastResult) -> (u128, u128, usize, usize, bool) {
    match r {
        RayCastResult::Hit(len, cell, side) => (len.num, len.den, cell.x, cell.y, side),
        RayCastResult::NoHit => panic!("expected a hit"),
    }
}

#[test]
fn ring_hit_from_center_in_four_directions() {
    let map = ring();
    let player = Player::new(160, 160, 0);
    let unit = 65536;
    // half the interior span of three tiles is 96 world units
    let east = expect_hit(player.raycast(&map, Vector::new(unit, 0)));
    assert_eq!((east.2, east.3, east.4), (4, 2, false));
    assert_eq!(east.0 as f64 / east.1 as f64 * unit as f64, 96.0);
    let west = expect_hit(player.raycast(&map, Vector::new(-unit, 0)));
    assert_eq!((west.2, west.3, west.4), (0, 2, false));
    assert_eq!(west.0 as f64 / west.1 as f64 * unit as f64, 96.0);
    let south = expect_hit(player.raycast(&map, Vector::new(0, unit)));
    assert_eq!((south.2, south.3, south.4), (2, 4, true));
    assert_eq!(south.0 as f64 / south.1 as f64 * unit as f64, 96.0);
    let north = expect_hit(player.raycast(&map, Vector::new(0, -unit)));
    assert_eq!((north.2, north.3, north.4), (2, 0, true));
    assert_eq!(north.0 as f64 / north.1 as f64 * unit as f64, 96.0);
}

#[test]
fn diagonal_ray_tie_goes_to_the_y_axis() {
    let map = ring();
    let player = Player::new(160, 160, 0);
    // from the middle of a cell a 45 degree ray reaches both grid lines at once
    let (num, den, x, y, side) = expect_hit(player.raycast(&map, Vector::new(1, 1)));
    assert_eq!((x, y, side), (3, 4, true));
    assert_eq!((num, den), (96, 1));
}

#[test]
fn off_map_ray_does_not_hit() {
    let map = ring();
    let player = Player::new(-10, 160, 0);
    assert!(matches!(player.raycast(&map, Vector::new(1, 0)), RayCastResult::NoHit));
    let player = Player::new(160, 5000, 0);
    assert!(matches!(player.raycast(&map, Vector::new(0, -1)), RayCastResult::NoHit));
}

#[test]
fn ray_leaving_open_map_does_not_hit() {
    let map = grid(3, 1, &[&[0, 0, 0]], 10);
    let player = Player::new(5, 5, 0);
    assert!(matches!(player.raycast(&map, Vector::new(1, 0)), RayCastResult::NoHit));
}

#[test]
fn forward_move_slides_along_wall() {
    let map = maze();
    let mut player = Player::new(100, 100, 0);
    player.move_forward(Vector::new(20, 20), &map);
    assert_eq!(player.position(), (100, 120));
}

#[test]
fn move_boxed_in_stays() {
    let map = maze();
    let mut player = Player::new(100, 100, 0);
    player.move_forward(Vector::new(20, 60), &map);
    assert_eq!(player.position(), (100, 100));
}

#[test]
fn free_moves_forward_and_back() {
    let map = ring();
    let mut player = Player::new(160, 160, QUARTER_TURN);
    player.move_forward(Vector::new(0, 20), &map);
    assert_eq!(player.position(), (160, 180));
    player.move_backward(Vector::new(0, 20), &map);
    assert_eq!(player.position(), (160, 160));
    assert_eq!(player.angle(), QUARTER_TURN);
}

#[test]
fn move_from_outside_the_map_is_refused() {
    let map = ring();
    let mut player = Player::new(-100, 160, 0);
    player.move_forward(Vector::new(150, 0), &map);
    assert_eq!(player.position(), (-100, 160));
}

#[test]
fn rotate_wraps_into_half_open_range() {
    let mut player = Player::new(0, 0, HALF_TURN - 10);
    player.rotate(20);
    assert_eq!(player.angle(), -HALF_TURN + 10);
    player.rotate(-20);
    assert_eq!(player.angle(), HALF_TURN - 10);
    let mut player = Player::new(0, 0, -HALF_TURN + 1);
    player.rotate(-1);
    assert_eq!(player.angle(), HALF_TURN);
}

#[test]
fn rotate_full_turn_in_small_steps_returns() {
    let mut player = Player::new(0, 0, 1000);
    for _ in 0..(TURN / 1024) {
        player.rotate(1024);
    }
    assert_eq!(player.angle(), 1000);
    for _ in 0..(TURN / 4096) {
        player.rotate(-4096);
    }
    assert_eq!(player.angle(), 1000);
}

#[test]
fn vector_to_i32_saturates() {
    let v = Vector::new(5_000_000_000i64, -7i64).to_i32();
    assert_eq!((v.x, v.y), (i32::MAX, -7));
    let v = Vector::new(i64::MIN, 12i64).to_i32();
    assert_eq!((v.x, v.y), (i32::MIN, 12));
}
