use vstd::prelude::*;

use crate::map::{MapModel, TileMap, WALL};
use crate::vector::Vector;

verus! {

/// Angles are measured in binary units: a full turn is `TURN` units.
pub const TURN: i32 = 65536;

pub const HALF_TURN: i32 = 32768;

pub const QUARTER_TURN: i32 = 16384;

/// Half the side of the square the player occupies, in world units.
pub const PLAYER_RADIUS: i64 = 10;

/// A position on the map and a facing angle in `(-HALF_TURN, HALF_TURN]`.
pub struct Player {
    pos: Vector<i64>,
    angle: i32,
}

/// The mathematical content of a [`Player`].
pub struct PlayerModel {
    pub x: int,
    pub y: int,
    pub angle: int,
}

impl View for Player {
    type V = PlayerModel;

    closed spec fn view(&self) -> PlayerModel {
        PlayerModel { x: self.pos.x as int, y: self.pos.y as int, angle: self.angle as int }
    }
}

/// How far along a ray its hit lies: the hit point is `origin + (num / den) * direction`,
/// so its distance from the origin is `num / den` times the direction's length.
#[derive(Debug, Clone, Copy)]
pub struct RayLength {
    pub num: u128,
    pub den: u128,
}

/// What a ray meets first.
#[derive(Debug)]
pub enum RayCastResult {
    /// The distance to the wall, the wall's cell and the side flag:
    /// `true` when the ray entered the cell through a horizontal grid line.
    Hit(RayLength, Vector<usize>, bool),
    NoHit,
}

/// The ghost state of a grid traversal, in world units relative to the grid.
///
/// `cx`, `cy` is the start cell; `sx`, `sy` the unit step on each axis; `fx`, `fy`
/// the distance along each axis from the start to the first grid line crossed;
/// `adx`, `ady` the absolute values of the direction's components.
pub struct Ray {
    pub cx: int,
    pub cy: int,
    pub sx: int,
    pub sy: int,
    pub fx: int,
    pub fy: int,
    pub size: int,
    pub adx: int,
    pub ady: int,
}

pub open spec fn abs(v: int) -> int {
    if v < 0 {
        -v
    } else {
        v
    }
}

/// The traversal of a ray from world point `(px, py)` along `(dx, dy)` over the grid of `m`.
pub open spec fn ray_start(m: MapModel, px: int, py: int, dx: int, dy: int) -> Ray {
    let rx = px - m.x;
    let ry = py - m.y;
    let s = m.tile_size as int;
    Ray {
        cx: rx / s,
        cy: ry / s,
        sx: if dx < 0 { -1 } else { 1 },
        sy: if dy < 0 { -1 } else { 1 },
        fx: if dx < 0 { rx % s } else { s - rx % s },
        fy: if dy < 0 { ry % s } else { s - ry % s },
        size: s,
        adx: abs(dx),
        ady: abs(dy),
    }
}

impl Ray {
    /// After `a` vertical and `b` horizontal grid lines, the next vertical line is
    /// strictly nearer than the next horizontal one. The distances compared are
    /// `(fx + a * size) / adx` and `(fy + b * size) / ady`, cross-multiplied; an axis
    /// the ray does not move along is never nearer.
    pub open spec fn x_first(self, a: int, b: int) -> bool {
        (self.fx + a * self.size) * self.ady < (self.fy + b * self.size) * self.adx
    }

    /// How many vertical and horizontal grid lines the first `k` steps cross.
    pub open spec fn crossings(self, k: nat) -> (int, int)
        decreases k,
    {
        if k == 0 {
            (0, 0)
        } else {
            let p = self.crossings((k - 1) as nat);
            if self.x_first(p.0, p.1) {
                (p.0 + 1, p.1)
            } else {
                (p.0, p.1 + 1)
            }
        }
    }

    /// The cell reached after `k` steps.
    pub open spec fn cell(self, k: nat) -> (int, int) {
        let p = self.crossings(k);
        (self.cx + self.sx * p.0, self.cy + self.sy * p.1)
    }

    /// Whether step `k` (from 1) crosses a horizontal grid line.
    pub open spec fn side(self, k: nat) -> bool {
        let p = self.crossings((k - 1) as nat);
        !self.x_first(p.0, p.1)
    }

    /// The distance to the grid line that step `k` (from 1) crosses, as a
    /// fraction of the direction's length.
    pub open spec fn length(self, k: nat) -> (int, int) {
        let p = self.crossings((k - 1) as nat);
        if self.x_first(p.0, p.1) {
            (self.fx + p.0 * self.size, self.adx)
        } else {
            (self.fy + p.1 * self.size, self.ady)
        }
    }

    /// Step `k` leaves the grid or enters a wall.
    pub open spec fn stops(self, m: MapModel, k: nat) -> bool {
        let c = self.cell(k);
        !m.inside(c.0, c.1) || m.tile(c.0, c.1) == WALL
    }

    /// Step `k` is the first step that stops the ray.
    pub open spec fn first_stop(self, m: MapModel, k: nat) -> bool {
        &&& k >= 1
        &&& self.stops(m, k)
        &&& forall|j: nat| 1 <= j < k ==> !self.stops(m, j)
    }

    /// The result of a traversal that stops at step `k`.
    pub open spec fn outcome(self, m: MapModel, k: nat) -> RayCastResult {
        let c = self.cell(k);
        if m.inside(c.0, c.1) {
            RayCastResult::Hit(
                RayLength { num: self.length(k).0 as u128, den: self.length(k).1 as u128 },
                Vector { x: c.0 as usize, y: c.1 as usize },
                self.side(k),
            )
        } else {
            RayCastResult::NoHit
        }
    }
}

impl Player {
    /// The facing angle lies in `(-HALF_TURN, HALF_TURN]`.
    pub open spec fn wf(&self) -> bool {
        -HALF_TURN < self@.angle <= HALF_TURN
    }
}

/// Brings `a` back into `(-HALF_TURN, HALF_TURN]` by one full turn at most.
pub open spec fn wrap_angle(a: int) -> int {
    if a > HALF_TURN {
        a - TURN
    } else if a <= -HALF_TURN {
        a + TURN
    } else {
        a
    }
}

/// The target `(nx, ny)` of a move pushed out by the player's radius on each axis.
pub open spec fn probe(p: PlayerModel, nx: int, ny: int, rev: bool) -> (int, int) {
    (
        if rev != (abs(p.angle) < QUARTER_TURN) {
            nx + PLAYER_RADIUS
        } else {
            nx - PLAYER_RADIUS
        },
        if rev != (p.angle > 0) {
            ny + PLAYER_RADIUS
        } else {
            ny - PLAYER_RADIUS
        },
    )
}

/// Where a move of player `p` towards `(nx, ny)` ends on map `m`; `rev` marks a
/// backward move.
///
/// The probe point is the target pushed out by the player's radius on each axis,
/// outwards along the facing direction's quadrant (inwards for a backward move).
/// Each axis takes its target value unless the cell reached by moving the probe on
/// that axis alone is a wall; off the grid nothing moves.
pub open spec fn collide(m: MapModel, p: PlayerModel, nx: int, ny: int, rev: bool) -> (int, int) {
    let q = probe(p, nx, ny, rev);
    match (m.cell_of(p.x, p.y), m.cell_of(q.0, q.1)) {
        (Some(c), Some(n)) => (
            if m.tile(n.0, c.1) != WALL { nx } else { p.x },
            if m.tile(c.0, n.1) != WALL { ny } else { p.y },
        ),
        _ => (p.x, p.y),
    }
}

/// A ray along the X axis crosses vertical grid lines only.
proof fn lemma_crossings_along_x(r: Ray, k: nat)
    requires
        r.ady == 0,
        r.adx > 0,
        r.fy > 0,
    ensures
        r.crossings(k) == (k as int, 0int),
    decreases k,
{
    if k > 0 {
        lemma_crossings_along_x(r, (k - 1) as nat);
        let a = k - 1;
        assert(r.x_first(a, 0)) by (nonlinear_arith)
            requires
                r.ady == 0,
                r.adx > 0,
                r.fy > 0,
        ;
    }
}

/// A ray along the Y axis crosses horizontal grid lines only.
proof fn lemma_crossings_along_y(r: Ray, k: nat)
    requires
        r.adx == 0,
        r.ady > 0,
        r.fx >= 0,
    ensures
        r.crossings(k) == (0int, k as int),
    decreases k,
{
    if k > 0 {
        lemma_crossings_along_y(r, (k - 1) as nat);
        let b = k - 1;
        assert(!r.x_first(0, b)) by (nonlinear_arith)
            requires
                r.adx == 0,
                r.ady > 0,
                r.fx >= 0,
        ;
    }
}

/// A grid of at least 3 by 3 cells whose border cells, and only those, are walls.
pub open spec fn is_ring(m: MapModel) -> bool {
    &&& m.width >= 3
    &&& m.height >= 3
    &&& m.tile_size > 0
    &&& m.tiles.len() == m.width * m.height
    &&& forall|x: int, y: int|
        #![trigger m.tile(x, y)]
        m.inside(x, y) ==> (m.tile(x, y) == WALL <==> (x == 0 || y == 0 || x == m.width - 1 || y == m.height
            - 1))
}

/// The cell holding the middle of a span of `n >= 3` tiles of size `s` lies
/// strictly inside the span, and the middle's offset within it is its remainder.
proof fn lemma_middle_cell(n: int, s: int, mid: int)
    requires
        n >= 3,
        s > 0,
        2 * mid == n * s,
    ensures
        1 <= mid / s <= n - 2,
        mid == s * (mid / s) + mid % s,
        0 <= mid % s < s,
{
    vstd::arithmetic::div_mod::lemma_fundamental_div_mod(mid, s);
    let c = mid / s;
    let r = mid % s;
    assert(1 <= c <= n - 2) by (nonlinear_arith)
        requires
            n >= 3,
            s > 0,
            2 * mid == n * s,
            mid == s * c + r,
            0 <= r < s,
    ;
}

/// A ray cast from the middle of a ring map straight along an axis stops at the
/// border wall it faces, at half the span of the open interior along that axis;
/// the side flag is set exactly for a ray along the Y axis.
pub proof fn lemma_ring_hit(m: MapModel, px: int, py: int, dx: int, dy: int, k: nat)
    requires
        is_ring(m),
        2 * (px - m.x) == m.width * m.tile_size,
        2 * (py - m.y) == m.height * m.tile_size,
        (dx == 0) != (dy == 0),
        ray_start(m, px, py, dx, dy).first_stop(m, k),
    ensures
        ({
            let ray = ray_start(m, px, py, dx, dy);
            let s = m.tile_size as int;
            let w = m.width as int;
            let h = m.height as int;
            ray.outcome(m, k) == if dy == 0 {
                RayCastResult::Hit(
                    RayLength { num: ((w - 2) * s / 2) as u128, den: abs(dx) as u128 },
                    Vector { x: (if dx > 0 { w - 1 } else { 0 }) as usize, y: ray.cy as usize },
                    false,
                )
            } else {
                RayCastResult::Hit(
                    RayLength { num: ((h - 2) * s / 2) as u128, den: abs(dy) as u128 },
                    Vector { x: ray.cx as usize, y: (if dy > 0 { h - 1 } else { 0 }) as usize },
                    true,
                )
            }
        }),
{
    let ray = ray_start(m, px, py, dx, dy);
    let s = m.tile_size as int;
    let w = m.width as int;
    let h = m.height as int;
    let rx = px - m.x;
    let ry = py - m.y;
    lemma_middle_cell(w, s, rx);
    lemma_middle_cell(h, s, ry);
    let cx = ray.cx;
    let cy = ray.cy;
    let kstar: int = if dy == 0 {
        if dx > 0 { w - 1 - cx } else { cx }
    } else {
        if dy > 0 { h - 1 - cy } else { cy }
    };
    assert(kstar >= 1);
    // the cell after `j` steps, for `1 <= j <= kstar`
    assert forall|j: nat| 1 <= j <= kstar implies #[trigger] ray.cell(j) == if dy == 0 {
        (cx + ray.sx * j, cy)
    } else {
        (cx, cy + ray.sy * j)
    } by {
        if dy == 0 {
            lemma_crossings_along_x(ray, j);
        } else {
            lemma_crossings_along_y(ray, j);
        }
    }
    let last: (int, int) = if dy == 0 {
        (if dx > 0 { w - 1 } else { 0 }, cy)
    } else {
        (cx, if dy > 0 { h - 1 } else { 0 })
    };
    assert(ray.sx * kstar == if dx < 0 { -kstar } else { kstar });
    assert(ray.sy * kstar == if dy < 0 { -kstar } else { kstar });
    assert(ray.cell(kstar as nat) == last);
    assert(m.inside(last.0, last.1));
    assert(m.tile(last.0, last.1) == WALL);
    assert(ray.stops(m, kstar as nat));
    if k < kstar {
        assert(ray.sx * k == if dx < 0 { -k } else { k as int });
        assert(ray.sy * k == if dy < 0 { -k } else { k as int });
        assert(!ray.stops(m, k));
    }
    if k > kstar {
        assert(!ray.stops(m, kstar as nat));
    }
    assert(k == kstar);
    let p = ray.crossings((k - 1) as nat);
    if dy == 0 {
        lemma_crossings_along_x(ray, (k - 1) as nat);
        assert(ray.x_first(p.0, p.1)) by (nonlinear_arith)
            requires
                ray.ady == 0,
                ray.adx > 0,
                ray.fy > 0,
                p.1 == 0,
        ;
        let num = ray.fx + p.0 * s;
        if dx > 0 {
            assert(2 * num == (w - 2) * s) by (nonlinear_arith)
                requires
                    num == ray.fx + p.0 * s,
                    ray.fx == s - rx % s,
                    rx == s * cx + rx % s,
                    p.0 == w - 2 - cx,
                    2 * rx == w * s,
            ;
        } else {
            assert(2 * num == (w - 2) * s) by (nonlinear_arith)
                requires
                    num == ray.fx + p.0 * s,
                    ray.fx == rx % s,
                    rx == s * cx + rx % s,
                    p.0 == cx - 1,
                    2 * rx == w * s,
            ;
        }
        assert(ray.length(k).0 == (w - 2) * s / 2);
    } else {
        lemma_crossings_along_y(ray, (k - 1) as nat);
        assert(!ray.x_first(p.0, p.1)) by (nonlinear_arith)
            requires
                ray.adx == 0,
                ray.ady > 0,
                ray.fx >= 0,
                p.0 == 0,
        ;
        let num = ray.fy + p.1 * s;
        if dy > 0 {
            assert(2 * num == (h - 2) * s) by (nonlinear_arith)
                requires
                    num == ray.fy + p.1 * s,
                    ray.fy == s - ry % s,
                    ry == s * cy + ry % s,
                    p.1 == h - 2 - cy,
                    2 * ry == h * s,
            ;
        } else {
            assert(2 * num == (h - 2) * s) by (nonlinear_arith)
                requires
                    num == ray.fy + p.1 * s,
                    ray.fy == ry % s,
                    ry == s * cy + ry % s,
                    p.1 == cy - 1,
                    2 * ry == h * s,
            ;
        }
        assert(ray.length(k).0 == (h - 2) * s / 2);
    }
}

/// A move whose probe meets a wall when moved on the X axis alone, and none on
/// the Y axis alone, keeps the old X and takes the new Y: the player slides along
/// the wall.
pub proof fn lemma_wall_slide(m: MapModel, p: PlayerModel, nx: int, ny: int, rev: bool)
    requires
        ({
            let q = probe(p, nx, ny, rev);
            &&& m.cell_of(p.x, p.y) matches Some(c)
            &&& m.cell_of(q.0, q.1) matches Some(n)
            &&& m.tile(n.0, c.1) == WALL
            &&& m.tile(c.0, n.1) != WALL
        }),
    ensures
        collide(m, p, nx, ny, rev) == (p.x, ny),
{
}

/// A move whose probe meets a wall on both axes leaves the player where it was.
pub proof fn lemma_boxed_in(m: MapModel, p: PlayerModel, nx: int, ny: int, rev: bool)
    requires
        ({
            let q = probe(p, nx, ny, rev);
            &&& m.cell_of(p.x, p.y) matches Some(c)
            &&& m.cell_of(q.0, q.1) matches Some(n)
            &&& m.tile(n.0, c.1) == WALL
            &&& m.tile(c.0, n.1) == WALL
        }),
    ensures
        collide(m, p, nx, ny, rev) == (p.x, p.y),
{
}

/// The angle reached from `a` by turning by each of `ds` in order.
pub open spec fn rotate_all(a: int, ds: Seq<int>) -> int
    decreases ds.len(),
{
    if ds.len() == 0 {
        a
    } else {
        rotate_all(wrap_angle(a + ds[0]), ds.drop_first())
    }
}

pub open spec fn sum(ds: Seq<int>) -> int
    decreases ds.len(),
{
    if ds.len() == 0 {
        0
    } else {
        ds[0] + sum(ds.drop_first())
    }
}

proof fn lemma_rotate_all_congruent(a: int, ds: Seq<int>)
    requires
        -HALF_TURN < a <= HALF_TURN,
        forall|i: int| 0 <= i < ds.len() ==> -TURN < #[trigger] ds[i] < TURN,
    ensures
        -HALF_TURN < rotate_all(a, ds) <= HALF_TURN,
        (rotate_all(a, ds) - a - sum(ds)) % (TURN as int) == 0,
    decreases ds.len(),
{
    if ds.len() > 0 {
        let a1 = wrap_angle(a + ds[0]);
        let rest = ds.drop_first();
        assert forall|i: int| 0 <= i < rest.len() implies -TURN < #[trigger] rest[i] < TURN by {
            assert(rest[i] == ds[i + 1]);
        }
        lemma_rotate_all_congruent(a1, rest);
        let r = rotate_all(a1, rest);
        assert((r - a1 - sum(rest)) % (TURN as int) == 0);
        assert(a1 - a - ds[0] == 0 || a1 - a - ds[0] == TURN || a1 - a - ds[0] == -TURN);
        vstd::arithmetic::div_mod::lemma_fundamental_div_mod(r - a1 - sum(rest), TURN as int);
        let q = (r - a1 - sum(rest)) / (TURN as int);
        let e = (a1 - a - ds[0]) / (TURN as int);
        assert(r - a - sum(ds) == (q + e) * TURN) by (nonlinear_arith)
            requires
                r - a1 - sum(rest) == q * TURN,
                a1 - a - ds[0] == e * TURN,
                sum(ds) == ds[0] + sum(rest),
        ;
        vstd::arithmetic::div_mod::lemma_mod_multiples_basic(q + e, TURN as int);
    }
}

/// Turning by steps of less than a full turn each that add up to whole turns
/// brings the player back to the angle it started from.
pub proof fn lemma_full_turns(a: int, ds: Seq<int>)
    requires
        -HALF_TURN < a <= HALF_TURN,
        forall|i: int| 0 <= i < ds.len() ==> -TURN < #[trigger] ds[i] < TURN,
        sum(ds) % (TURN as int) == 0,
    ensures
        rotate_all(a, ds) == a,
{
    lemma_rotate_all_congruent(a, ds);
    let r = rotate_all(a, ds);
    vstd::arithmetic::div_mod::lemma_add_mod_noop(r - a - sum(ds), sum(ds), TURN as int);
    assert((r - a) % (TURN as int) == 0);
}

impl Player {
    pub fn new(x: i64, y: i64, angle: i32) -> (p: Player)
        requires
            -HALF_TURN < angle <= HALF_TURN,
        ensures
            p.wf(),
            p@ == (PlayerModel { x: x as int, y: y as int, angle: angle as int }),
    {
        Player { pos: Vector::new(x, y), angle }
    }

    pub fn angle(&self) -> (r: i32)
        ensures
            r == self@.angle,
    {
        self.angle
    }

    pub fn position(&self) -> (r: (i64, i64))
        ensures
            r.0 == self@.x,
            r.1 == self@.y,
    {
        (self.pos.x, self.pos.y)
    }

    /// Turns the player by `angle` binary units, wrapping into `(-HALF_TURN, HALF_TURN]`.
    pub fn rotate(&mut self, angle: i32)
        requires
            old(self).wf(),
            -TURN < angle < TURN,
        ensures
            final(self).wf(),
            final(self)@ == (PlayerModel { angle: wrap_angle(old(self)@.angle + angle), ..old(self)@ }),
    {
        self.angle = self.angle + angle;
        if self.angle > HALF_TURN {
            self.angle = self.angle - TURN;
        }
        if self.angle <= -HALF_TURN {
            self.angle = self.angle + TURN;
        }
    }

    /// Moves the player by `step`, the displacement along its facing direction.
    pub fn move_forward(&mut self, step: Vector<i64>, map: &TileMap)
        requires
            map.wf(),
            i64::MIN + PLAYER_RADIUS <= old(self)@.x + step.x <= i64::MAX - PLAYER_RADIUS,
            i64::MIN + PLAYER_RADIUS <= old(self)@.y + step.y <= i64::MAX - PLAYER_RADIUS,
        ensures
            ({
                let q = collide(map@, old(self)@, old(self)@.x + step.x, old(self)@.y + step.y, false);
                final(self)@ == (PlayerModel { x: q.0, y: q.1, ..old(self)@ })
            }),
    {
        let x = self.pos.x + step.x;
        let y = self.pos.y + step.y;
        self.move_collision_check(x, y, map, false);
    }

    /// Moves the player back by `step`, the displacement along its facing direction.
    pub fn move_backward(&mut self, step: Vector<i64>, map: &TileMap)
        requires
            map.wf(),
            i64::MIN + PLAYER_RADIUS <= old(self)@.x - step.x <= i64::MAX - PLAYER_RADIUS,
            i64::MIN + PLAYER_RADIUS <= old(self)@.y - step.y <= i64::MAX - PLAYER_RADIUS,
        ensures
            ({
                let q = collide(map@, old(self)@, old(self)@.x - step.x, old(self)@.y - step.y, true);
                final(self)@ == (PlayerModel { x: q.0, y: q.1, ..old(self)@ })
            }),
    {
        let x = self.pos.x - step.x;
        let y = self.pos.y - step.y;
        self.move_collision_check(x, y, map, true);
    }

    fn move_collision_check(&mut self, x: i64, y: i64, map: &TileMap, rev: bool)
        requires
            map.wf(),
            i64::MIN + PLAYER_RADIUS <= x <= i64::MAX - PLAYER_RADIUS,
            i64::MIN + PLAYER_RADIUS <= y <= i64::MAX - PLAYER_RADIUS,
        ensures
            ({
                let q = collide(map@, old(self)@, x as int, y as int, rev);
                final(self)@ == (PlayerModel { x: q.0, y: q.1, ..old(self)@ })
            }),
    {
        let map_pos = map.to_map_coordinates(self.pos.x, self.pos.y);
        let facing_right = -QUARTER_TURN < self.angle && self.angle < QUARTER_TURN;
        let x_rad = if rev != facing_right {
            x + PLAYER_RADIUS
        } else {
            x - PLAYER_RADIUS
        };
        let y_rad = if rev != (self.angle > 0) {
            y + PLAYER_RADIUS
        } else {
            y - PLAYER_RADIUS
        };
        let new_map_pos = map.to_map_coordinates(x_rad, y_rad);
        match (map_pos, new_map_pos) {
            (Some(cur), Some(next)) => {
                if map.tile_at(next.0, cur.1) != WALL {
                    self.pos.x = x;
                }
                if map.tile_at(cur.0, next.1) != WALL {
                    self.pos.y = y;
                }
            },
            _ => {},
        }
    }

    /// Casts a ray from the player's position along `direction` and reports the
    /// first wall it meets, or `NoHit` when it leaves the grid first or starts off it.
    pub fn raycast(&self, map: &TileMap, direction: Vector<i32>) -> (r: RayCastResult)
        requires
            map.wf(),
            direction.x != 0 || direction.y != 0,
        ensures
            match map@.cell_of(self@.x, self@.y) {
                None => r is NoHit,
                Some(_) => {
                    let ray = ray_start(map@, self@.x, self@.y, direction.x as int, direction.y as int);
                    exists|k: nat| #[trigger] ray.first_stop(map@, k) && r == ray.outcome(map@, k)
                },
            },
    {
        let start = map.to_map_coordinates(self.pos.x, self.pos.y);
        if start.is_none() {
            return RayCastResult::NoHit;
        }
        let ghost m = map@;
        let ghost ray = ray_start(m, self.pos.x as int, self.pos.y as int, direction.x as int, direction.y as int);
        let width = map.get_width() as i128;
        let height = map.get_height() as i128;
        let size = map.get_tile_size() as i128;
        let origin = map.get_origin();
        let rx: i128 = self.pos.x as i128 - origin.0 as i128;
        let ry: i128 = self.pos.y as i128 - origin.1 as i128;
        let dx: i128 = direction.x as i128;
        let dy: i128 = direction.y as i128;
        let adx: i128 = if dx < 0 { -dx } else { dx };
        let ady: i128 = if dy < 0 { -dy } else { dy };
        let sx: i128 = if dx < 0 { -1 } else { 1 };
        let sy: i128 = if dy < 0 { -1 } else { 1 };
        let fx: i128 = if dx < 0 { rx % size } else { size - rx % size };
        let fy: i128 = if dy < 0 { ry % size } else { size - ry % size };
        let mut cx: i128 = rx / size;
        let mut cy: i128 = ry / size;
        // crossings of vertical and horizontal grid lines so far
        let mut a: i128 = 0;
        let mut b: i128 = 0;
        proof {
            assert(0 <= fx <= size);
            assert(0 <= fy <= size);
            assert(size * ady <= 0xffff_ffff * 0x8000_0000) by (nonlinear_arith)
                requires
                    0 <= size <= 0xffff_ffff,
                    0 <= ady <= 0x8000_0000,
            ;
            assert(size * adx <= 0xffff_ffff * 0x8000_0000) by (nonlinear_arith)
                requires
                    0 <= size <= 0xffff_ffff,
                    0 <= adx <= 0x8000_0000,
            ;
            assert(0 <= fx * ady <= size * ady) by (nonlinear_arith)
                requires
                    0 <= fx <= size,
                    0 <= ady,
            ;
            assert(0 <= fy * adx <= size * adx) by (nonlinear_arith)
                requires
                    0 <= fy <= size,
                    0 <= adx,
            ;
        }
        // (fx + a * size) * ady - (fy + b * size) * adx
        let mut diff: i128 = fx * ady - fy * adx;
        let ghost mut k: nat = 0;
        loop
            invariant
                map.wf(),
                m == map@,
                m.cell_of(self@.x, self@.y).is_some(),
                ray == ray_start(m, self.pos.x as int, self.pos.y as int, direction.x as int, direction.y as int),
                width == m.width,
                height == m.height,
                size == m.tile_size,
                width <= 0xffff_ffff_ffff_ffff,
                height <= 0xffff_ffff_ffff_ffff,
                width <= usize::MAX,
                height <= usize::MAX,
                m.inside(ray.cx, ray.cy),
                sx == 1 || sx == -1,
                sy == 1 || sy == -1,
                0 < size <= 0xffff_ffff,
                ray.cx + sx * a == cx,
                ray.cy + sy * b == cy,
                ray.sx == sx,
                ray.sy == sy,
                ray.fx == fx,
                ray.fy == fy,
                ray.size == size,
                ray.adx == adx,
                ray.ady == ady,
                0 <= adx <= 0x8000_0000,
                0 <= ady <= 0x8000_0000,
                0 <= fx <= size,
                0 <= fy <= size,
                size * ady <= 0xffff_ffff * 0x8000_0000,
                size * adx <= 0xffff_ffff * 0x8000_0000,
                ray.crossings(k) == (a as int, b as int),
                diff == (fx + a * size) * ady - (fy + b * size) * adx,
                -(size * adx) <= diff <= size * ady,
                0 <= a < width,
                0 <= b < height,
                m.inside(cx as int, cy as int),
                forall|j: nat| 1 <= j <= k ==> !ray.stops(m, j),
            decreases
                (if sx > 0 { width - cx } else { cx + 1 }) + (if sy > 0 { height - cy } else { cy + 1 }),
        {
            let ghost k0 = k;
            let ghost a0 = a as int;
            let ghost b0 = b as int;
            let x_step = diff < 0;
            proof {
                assert(ray.crossings((k0 + 1) as nat) == if ray.x_first(a as int, b as int) {
                    (a + 1, b as int)
                } else {
                    (a as int, b + 1)
                });
                k = k0 + 1;
            }
            let num: i128;
            let den: i128;
            if x_step {
                proof {
                    assert(a * size <= 0xffff_ffff_ffff_ffff * 0xffff_ffff) by (nonlinear_arith)
                        requires
                            0 <= a < width <= 0xffff_ffff_ffff_ffff,
                            0 <= size <= 0xffff_ffff,
                    ;
                    assert((fx + (a + 1) * size) * ady == (fx + a * size) * ady + size * ady)
                        by (nonlinear_arith);
                }
                assert(sx * (a + 1) == sx * a + sx) by (nonlinear_arith);
                num = fx + a * size;
                den = adx;
                cx = cx + sx;
                a = a + 1;
                diff = diff + size * ady;
            } else {
                proof {
                    assert(b * size <= 0xffff_ffff_ffff_ffff * 0xffff_ffff) by (nonlinear_arith)
                        requires
                            0 <= b < height <= 0xffff_ffff_ffff_ffff,
                            0 <= size <= 0xffff_ffff,
                    ;
                    assert((fy + (b + 1) * size) * adx == (fy + b * size) * adx + size * adx)
                        by (nonlinear_arith);
                }
                assert(sy * (b + 1) == sy * b + sy) by (nonlinear_arith);
                num = fy + b * size;
                den = ady;
                cy = cy + sy;
                b = b + 1;
                diff = diff - size * adx;
            }
            proof {
                assert(ray.crossings(k) == (a as int, b as int));
                assert(ray.cell(k) == (cx as int, cy as int));
            }
            if cx < 0 || cx >= width || cy < 0 || cy >= height {
                proof {
                    assert(ray.stops(m, k));
                    assert(ray.first_stop(m, k));
                }
                return RayCastResult::NoHit;
            }
            let t = map.tile_at(cx as usize, cy as usize);
            if t == WALL {
                proof {
                    assert(ray.first_stop(m, k));
                    assert(0 <= num);
                    assert(ray.crossings((k - 1) as nat) == (a0, b0));
                    assert(ray.length(k) == (num as int, den as int));
                    assert(ray.side(k) == !x_step);
                }
                let hit = RayCastResult::Hit(
                    RayLength { num: num as u128, den: den as u128 },
                    Vector::new(cx as usize, cy as usize),
                    !x_step,
                );
                assert(hit == ray.outcome(m, k));
                return hit;
            }
        }
    }
}

} // verus!
