//! The tower and its bullets.

use vstd::prelude::*;
use crate::arith::{clamp_i64, saturate, sq};
use crate::geometry::{Circle, Point, UNITS_PER_PIXEL, WIN_HEIGHT, WIN_WIDTH};
use crate::events::Event;
use crate::geometry::overlaps;
use crate::heading::{
    lemma_mirror_twice, lemma_step_bounded, lemma_step_is_true_to_a_unit, true_to_a_unit, Heading,
    BULLET_SPEED,
};
use crate::ring::{
    abs, jump, jump_part, jump_part_less_rounding, lemma_jump_keeps_direction,
    lemma_jump_lands_in_ring, lemma_jump_length_is_clamped, lemma_ring_squares,
    lemma_shortened_bounds, lemma_stretched_bounds, TOWER_INNER, TOWER_OUTER,
};

verus! {

/// The time step a fresh bullet is moved by before anyone sees it, in
/// microseconds: a hundredth of a second.
pub const SPAWN_STEP: u32 = 10_000;

/// Something on the playing field that moves with time.
pub trait Actor {
    /// What must hold of an actor for it to be stepped.
    spec fn wf(&self) -> bool;

    /// Moves the actor on by `dt` microseconds.
    fn update(&mut self, dt: u32)
        requires
            old(self).wf(),
        ensures
            final(self).wf(),
    ;
}

/// A bullet: it flies straight, turns back at the edges of the window and
/// never stops.
#[derive(Clone, Copy, Debug, PartialEq, Eq, Structural)]
pub struct Bullet {
    pub position: Point,
    pub heading: Heading,
    pub hitbox: Circle,
}

impl Bullet {
    /// The hitbox sits on the bullet, and the heading points somewhere.
    pub open spec fn valid(self) -> bool {
        &&& self.heading.wf()
        &&& self.hitbox.x == self.position.x
        &&& self.hitbox.y == self.position.y
    }

    /// Whether the bullet is on or beyond the left or right edge.
    pub open spec fn at_side_wall(self) -> bool {
        self.position.x <= 0 || self.position.x >= WIN_WIDTH
    }

    /// Whether the bullet is on or beyond the top or bottom edge.
    pub open spec fn at_end_wall(self) -> bool {
        self.position.y <= 0 || self.position.y >= WIN_HEIGHT
    }

    /// The heading after the walls have been looked at: mirrored about the
    /// vertical axis at a side wall, then about the horizontal axis at the
    /// top or bottom wall. In a corner both happen.
    pub open spec fn bounced(self) -> Heading {
        let h = if self.at_side_wall() { self.heading.mirrored_x() } else { self.heading };
        if self.at_end_wall() { h.mirrored_y() } else { h }
    }

    /// The bullet one time step of `dt` microseconds later: first the walls
    /// turn it, then it moves along its new heading, and the hitbox goes
    /// with it. A coordinate that would leave the range of `i64` stays at
    /// the end of that range.
    pub open spec fn stepped(self, dt: u32) -> Bullet {
        let h = self.bounced();
        let x = clamp_i64(self.position.x + h.step_x(dt));
        let y = clamp_i64(self.position.y + h.step_y(dt));
        Bullet {
            position: Point { x, y },
            heading: h,
            hitbox: Circle { x, y, radius: self.hitbox.radius },
        }
    }

    /// A bullet fired at `pos` along `heading`, as it is when it first
    /// appears: already moved on by [`SPAWN_STEP`].
    pub open spec fn spawned(radius: u64, pos: Point, heading: Heading) -> Bullet {
        (Bullet {
            position: pos,
            heading,
            hitbox: Circle { x: pos.x, y: pos.y, radius },
        }).stepped(SPAWN_STEP)
    }

    /// Whether the bullet is in order: see [`Bullet::valid`].
    pub fn is_valid(&self) -> (ok: bool)
        ensures
            ok == self.valid(),
    {
        self.heading.is_wf() && self.hitbox.x == self.position.x && self.hitbox.y
            == self.position.y
    }

    /// Fires a bullet with a hitbox of the given radius from `pos` along
    /// `heading`.
    pub fn new(radius: u64, pos: Point, heading: Heading) -> (b: Bullet)
        requires
            heading.wf(),
        ensures
            b == Bullet::spawned(radius, pos, heading),
            b.valid(),
    {
        let mut b = Bullet {
            position: pos,
            heading,
            hitbox: Circle::new(pos.x, pos.y, radius),
        };
        b.update(SPAWN_STEP);
        b
    }
}

impl Actor for Bullet {
    open spec fn wf(&self) -> bool {
        self.valid()
    }

    /// Moves the bullet on by `dt` microseconds: see [`Bullet::stepped`].
    fn update(&mut self, dt: u32)
        ensures
            *final(self) == old(self).stepped(dt),
    {
        if self.position.x <= 0 || self.position.x >= WIN_WIDTH {
            self.heading = self.heading.flip_x();
        }
        if self.position.y <= 0 || self.position.y >= WIN_HEIGHT {
            self.heading = self.heading.flip_y();
        }
        let step = self.heading.travel(dt);
        self.position.x = saturate(self.position.x as i128 + step.0);
        self.position.y = saturate(self.position.y as i128 + step.1);
        self.hitbox.x = self.position.x;
        self.hitbox.y = self.position.y;
    }
}

/// Away from the walls a bullet flies straight and at its speed: the
/// heading stays as it is, and along each axis the bullet moves by its
/// step, which is less than a unit away from the share that this part of
/// the heading has of `BULLET_SPEED * dt` by the true length of the
/// heading. A bullet fired inside the window first appears one such step
/// of [`SPAWN_STEP`] from where it was fired.
pub proof fn lemma_bullet_flies_straight(b: Bullet, dt: u32)
    requires
        b.valid(),
        0 < b.position.x < WIN_WIDTH,
        0 < b.position.y < WIN_HEIGHT,
    ensures
        b.stepped(dt).heading == b.heading,
        b.stepped(dt).position.x == b.position.x + b.heading.step_x(dt),
        b.stepped(dt).position.y == b.position.y + b.heading.step_y(dt),
        true_to_a_unit(b.heading.step_x(dt), b.heading.x as int, b.heading.norm_sq(), dt),
        true_to_a_unit(b.heading.step_y(dt), b.heading.y as int, b.heading.norm_sq(), dt),
        Bullet::spawned(b.hitbox.radius, b.position, b.heading) == b.stepped(SPAWN_STEP),
{
    lemma_step_bounded(b.heading, dt);
    lemma_step_is_true_to_a_unit(b.heading, dt);
    assert(BULLET_SPEED * dt <= 85 * 0xffff_ffff) by (nonlinear_arith)
        requires
            BULLET_SPEED == 85,
            dt <= 0xffff_ffff,
    ;
}

/// Half the width of a picture that is `width` pixels wide, in length
/// units: the radius of the hitbox of what the picture shows.
pub fn hitbox_radius(width: u32) -> (radius: u64)
    ensures
        radius * 2 == width * UNITS_PER_PIXEL,
{
    (width as u64) * 500_000
}

/// A wall turns a bullet that flies into it. A bullet on or beyond the left
/// edge that flies left flies right after the step and is no further left
/// than it was; the same holds at the right edge, and along y at the top and
/// bottom edges.
pub proof fn lemma_wall_turns_bullet_back(b: Bullet, dt: u32)
    requires
        b.valid(),
    ensures
        b.position.x <= 0 && b.heading.x < 0 ==> {
            &&& b.stepped(dt).heading.x == -b.heading.x
            &&& b.stepped(dt).position.x >= b.position.x
        },
        b.position.x >= WIN_WIDTH && b.heading.x > 0 ==> {
            &&& b.stepped(dt).heading.x == -b.heading.x
            &&& b.stepped(dt).position.x <= b.position.x
        },
        b.position.y <= 0 && b.heading.y < 0 ==> {
            &&& b.stepped(dt).heading.y == -b.heading.y
            &&& b.stepped(dt).position.y >= b.position.y
        },
        b.position.y >= WIN_HEIGHT && b.heading.y > 0 ==> {
            &&& b.stepped(dt).heading.y == -b.heading.y
            &&& b.stepped(dt).position.y <= b.position.y
        },
        !b.at_side_wall() ==> b.stepped(dt).heading.x == b.heading.x,
        !b.at_end_wall() ==> b.stepped(dt).heading.y == b.heading.y,
{
    let h = b.bounced();
    lemma_mirror_twice(b.heading);
    lemma_mirror_twice(b.heading.mirrored_x());
    lemma_step_bounded(h, dt);
}

/// No coordinate of the tower ever gets further from zero than this: the
/// furthest place a pointer can report, and the inner radius beyond it.
pub const TOWER_REACH: i64 = 2_147_483_748_000_000;

/// The place of the pixel `(x, y)`, in units.
pub open spec fn pixel_point(x: i32, y: i32) -> Point {
    Point { x: (x * UNITS_PER_PIXEL) as i64, y: (y * UNITS_PER_PIXEL) as i64 }
}

/// The tower: it jumps when the pointer is pressed, fires a bullet with
/// every jump, and dies when one of its bullets touches it.
#[derive(Debug)]
pub struct Tower {
    pub position: Point,
    pub aim: Heading,
    pub hitbox: Circle,
    /// The bullets in flight, in the order they were fired.
    pub bullets: Vec<Bullet>,
    /// The radius of the hitbox of each bullet that will be fired.
    pub bullet_radius: u64,
    pub dead: bool,
}

/// What a tower is, with its bullets as a sequence.
pub struct TowerModel {
    pub position: Point,
    pub aim: Heading,
    pub hitbox: Circle,
    pub bullets: Seq<Bullet>,
    pub bullet_radius: u64,
    pub dead: bool,
}

impl View for Tower {
    type V = TowerModel;

    open spec fn view(&self) -> TowerModel {
        TowerModel {
            position: self.position,
            aim: self.aim,
            hitbox: self.hitbox,
            bullets: self.bullets@,
            bullet_radius: self.bullet_radius,
            dead: self.dead,
        }
    }
}

impl TowerModel {
    /// The aim points somewhere, the tower is within reach, and every
    /// bullet is in order.
    pub open spec fn valid(self) -> bool {
        &&& self.aim.wf()
        &&& -TOWER_REACH <= self.position.x <= TOWER_REACH
        &&& -TOWER_REACH <= self.position.y <= TOWER_REACH
        &&& forall|i: int| 0 <= i < self.bullets.len() ==> (#[trigger] self.bullets[i]).valid()
    }

    /// A tower in the middle of the window, aiming along +x, alive and with
    /// no bullet fired.
    pub open spec fn fresh(radius: u64, bullet_radius: u64) -> TowerModel {
        TowerModel {
            position: Point { x: 500_000_000, y: 300_000_000 },
            aim: Heading { x: 1, y: 0 },
            hitbox: Circle { x: 500_000_000, y: 300_000_000, radius },
            bullets: Seq::empty(),
            bullet_radius,
            dead: false,
        }
    }

    /// The way from the tower to the pixel column `x`, along x.
    pub open spec fn way_x(self, x: i32) -> int {
        x * UNITS_PER_PIXEL - self.position.x
    }

    /// The way from the tower to the pixel row `y`, along y.
    pub open spec fn way_y(self, y: i32) -> int {
        y * UNITS_PER_PIXEL - self.position.y
    }

    /// The squared distance from the tower to the pixel `(x, y)`.
    pub open spec fn way_sq(self, x: i32, y: i32) -> nat {
        (sq(self.way_x(x)) + sq(self.way_y(y))) as nat
    }

    /// Where a press at the pixel `(x, y)` takes the tower.
    pub open spec fn landing(self, x: i32, y: i32) -> Point {
        let n = self.way_sq(x, y);
        Point {
            x: (self.position.x + jump_part(self.way_x(x), n)) as i64,
            y: (self.position.y + jump_part(self.way_y(y), n)) as i64,
        }
    }

    /// Whether `evt` makes the tower jump and fire: a press of the pointer
    /// anywhere but right on the tower.
    pub open spec fn fires_on(self, evt: Event) -> bool {
        match evt {
            Event::MouseButtonPressed { x, y } => self.way_sq(x, y) != 0,
            _ => false,
        }
    }

    /// The tower after the input event `evt`.
    ///
    /// A press of the pointer away from the tower makes it jump towards the
    /// pointer, into the ring around where it stood, and then fire one
    /// bullet from where it has landed, along its aim. A press right on
    /// the tower does nothing. A move of the pointer turns the aim towards
    /// it. Nothing else has any effect, and no event moves the hitbox or
    /// touches `dead`.
    pub open spec fn after_event(self, evt: Event) -> TowerModel {
        match evt {
            Event::MouseButtonPressed { x, y } => if self.way_sq(x, y) == 0 {
                self
            } else {
                TowerModel {
                    position: self.landing(x, y),
                    bullets: self.bullets.push(
                        Bullet::spawned(self.bullet_radius, self.landing(x, y), self.aim),
                    ),
                    ..self
                }
            },
            Event::MouseMoved { x, y } => TowerModel {
                aim: Heading::pointing(self.way_x(x) as i64, self.way_y(y) as i64),
                ..self
            },
            _ => self,
        }
    }

    /// The hitbox, brought to where the tower stands.
    pub open spec fn synced_hitbox(self) -> Circle {
        Circle { x: self.position.x, y: self.position.y, radius: self.hitbox.radius }
    }

    /// The bullets one time step of `dt` microseconds later.
    pub open spec fn stepped_bullets(self, dt: u32) -> Seq<Bullet> {
        Seq::new(self.bullets.len(), |i: int| self.bullets[i].stepped(dt))
    }

    /// Whether one of `bullets` overlaps the hitbox of the tower where the
    /// tower stands.
    pub open spec fn hit_by(self, bullets: Seq<Bullet>) -> bool {
        exists|i: int|
            0 <= i < bullets.len() && overlaps((#[trigger] bullets[i]).hitbox, self.synced_hitbox())
    }

    /// The tower one time step of `dt` microseconds later.
    ///
    /// The hitbox is brought to where the tower stands. Every bullet is
    /// stepped, whether or not an earlier one has hit. The tower is dead
    /// if it was, or if one of the bullets now overlaps its hitbox.
    pub open spec fn after_step(self, dt: u32) -> TowerModel {
        TowerModel {
            hitbox: self.synced_hitbox(),
            bullets: self.stepped_bullets(dt),
            dead: self.dead || self.hit_by(self.stepped_bullets(dt)),
            ..self
        }
    }
}

impl Tower {
    /// A tower in the middle of the window, aiming along +x, alive and with
    /// no bullet fired. `radius` is that of its own hitbox, `bullet_radius`
    /// that of each bullet it will fire.
    pub fn new(radius: u64, bullet_radius: u64) -> (t: Tower)
        ensures
            t@ == TowerModel::fresh(radius, bullet_radius),
            t@.valid(),
    {
        let position = Point { x: WIN_WIDTH / 2, y: WIN_HEIGHT / 2 };
        Tower {
            position,
            aim: Heading::east(),
            hitbox: Circle::new(position.x, position.y, radius),
            bullets: Vec::new(),
            bullet_radius,
            dead: false,
        }
    }

    /// Whether the tower is in order: see [`TowerModel::valid`].
    pub fn is_valid(&self) -> (ok: bool)
        ensures
            ok == self@.valid(),
    {
        if !self.aim.is_wf() {
            return false;
        }
        if self.position.x < -TOWER_REACH || self.position.x > TOWER_REACH {
            return false;
        }
        if self.position.y < -TOWER_REACH || self.position.y > TOWER_REACH {
            return false;
        }
        let n: usize = self.bullets.len();
        let mut i: usize = 0;
        while i < n
            invariant
                i <= n,
                n == self.bullets@.len(),
                forall|j: int| 0 <= j < i ==> (#[trigger] self.bullets@[j]).valid(),
            decreases n - i,
        {
            if !self.bullets[i].is_valid() {
                assert(!self@.bullets[i as int].valid());
                return false;
            }
            i = i + 1;
        }
        assert forall|j: int| 0 <= j < self@.bullets.len() implies (#[trigger] self@.bullets[j]).valid() by {
            assert(self.bullets@[j].valid());
        }
        true
    }

    /// How many bullets are in flight.
    pub fn num_bullets(&self) -> (n: usize)
        ensures
            n == self@.bullets.len(),
    {
        self.bullets.len()
    }

    /// Reacts to one input event: see [`TowerModel::after_event`]. A jump
    /// adds one bullet; nothing else changes how many there are.
    pub fn events(&mut self, evt: Event)
        requires
            old(self)@.valid(),
        ensures
            final(self)@ == old(self)@.after_event(evt),
            final(self)@.valid(),
            final(self)@.bullets.len() == old(self)@.bullets.len() + if old(self)@.fires_on(evt) {
                1nat
            } else {
                0nat
            },
    {
        match evt {
            Event::MouseButtonPressed { x, y } => {
                let vx: i64 = (x as i64) * UNITS_PER_PIXEL - self.position.x;
                let vy: i64 = (y as i64) * UNITS_PER_PIXEL - self.position.y;
                proof {
                    lemma_landing_within_reach(self@, x, y);
                }
                if vx != 0 || vy != 0 {
                    let d = jump(vx, vy);
                    self.position.x = self.position.x + d.0;
                    self.position.y = self.position.y + d.1;
                    let b = Bullet::new(self.bullet_radius, self.position, self.aim);
                    self.bullets.push(b);
                } else {
                    assert(sq(0) + sq(0) == 0);
                }
            },
            Event::MouseMoved { x, y } => {
                let vx: i64 = (x as i64) * UNITS_PER_PIXEL - self.position.x;
                let vy: i64 = (y as i64) * UNITS_PER_PIXEL - self.position.y;
                self.aim = Heading::toward(vx, vy);
            },
            _ => {},
        }
    }
}

/// Wherever the pointer is pressed, the tower stays within reach: it lands
/// on the pointer, or between where it stood and the pointer, or no more
/// than the inner radius beyond the pointer.
pub proof fn lemma_landing_within_reach(t: TowerModel, x: i32, y: i32)
    requires
        -TOWER_REACH <= t.position.x <= TOWER_REACH,
        -TOWER_REACH <= t.position.y <= TOWER_REACH,
    ensures
        -TOWER_REACH <= t.position.x + jump_part(t.way_x(x), t.way_sq(x, y)) <= TOWER_REACH,
        -TOWER_REACH <= t.position.y + jump_part(t.way_y(y), t.way_sq(x, y)) <= TOWER_REACH,
        t.way_sq(x, y) == 0 <==> t.way_x(x) == 0 && t.way_y(y) == 0,
{
    let vx = t.way_x(x);
    let vy = t.way_y(y);
    let n = t.way_sq(x, y);
    assert(vx * vx >= 0 && vy * vy >= 0 && (vx != 0 ==> vx * vx > 0) && (vy != 0 ==> vy * vy > 0))
        by (nonlinear_arith);
    lemma_ring_squares();
    if n != 0 {
        if n < TOWER_INNER * TOWER_INNER {
            lemma_stretched_bounds(vx, n);
            lemma_stretched_bounds(vy, n);
        } else if n > TOWER_OUTER * TOWER_OUTER {
            lemma_shortened_bounds(vx, n);
            lemma_shortened_bounds(vy, n);
        }
    }
}

impl Actor for Tower {
    open spec fn wf(&self) -> bool {
        self@.valid()
    }

    /// Moves every bullet on by `dt` microseconds and looks whether one of
    /// them now touches the tower: see [`TowerModel::after_step`]. A tower
    /// that is dead stays dead.
    fn update(&mut self, dt: u32)
        ensures
            final(self)@ == old(self)@.after_step(dt),
            old(self)@.dead ==> final(self)@.dead,
    {
        self.hitbox.x = self.position.x;
        self.hitbox.y = self.position.y;
        let ghost before = self@;
        let n: usize = self.bullets.len();
        let mut hit: bool = false;
        let mut i: usize = 0;
        proof {
            assert forall|j: int| 0 <= j < n implies (#[trigger] self.bullets@[j]).valid() by {
                assert(old(self)@.bullets[j].valid());
            }
            assert forall|j: int| 0 <= j < before.bullets.len() implies (
            #[trigger] before.bullets[j]).valid() by {
                assert(old(self)@.bullets[j].valid());
            }
        }
        while i < n
            invariant
                i <= n,
                n == self.bullets@.len(),
                n == before.bullets.len(),
                self.position == before.position,
                self.aim == before.aim,
                self.hitbox == before.hitbox,
                self.bullet_radius == before.bullet_radius,
                self.dead == before.dead,
                before.valid(),
                forall|j: int| 0 <= j < i ==> self.bullets@[j] == before.bullets[j].stepped(dt),
                forall|j: int| i <= j < n ==> self.bullets@[j] == before.bullets[j],
                forall|j: int| 0 <= j < n ==> (#[trigger] self.bullets@[j]).valid(),
                hit == exists|j: int|
                    0 <= j < i && overlaps(
                        (#[trigger] before.bullets[j]).stepped(dt).hitbox,
                        before.hitbox,
                    ),
            decreases n - i,
        {
            let mut b: Bullet = self.bullets[i];
            b.update(dt);
            assert(b == before.bullets[i as int].stepped(dt));
            if b.hitbox.is_colliding(&self.hitbox) {
                hit = true;
            }
            self.bullets.set(i, b);
            i = i + 1;
        }
        proof {
            let after = before.stepped_bullets(dt);
            assert(self.bullets@ =~= after);
            assert(before.synced_hitbox() == before.hitbox);
            assert(hit == before.hit_by(after)) by {
                if hit {
                    let j = choose|j: int|
                        0 <= j < n && overlaps(
                            (#[trigger] before.bullets[j]).stepped(dt).hitbox,
                            before.hitbox,
                        );
                    assert(after[j] == before.bullets[j].stepped(dt));
                }
                if before.hit_by(after) {
                    let j = choose|j: int|
                        0 <= j < after.len() && overlaps(
                            (#[trigger] after[j]).hitbox,
                            before.synced_hitbox(),
                        );
                    assert(after[j] == before.bullets[j].stepped(dt));
                }
            }
        }
        if hit {
            self.dead = true;
        }
    }
}

/// A press of the pointer anywhere but on the tower lands the tower in the
/// ring around where it stood: between the inner and the outer radius away,
/// less than one unit beside the straight line to the pointer, and on the
/// pointer's side of where it stood. A press inside the ring lands it on
/// the pointer. A press short of the ring lands it on the inner circle, a
/// press beyond the ring on the outer circle, each as near as whole units
/// allow. A press right on the tower leaves it where it is.
pub proof fn lemma_press_lands_in_ring(t: TowerModel, x: i32, y: i32)
    requires
        t.valid(),
    ensures
        t.way_sq(x, y) == 0 ==> t.landing(x, y) == t.position,
        t.way_sq(x, y) != 0 ==> {
            let dx = t.landing(x, y).x - t.position.x;
            let dy = t.landing(x, y).y - t.position.y;
            &&& TOWER_INNER * TOWER_INNER <= sq(dx) + sq(dy) <= TOWER_OUTER * TOWER_OUTER
            &&& sq(dx * t.way_y(y) - dy * t.way_x(x)) < t.way_sq(x, y)
            &&& t.way_x(x) >= 0 ==> dx >= 0
            &&& t.way_x(x) <= 0 ==> dx <= 0
            &&& t.way_y(y) >= 0 ==> dy >= 0
            &&& t.way_y(y) <= 0 ==> dy <= 0
        },
        TOWER_INNER * TOWER_INNER <= t.way_sq(x, y) <= TOWER_OUTER * TOWER_OUTER
            ==> t.landing(x, y) == pixel_point(x, y),
        0 < t.way_sq(x, y) < TOWER_INNER * TOWER_INNER ==> sq(
            jump_part_less_rounding(t.way_x(x), t.way_sq(x, y)),
        ) + sq(jump_part_less_rounding(t.way_y(y), t.way_sq(x, y))) < TOWER_INNER * TOWER_INNER,
        t.way_sq(x, y) > TOWER_OUTER * TOWER_OUTER ==> sq(
            abs(t.landing(x, y).x - t.position.x) + 2,
        ) + sq(abs(t.landing(x, y).y - t.position.y) + 2) > TOWER_OUTER * TOWER_OUTER,
{
    lemma_landing_within_reach(t, x, y);
    if t.way_sq(x, y) != 0 {
        lemma_jump_lands_in_ring(t.way_x(x), t.way_y(y));
        lemma_jump_keeps_direction(t.way_x(x), t.way_y(y));
        lemma_jump_length_is_clamped(t.way_x(x), t.way_y(y));
        let n = t.way_sq(x, y);
        assert(sq(t.way_x(x)) >= 0 && sq(t.way_y(y)) >= 0) by (nonlinear_arith);
        assert(t.landing(x, y).x - t.position.x == jump_part(t.way_x(x), n));
        assert(t.landing(x, y).y - t.position.y == jump_part(t.way_y(y), n));
    }
}

/// Every event that makes the tower jump adds exactly one bullet, fired
/// from where the tower lands; no other event changes the bullets.
pub proof fn lemma_jump_fires_one_bullet(t: TowerModel, evt: Event)
    ensures
        t.fires_on(evt) ==> t.after_event(evt).bullets.len() == t.bullets.len() + 1,
        !t.fires_on(evt) ==> t.after_event(evt).bullets == t.bullets,
        t.after_event(evt).bullets.len() > 0 && t.fires_on(evt) ==> t.after_event(
            evt,
        ).bullets.last() == Bullet::spawned(
            t.bullet_radius,
            t.after_event(evt).position,
            t.aim,
        ),
        t.after_event(evt).dead == t.dead,
{
}

/// Stepping a tower never brings it back to life, and changes neither
/// where it stands nor how many bullets it has.
pub proof fn lemma_step_keeps_the_dead_dead(t: TowerModel, dt: u32)
    ensures
        t.dead ==> t.after_step(dt).dead,
        t.after_step(dt).position == t.position,
        t.after_step(dt).bullets.len() == t.bullets.len(),
{
}

} // verus!
