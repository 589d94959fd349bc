use moving_tower::actors::{hitbox_radius, Actor, Bullet, Tower, TOWER_REACH};
use moving_tower::events::Event;
use moving_tower::geometry::{Circle, Point};
use moving_tower::heading::Heading;
use moving_tower::ring::{jump, TOWER_INNER, TOWER_OUTER};

const TOWER_RADIUS: u64 = 16_000_000;
const BULLET_RADIUS: u64 = 4_000_000;

fn tower() -> Tower {
    Tower::new(TOWER_RADIUS, BULLET_RADIUS)
}

fn press(x: i32, y: i32) -> Event {
    Event::MouseButtonPressed { x, y }
}

fn dist_sq(a: Point, b: Point) -> i128 {
    let dx = (a.x - b.x) as i128;
    let dy = (a.y - b.y) as i128;
    dx * dx + dy * dy
}

#[test]
fn ring_radii() {
    assert_eq!(TOWER_INNER, 100_000_000);
    assert_eq!(TOWER_OUTER, 250_000_000);
    assert_eq!(TOWER_REACH, 2_147_483_648_000_000 + 100_000_000);
}

#[test]
fn new_tower_stands_in_the_middle() {
    let t = tower();
    assert_eq!(t.position, Point { x: 500_000_000, y: 300_000_000 });
    assert_eq!(t.aim, Heading { x: 1, y: 0 });
    assert_eq!(t.hitbox, Circle { x: 500_000_000, y: 300_000_000, radius: TOWER_RADIUS });
    assert_eq!(t.num_bullets(), 0);
    assert_eq!(t.bullet_radius, BULLET_RADIUS);
    assert!(!t.dead);
}

#[test]
fn jump_inside_the_ring_lands_on_the_pointer() {
    assert_eq!(jump(100_000_000, 0), (100_000_000, 0));
    assert_eq!(jump(250_000_000, 0), (250_000_000, 0));
    assert_eq!(jump(-120_000_000, 90_000_000), (-120_000_000, 90_000_000));
    assert_eq!(jump(176_776_695, 176_776_695), (176_776_695, 176_776_695));
}

#[test]
fn jump_beyond_the_ring_is_cut_back_to_the_outer_radius() {
    assert_eq!(jump(500_000_000, 0), (250_000_000, 0));
    assert_eq!(jump(250_000_001, 0), (250_000_000, 0));
    assert_eq!(jump(300_000_000, 400_000_000), (150_000_000, 200_000_000));
    assert_eq!(jump(0, -9_000_000_000_000), (0, -250_000_000));
    assert_eq!(jump(-1_234_567_890, 9_876_543_210), (-31_008_683, 248_069_469));
    assert_eq!(jump(176_776_696, 176_776_696), (176_776_695, 176_776_695));
    assert_eq!(
        jump(2_147_483_648_000_000, -2_147_483_648_000_000),
        (176_776_695, -176_776_695)
    );
}

#[test]
fn jump_short_of_the_ring_is_stretched_to_the_inner_radius() {
    assert_eq!(jump(99_999_999, 0), (100_000_000, 0));
    assert_eq!(jump(-1, 0), (-100_000_000, 0));
    assert_eq!(jump(0, 7), (0, 100_000_000));
    assert_eq!(jump(3_000_000, 4_000_000), (60_000_000, 80_000_000));
    assert_eq!(jump(1_000_000, 1_000_000), (70_710_679, 70_710_679));
    assert_eq!(jump(1_000_000, -2_000_000), (44_721_360, -89_442_720));
}

#[test]
fn jump_to_where_the_tower_stands_goes_nowhere() {
    assert_eq!(jump(0, 0), (0, 0));
}

#[test]
fn jump_at_the_ends_of_the_range() {
    let d = jump(i64::MIN, i64::MAX);
    assert_eq!(d, (-176_776_695, 176_776_695));
    let d = jump(i64::MIN, 0);
    assert_eq!(d, (-250_000_000, 0));
}

#[test]
fn every_jump_lands_in_the_ring() {
    let inner_sq = (TOWER_INNER as i128) * (TOWER_INNER as i128);
    let outer_sq = (TOWER_OUTER as i128) * (TOWER_OUTER as i128);
    let parts: [i64; 13] = [
        0,
        1,
        -1,
        999,
        -70_710_678,
        70_710_679,
        99_999_999,
        -100_000_000,
        176_776_695,
        -250_000_000,
        250_000_001,
        -7_000_000_000,
        4_611_686_018_427_387_904,
    ];
    for vx in parts {
        for vy in parts {
            if vx == 0 && vy == 0 {
                continue;
            }
            let (dx, dy) = jump(vx, vy);
            let len_sq = (dx as i128) * (dx as i128) + (dy as i128) * (dy as i128);
            assert!(len_sq >= inner_sq, "jump({}, {}) is too short", vx, vy);
            assert!(len_sq <= outer_sq, "jump({}, {}) is too long", vx, vy);
            let way_sq = (vx as i128) * (vx as i128) + (vy as i128) * (vy as i128);
            if way_sq < inner_sq {
                // on the inner circle, but for rounding up
                let ex = if vx == 0 { 0 } else { dx.abs() as i128 - 1 };
                let ey = if vy == 0 { 0 } else { dy.abs() as i128 - 1 };
                assert!(ex * ex + ey * ey < inner_sq, "jump({}, {}) overshoots", vx, vy);
            } else if way_sq > outer_sq {
                // on the outer circle, but for rounding down
                let fx = dx.abs() as i128 + 2;
                let fy = dy.abs() as i128 + 2;
                assert!(fx * fx + fy * fy > outer_sq, "jump({}, {}) falls short", vx, vy);
            } else {
                assert_eq!((dx, dy), (vx, vy));
            }
            // same side of the tower as the pointer
            assert!(dx == 0 || (dx > 0) == (vx > 0));
            assert!(dy == 0 || (dy > 0) == (vy > 0));
            // less than one unit beside the straight way: cross² < |v|²
            let cross = (dx as i128) * (vy as i128) - (dy as i128) * (vx as i128);
            let way = isqrt_up((vx as i128) * (vx as i128) + (vy as i128) * (vy as i128));
            assert!(cross.abs() < way, "jump({}, {}) leaves the line", vx, vy);
        }
    }
}

fn isqrt_up(n: i128) -> i128 {
    moving_tower::arith::isqrt_ceil(n as u128) as i128
}

#[test]
fn press_far_away_moves_the_tower_by_the_outer_radius() {
    let mut t = tower();
    // 500 pixels to the right of the middle
    t.events(press(1000, 300));
    assert_eq!(t.position, Point { x: 750_000_000, y: 300_000_000 });
    assert_eq!(t.num_bullets(), 1);
}

#[test]
fn press_in_the_ring_moves_the_tower_to_the_pointer() {
    let mut t = tower();
    t.events(press(380, 390));
    assert_eq!(t.position, Point { x: 380_000_000, y: 390_000_000 });
    assert_eq!(t.num_bullets(), 1);
}

#[test]
fn press_nearby_moves_the_tower_by_the_inner_radius() {
    let mut t = tower();
    t.events(press(503, 304));
    assert_eq!(t.position, Point { x: 560_000_000, y: 380_000_000 });
    let mut t = tower();
    t.events(press(500, 299));
    assert_eq!(t.position, Point { x: 500_000_000, y: 200_000_000 });
}

#[test]
fn press_on_the_tower_does_nothing() {
    let mut t = tower();
    t.events(press(500, 300));
    assert_eq!(t.position, Point { x: 500_000_000, y: 300_000_000 });
    assert_eq!(t.num_bullets(), 0);
    assert!(!t.dead);
}

#[test]
fn every_jump_fires_one_bullet() {
    let mut t = tower();
    let clicks = [(1000, 300), (0, 0), (505, 305), (505, 305), (-4000, 9000), (800, 100)];
    let landings = [
        (750_000_000, 300_000_000),
        (517_880_828, 207_152_332),
        (504_829_266, 306_296_958),
        (517_880_852, 207_152_335),
        (403_626_957, 429_517_007),
        (595_871_501, 269_698_251),
    ];
    for i in 0..clicks.len() {
        let before = t.position;
        let count = t.num_bullets();
        t.events(press(clicks[i].0, clicks[i].1));
        assert_eq!(t.num_bullets(), count + 1);
        assert_eq!(t.position, Point { x: landings[i].0, y: landings[i].1 });
        let moved = dist_sq(t.position, before);
        assert!(moved >= 10_000_000_000_000_000);
        assert!(moved <= 62_500_000_000_000_000);
    }
    assert_eq!(t.num_bullets(), 6);
}

#[test]
fn pressing_where_the_tower_landed_fires_nothing() {
    let mut t = tower();
    t.events(press(600, 300));
    assert_eq!(t.position, Point { x: 600_000_000, y: 300_000_000 });
    assert_eq!(t.num_bullets(), 1);
    t.events(press(600, 300));
    assert_eq!(t.position, Point { x: 600_000_000, y: 300_000_000 });
    assert_eq!(t.num_bullets(), 1);
}

#[test]
fn bullet_is_fired_from_where_the_tower_lands_along_its_aim() {
    let mut t = tower();
    t.events(Event::MouseMoved { x: 500, y: 400 });
    assert_eq!(t.aim, Heading { x: 0, y: 100_000_000 });
    t.events(press(700, 300));
    assert_eq!(t.position, Point { x: 700_000_000, y: 300_000_000 });
    assert_eq!(t.bullets.len(), 1);
    let expected = Bullet::new(
        BULLET_RADIUS,
        Point { x: 700_000_000, y: 300_000_000 },
        Heading { x: 0, y: 100_000_000 },
    );
    assert_eq!(t.bullets[0], expected);
    assert_eq!(t.bullets[0].position, Point { x: 700_000_000, y: 300_850_000 });
    // the aim is not turned by the jump
    assert_eq!(t.aim, Heading { x: 0, y: 100_000_000 });
}

#[test]
fn bullets_keep_the_order_they_were_fired_in() {
    let mut t = tower();
    t.events(press(700, 300));
    t.events(press(700, 500));
    t.events(press(500, 500));
    assert_eq!(t.bullets.len(), 3);
    assert_eq!(t.bullets[0].position, Point { x: 700_850_000, y: 300_000_000 });
    assert_eq!(t.bullets[1].position, Point { x: 700_850_000, y: 500_000_000 });
    assert_eq!(t.bullets[2].position, Point { x: 500_850_000, y: 500_000_000 });
}

#[test]
fn moving_the_pointer_turns_the_aim_only() {
    let mut t = tower();
    t.events(Event::MouseMoved { x: 200, y: 700 });
    assert_eq!(t.aim, Heading { x: -300_000_000, y: 400_000_000 });
    assert_eq!(t.position, Point { x: 500_000_000, y: 300_000_000 });
    assert_eq!(t.num_bullets(), 0);
    // onto the tower itself: zero degrees
    t.events(Event::MouseMoved { x: 500, y: 300 });
    assert_eq!(t.aim, Heading { x: 1, y: 0 });
}

#[test]
fn other_events_leave_the_tower_alone() {
    let mut t = tower();
    t.events(press(700, 300));
    let position = t.position;
    let aim = t.aim;
    for evt in [
        Event::MouseButtonReleased { x: 10, y: 10 },
        Event::Closed,
        Event::EscapePressed,
        Event::Other,
    ] {
        t.events(evt);
        assert_eq!(t.position, position);
        assert_eq!(t.aim, aim);
        assert_eq!(t.num_bullets(), 1);
        assert!(!t.dead);
    }
}

#[test]
fn hitbox_follows_the_tower_on_update() {
    let mut t = Tower::new(TOWER_RADIUS, 0);
    t.events(press(700, 300));
    // not yet: the hitbox is moved by the next step
    assert_eq!(t.hitbox, Circle { x: 500_000_000, y: 300_000_000, radius: TOWER_RADIUS });
    t.update(0);
    assert_eq!(t.hitbox, Circle { x: 700_000_000, y: 300_000_000, radius: TOWER_RADIUS });
}

#[test]
fn update_moves_every_bullet() {
    let mut t = Tower::new(0, 0);
    t.events(press(700, 300));
    t.events(Event::MouseMoved { x: 700, y: 0 });
    t.events(press(800, 300));
    let first = t.bullets[0];
    let second = t.bullets[1];
    t.update(1_000_000);
    let mut moved_first = first;
    moved_first.update(1_000_000);
    let mut moved_second = second;
    moved_second.update(1_000_000);
    assert_eq!(t.bullets[0], moved_first);
    assert_eq!(t.bullets[1], moved_second);
    assert_eq!(t.bullets[0].position, Point { x: 785_850_000, y: 300_000_000 });
    assert_eq!(t.bullets[1].position, Point { x: 800_000_000, y: 214_150_000 });
    // hitboxes without a radius never overlap
    assert!(!t.dead);
}

#[test]
fn a_bullet_that_touches_the_tower_kills_it() {
    let mut t = tower();
    t.bullets.push(Bullet {
        position: Point { x: 600_000_000, y: 300_000_000 },
        heading: Heading { x: -1, y: 0 },
        hitbox: Circle { x: 600_000_000, y: 300_000_000, radius: BULLET_RADIUS },
    });
    // 100 pixels away, 20 pixels of radii: safe until the gap is under 20 pixels
    t.update(900_000);
    assert_eq!(t.bullets[0].position.x, 523_500_000);
    assert!(!t.dead);
    // exactly 20 pixels away: touching is not a hit
    t.bullets[0].position.x = 520_000_000 + 85;
    t.bullets[0].hitbox.x = 520_000_000 + 85;
    t.update(1);
    assert_eq!(t.bullets[0].position.x, 520_000_000);
    assert!(!t.dead);
    // one unit closer
    t.bullets[0].position.x = 520_000_000 + 84;
    t.bullets[0].hitbox.x = 520_000_000 + 84;
    t.update(1);
    assert_eq!(t.bullets[0].position.x, 519_999_999);
    assert!(t.dead);
}

#[test]
fn a_dead_tower_stays_dead_and_its_bullets_fly_on() {
    let mut t = tower();
    t.bullets.push(Bullet {
        position: Point { x: 510_000_000, y: 300_000_000 },
        heading: Heading { x: 1, y: 0 },
        hitbox: Circle { x: 510_000_000, y: 300_000_000, radius: BULLET_RADIUS },
    });
    t.bullets.push(Bullet {
        position: Point { x: 100_000_000, y: 100_000_000 },
        heading: Heading { x: 0, y: 1 },
        hitbox: Circle { x: 100_000_000, y: 100_000_000, radius: BULLET_RADIUS },
    });
    t.update(1_000);
    assert!(t.dead);
    // the bullet after the one that hit was moved all the same
    assert_eq!(t.bullets[1].position, Point { x: 100_000_000, y: 100_085_000 });
    for _ in 0..200 {
        t.update(16_667);
        assert!(t.dead);
    }
    assert!(t.bullets[0].position.x > 700_000_000);
    assert_eq!(t.num_bullets(), 2);
}

#[test]
fn a_bullet_fired_on_the_spot_hits_at_the_next_step() {
    let mut t = tower();
    t.events(press(1000, 300));
    assert!(!t.dead);
    t.update(16_667);
    assert!(t.dead);
}

#[test]
fn the_tower_stays_within_reach() {
    let mut t = tower();
    for _ in 0..4 {
        t.events(press(i32::MAX, i32::MIN));
    }
    assert_eq!(t.position, Point { x: 1_207_106_648, y: -407_106_912 });
    // one unit short of the furthest pointer there is: stretched beyond it
    t.position = Point { x: 2_147_483_646_999_999, y: -2_147_483_648_000_000 };
    t.events(press(i32::MAX, i32::MIN));
    assert_eq!(t.position, Point { x: 2_147_483_746_999_999, y: -2_147_483_648_000_000 });
    t.position = Point { x: 0, y: -2_147_483_647_999_999 };
    t.events(press(0, i32::MIN));
    assert_eq!(t.position, Point { x: 0, y: -2_147_483_747_999_999 });
    assert!(t.position.y >= -TOWER_REACH);
}

#[test]
fn validity_can_be_asked() {
    assert!(Heading { x: 0, y: -1 }.is_wf());
    assert!(!Heading { x: 0, y: 0 }.is_wf());
    assert!(!Heading { x: i64::MIN, y: 3 }.is_wf());
    assert!(!Heading { x: 3, y: i64::MIN }.is_wf());

    let mut t = tower();
    assert!(t.is_valid());
    t.events(press(700, 300));
    t.update(16_667);
    assert!(t.is_valid());

    t.bullets[0].hitbox.x += 1;
    assert!(!t.bullets[0].is_valid());
    assert!(!t.is_valid());
    t.bullets[0].hitbox.x -= 1;
    assert!(t.is_valid());

    t.aim = Heading { x: 0, y: 0 };
    assert!(!t.is_valid());
    t.aim = Heading::east();
    t.position.x = TOWER_REACH + 1;
    assert!(!t.is_valid());
    t.position.x = -TOWER_REACH;
    assert!(t.is_valid());
    t.position.y = -TOWER_REACH - 1;
    assert!(!t.is_valid());
}

/// A small generator of numbers to try, the same ones every time.
fn next(seed: &mut u64) -> i64 {
    *seed = seed.wrapping_mul(6_364_136_223_846_793_005).wrapping_add(1_442_695_040_888_963_407);
    (*seed >> 16) as i64
}

#[test]
fn jump_agrees_with_the_clamped_way_in_floating_point() {
    let mut seed = 7;
    for round in 0..3_000 {
        // ways of very different lengths: a few units up to millions of pixels
        let scale = 10_i64.pow(1 + (round % 12) as u32);
        let vx = next(&mut seed) % scale - scale / 2;
        let vy = next(&mut seed) % scale - scale / 2;
        if vx == 0 && vy == 0 {
            continue;
        }
        let (dx, dy) = jump(vx, vy);
        let len = ((vx as f64) * (vx as f64) + (vy as f64) * (vy as f64)).sqrt();
        let clamped = len.max(TOWER_INNER as f64).min(TOWER_OUTER as f64);
        let ex = vx as f64 / len * clamped;
        let ey = vy as f64 / len * clamped;
        assert!((dx as f64 - ex).abs() < 2.0, "jump({}, {}) = ({}, {}), not ({}, {})", vx, vy, dx, dy, ex, ey);
        assert!((dy as f64 - ey).abs() < 2.0, "jump({}, {}) = ({}, {}), not ({}, {})", vx, vy, dx, dy, ex, ey);
    }
}

#[test]
fn hitbox_radius_is_half_the_width() {
    assert_eq!(hitbox_radius(0), 0);
    assert_eq!(hitbox_radius(1), 500_000);
    assert_eq!(hitbox_radius(32), 16_000_000);
    assert_eq!(hitbox_radius(33), 16_500_000);
    assert_eq!(hitbox_radius(u32::MAX), 2_147_483_647_500_000);
}
