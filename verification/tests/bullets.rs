use moving_tower::actors::{Actor, Bullet, SPAWN_STEP};
use moving_tower::geometry::{Circle, Point, WIN_HEIGHT, WIN_WIDTH};
use moving_tower::heading::{Heading, BULLET_SPEED};

fn bullet_at(x: i64, y: i64, hx: i64, hy: i64) -> Bullet {
    Bullet {
        position: Point { x, y },
        heading: Heading { x: hx, y: hy },
        hitbox: Circle { x, y, radius: 4_000_000 },
    }
}

#[test]
fn heading_east_is_zero_degrees() {
    assert_eq!(Heading::east(), Heading { x: 1, y: 0 });
}

#[test]
fn heading_toward_nowhere_points_east() {
    assert_eq!(Heading::toward(0, 0), Heading { x: 1, y: 0 });
    assert_eq!(Heading::toward(-3, 4), Heading { x: -3, y: 4 });
}

#[test]
fn heading_flips() {
    let h = Heading { x: 3, y: -4 };
    assert_eq!(h.flip_x(), Heading { x: -3, y: -4 });
    assert_eq!(h.flip_y(), Heading { x: 3, y: 4 });
    assert_eq!(h.flip_x().flip_x(), h);
    assert_eq!(h.flip_y().flip_y(), h);
}

#[test]
fn travel_along_an_axis_is_speed_times_time() {
    assert_eq!(BULLET_SPEED, 85);
    let step = Heading { x: 1, y: 0 }.travel(1_000_000);
    assert_eq!(step, (85_000_000, 0));
    let step = Heading { x: 0, y: -7 }.travel(16_667);
    assert_eq!(step, (0, -1_416_695));
}

#[test]
fn travel_splits_the_way_by_the_heading() {
    // a 3-4-5 heading: three fifths along x, four fifths along y
    let step = Heading { x: 3_000_000, y: -4_000_000 }.travel(10_000);
    assert_eq!(step, (510_000, -680_000));
    // a diagonal: 85 * 1000 / sqrt(2), rounded towards zero
    let step = Heading { x: -1_000_000_000, y: 1_000_000_000 }.travel(1_000);
    assert_eq!(step, (-60_104, 60_104));
}

#[test]
fn travel_does_not_depend_on_how_long_the_heading_is() {
    // 45 degrees: 85 / sqrt(2) = 60.104076... pixels a second along each axis
    for scale in [1i64, 2, 3, 1_000, 1_000_000, 123_456_789, 1 << 40, i64::MAX] {
        let step = Heading { x: scale, y: scale }.travel(1_000_000);
        assert_eq!(step, (60_104_076, 60_104_076));
        let step = Heading { x: -scale, y: scale }.travel(16_667);
        assert_eq!(step, (-1_001_754, 1_001_754));
    }
    // a 3-4-5 heading, short and long
    for scale in [1i64, 7, 1_000_000, 1 << 60] {
        let step = Heading { x: 3 * scale, y: -4 * scale }.travel(1_000_000);
        assert_eq!(step, (51_000_000, -68_000_000));
    }
    assert_eq!(Heading { x: 1, y: 2 }.travel(1_000), (38_013, 76_026));
}

#[test]
fn travel_with_the_longest_heading_and_the_longest_step() {
    let step = Heading { x: i64::MAX, y: i64::MAX }.travel(u32::MAX);
    assert_eq!(step, (258_145_042_437, 258_145_042_437));
    let step = Heading { x: 1, y: -i64::MAX }.travel(1_000);
    assert_eq!(step, (0, -85_000));
}

#[test]
fn travel_takes_no_time_to_go_nowhere() {
    assert_eq!(Heading { x: 5, y: 5 }.travel(0), (0, 0));
}

#[test]
fn bullet_flies_straight_inside_the_window() {
    let mut b = bullet_at(500_000_000, 300_000_000, 1, 0);
    b.update(1_000_000);
    assert_eq!(b.position, Point { x: 585_000_000, y: 300_000_000 });
    assert_eq!(b.heading, Heading { x: 1, y: 0 });
    assert_eq!(b.hitbox, Circle { x: 585_000_000, y: 300_000_000, radius: 4_000_000 });
}

#[test]
fn bullet_at_left_edge_moving_left_turns_right() {
    // heading 180 degrees becomes 180 - 180 = 0 degrees
    let mut b = bullet_at(0, 300_000_000, -1, 0);
    b.update(100_000);
    assert_eq!(b.heading, Heading { x: 1, y: 0 });
    assert_eq!(b.position, Point { x: 8_500_000, y: 300_000_000 });
}

#[test]
fn bullet_at_right_edge_moving_right_turns_left() {
    let mut b = bullet_at(WIN_WIDTH, 300_000_000, 1, 0);
    b.update(100_000);
    assert_eq!(b.heading, Heading { x: -1, y: 0 });
    assert_eq!(b.position, Point { x: WIN_WIDTH - 8_500_000, y: 300_000_000 });
}

#[test]
fn bullet_at_top_edge_moving_up_turns_down() {
    // heading -90 degrees becomes 90 degrees
    let mut b = bullet_at(500_000_000, 0, 0, -1);
    b.update(100_000);
    assert_eq!(b.heading, Heading { x: 0, y: 1 });
    assert_eq!(b.position, Point { x: 500_000_000, y: 8_500_000 });
}

#[test]
fn bullet_at_bottom_edge_moving_down_turns_up() {
    let mut b = bullet_at(500_000_000, WIN_HEIGHT, 0, 1);
    b.update(100_000);
    assert_eq!(b.heading, Heading { x: 0, y: -1 });
    assert_eq!(b.position, Point { x: 500_000_000, y: WIN_HEIGHT - 8_500_000 });
}

#[test]
fn bullet_in_a_corner_turns_both_ways() {
    let mut b = bullet_at(0, 0, -3, -4);
    b.update(1_000_000);
    assert_eq!(b.heading, Heading { x: 3, y: 4 });
    assert_eq!(b.position, Point { x: 51_000_000, y: 68_000_000 });
}

#[test]
fn bullet_just_inside_the_edge_is_not_turned() {
    let mut b = bullet_at(1, 1, -1, 0);
    b.update(1_000);
    assert_eq!(b.heading, Heading { x: -1, y: 0 });
    assert_eq!(b.position, Point { x: 1 - 85_000, y: 1 });
    // now it is beyond the edge and is turned on the next step
    b.update(1_000);
    assert_eq!(b.heading, Heading { x: 1, y: 0 });
    assert_eq!(b.position, Point { x: 1, y: 1 });
}

#[test]
fn bullet_is_turned_at_a_wall_whichever_way_it_flies() {
    // on the edge but already flying inwards: the wall turns it all the same
    let mut b = bullet_at(0, 300_000_000, 1, 0);
    b.update(1_000);
    assert_eq!(b.heading, Heading { x: -1, y: 0 });
    assert_eq!(b.position, Point { x: -85_000, y: 300_000_000 });
}

#[test]
fn bullet_keeps_its_side_heading_at_an_end_wall() {
    let mut b = bullet_at(500_000_000, 0, 3, -4);
    b.update(1_000_000);
    assert_eq!(b.heading, Heading { x: 3, y: 4 });
    assert_eq!(b.position, Point { x: 551_000_000, y: 68_000_000 });
}

#[test]
fn new_bullet_has_moved_a_hundredth_of_a_second() {
    assert_eq!(SPAWN_STEP, 10_000);
    let b = Bullet::new(4_000_000, Point { x: 500_000_000, y: 300_000_000 }, Heading { x: 0, y: 1 });
    assert_eq!(b.position, Point { x: 500_000_000, y: 300_850_000 });
    assert_eq!(b.heading, Heading { x: 0, y: 1 });
    assert_eq!(b.hitbox, Circle { x: 500_000_000, y: 300_850_000, radius: 4_000_000 });
}

#[test]
fn new_bullet_with_a_short_heading_flies_at_the_same_speed() {
    // 0.85 pixels at 45 degrees: 0.60104 pixels along each axis
    let b = Bullet::new(1, Point { x: 500_000_000, y: 300_000_000 }, Heading { x: 1, y: 1 });
    assert_eq!(b.position, Point { x: 500_601_040, y: 300_601_040 });
    let mut b = bullet_at(500_000_000, 300_000_000, 1, 1);
    b.update(1_000_000);
    assert_eq!(b.position, Point { x: 560_104_076, y: 360_104_076 });
    assert_eq!(b.heading, Heading { x: 1, y: 1 });
}

#[test]
fn new_bullet_on_an_edge_is_turned_at_once() {
    let b = Bullet::new(1, Point { x: 0, y: 10 }, Heading { x: -1, y: 0 });
    assert_eq!(b.heading, Heading { x: 1, y: 0 });
    assert_eq!(b.position, Point { x: 850_000, y: 10 });
}

#[test]
fn bullet_hitbox_follows_the_bullet() {
    let mut b = bullet_at(10_000_000, 20_000_000, 5, 12);
    for _ in 0..50 {
        b.update(16_667);
        assert_eq!(b.hitbox.x, b.position.x);
        assert_eq!(b.hitbox.y, b.position.y);
        assert_eq!(b.hitbox.radius, 4_000_000);
    }
}

#[test]
fn bullet_stops_at_the_end_of_the_range() {
    let mut b = bullet_at(i64::MAX - 10, 5, -1, 0);
    // beyond the right edge: turned to fly right, and there is no room left
    b.update(1_000);
    assert_eq!(b.heading, Heading { x: 1, y: 0 });
    assert_eq!(b.position, Point { x: i64::MAX, y: 5 });
}

#[test]
fn bullet_bounces_between_the_side_walls() {
    let mut b = bullet_at(999_000_000, 300_000_000, 1, 0);
    let mut turns = 0;
    let mut last = b.heading;
    for _ in 0..2_000 {
        b.update(16_667);
        if b.heading != last {
            turns += 1;
            last = b.heading;
        }
        assert!(b.position.x > -2_000_000);
        assert!(b.position.x < WIN_WIDTH + 2_000_000);
    }
    assert!(turns >= 2);
}

#[test]
fn travel_agrees_with_cosine_and_sine() {
    let ways: [(i64, i64); 14] = [
        (1, 1),
        (1, -2),
        (-3, 1),
        (2, 7),
        (-1, 0),
        (1_000, 999),
        (100_000_000, 0),
        (300_000_000, 400_000_000),
        (-123_456_789, 987_654_321),
        (1_000_000, -1_000_000),
        (-250_000_000, -1_000_000),
        (7_000_000, 0),
        (0, -999_000_000),
        (2_147_483_648_000_000, 1_000_000),
    ];
    for (x, y) in ways {
        let h = Heading { x, y };
        let angle = (y as f64).atan2(x as f64);
        for dt in [0u32, 1, 1_000, 16_667, 1_000_000, u32::MAX] {
            let (sx, sy) = h.travel(dt);
            let way = 85.0 * dt as f64;
            let ex = angle.cos() * way;
            let ey = angle.sin() * way;
            // within a unit, but for what the floating-point numbers lose
            let slack = 1.0 + way * 1e-12;
            assert!((sx as f64 - ex).abs() <= slack, "{:?} for {}: {} not {}", h, dt, sx, ex);
            assert!((sy as f64 - ey).abs() <= slack, "{:?} for {}: {} not {}", h, dt, sy, ey);
        }
    }
}

#[test]
fn mirrored_headings_are_the_mirrored_angles() {
    let headings = [
        Heading { x: 3, y: 4 },
        Heading { x: -5, y: 12 },
        Heading { x: 1, y: 0 },
        Heading { x: 0, y: -1 },
        Heading { x: -7, y: -7 },
    ];
    for h in headings {
        let a = (h.y as f64).atan2(h.x as f64).to_degrees();
        let fx = h.flip_x();
        let fy = h.flip_y();
        let ax = (fx.y as f64).atan2(fx.x as f64).to_degrees();
        let ay = (fy.y as f64).atan2(fy.x as f64).to_degrees();
        // 180 - a and -a, up to whole turns
        let turn = |d: f64| ((d % 360.0) + 360.0) % 360.0;
        assert!((turn(ax) - turn(180.0 - a)).abs() < 1e-9);
        assert!((turn(ay) - turn(-a)).abs() < 1e-9);
    }
}
