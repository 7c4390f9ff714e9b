use sphere_physics::state::Paused;
use sphere_physics::systems::{collision_system, gravity_system, physics_tick, velocity_system};

#[test]
fn gravity_reads_attractors_from_before_the_pass() {
    let mut bodies: Vec<i64> = vec![1, 2, 3];
    gravity_system(&mut bodies, |a: i64, b: i64| a * 10 + b);
    assert_eq!(bodies, vec![123, 213, 312]);
}

#[test]
fn gravity_skips_self() {
    let mut bodies: Vec<i64> = vec![5];
    gravity_system(&mut bodies, |a: i64, b: i64| a + b);
    assert_eq!(bodies, vec![5]);
    let mut none: Vec<i64> = Vec::new();
    gravity_system(&mut none, |a: i64, b: i64| a + b);
    assert!(none.is_empty());
}

#[test]
fn velocity_advances_each_body() {
    let mut bodies: Vec<(i32, i32)> = vec![(0, 1), (10, -2), (5, 0)];
    velocity_system(&mut bodies, |(p, v): (i32, i32)| (p + v * 3, v));
    assert_eq!(bodies, vec![(3, 1), (4, -2), (5, 0)]);
}

#[test]
fn collisions_see_earlier_corrections() {
    let mut bodies: Vec<u8> = vec![1, 2, 7];
    collision_system(&mut bodies, |a: u8, b: u8| (b, a));
    assert_eq!(bodies, vec![7, 2, 1]);
}

#[test]
fn collisions_visit_each_pair_once() {
    let mut bodies: Vec<u32> = vec![0; 5];
    collision_system(&mut bodies, |a: u32, b: u32| (a + 1, b + 1));
    assert_eq!(bodies, vec![4; 5]);
}

#[test]
fn paused_tick_leaves_bodies_unchanged() {
    let mut mode = Paused(true);
    let mut bodies: Vec<(i32, i32)> = vec![(0, 1), (4, 2)];
    physics_tick(
        &mut mode,
        false,
        &mut bodies,
        |a: (i32, i32), b: (i32, i32)| (a.0, a.1 + b.0),
        |a: (i32, i32)| (a.0 + a.1 * 5, a.1),
        |a: (i32, i32), b: (i32, i32)| ((a.0 - 1, a.1), (b.0 + 1, b.1)),
    );
    assert_eq!(mode, Paused(true));
    assert_eq!(bodies, vec![(0, 1), (4, 2)]);
}

#[test]
fn toggle_to_paused_freezes_the_same_tick() {
    let mut mode = Paused(false);
    let mut bodies: Vec<i32> = vec![1, 2];
    physics_tick(&mut mode, true, &mut bodies, |a: i32, b: i32| a + b, |a: i32| a * 2, |a: i32, b: i32| (b, a));
    assert_eq!(mode, Paused(true));
    assert_eq!(bodies, vec![1, 2]);
}

#[test]
fn running_tick_orders_gravity_then_motion_then_collision() {
    let mut mode = Paused(true);
    let mut bodies: Vec<i32> = vec![1, 2];
    physics_tick(&mut mode, true, &mut bodies, |a: i32, b: i32| a * 10 + b, |a: i32| a + 100, |a: i32, b: i32| (b, -a));
    // gravity: [12, 21]; motion: [112, 121]; collision: [121, -112]
    assert_eq!(mode, Paused(false));
    assert_eq!(bodies, vec![121, -112]);
}

#[derive(Clone, Copy, Debug)]
struct Body {
    position: [f32; 3],
    velocity: [f32; 3],
    mass: f32,
}

#[test]
fn single_attractor_pulls_then_moves() {
    let gravity: f32 = 1.0;
    let delta_time: f32 = 1.0;
    let mut mode = Paused(true);
    let mut bodies = vec![
        Body { position: [0.0; 3], velocity: [0.0; 3], mass: 10.0 },
        Body { position: [10.0, 0.0, 0.0], velocity: [0.0; 3], mass: 0.0 },
    ];
    let pull = move |mut a: Body, b: Body| {
        let diff = [b.position[0] - a.position[0], b.position[1] - a.position[1], b.position[2] - a.position[2]];
        let dist_sq = (diff[0] * diff[0] + diff[1] * diff[1] + diff[2] * diff[2]).max(1.0);
        let accel = gravity * b.mass / dist_sq;
        let dist = dist_sq.sqrt();
        for k in 0..3 {
            a.velocity[k] += diff[k] / dist * accel;
        }
        a
    };
    let advance = move |mut a: Body| {
        for k in 0..3 {
            a.position[k] += a.velocity[k] * delta_time;
        }
        a
    };
    let resolve = |a: Body, b: Body| (a, b);
    physics_tick(&mut mode, true, &mut bodies, pull, advance, resolve);
    let moved = bodies[1];
    assert!((moved.velocity[0] + 0.1).abs() < 1e-6);
    assert_eq!(moved.velocity[1], 0.0);
    assert!((moved.position[0] - 9.9).abs() < 1e-5);
    assert_eq!(bodies[0].velocity, [0.0; 3]);
    assert_eq!(bodies[0].position, [0.0; 3]);
}
