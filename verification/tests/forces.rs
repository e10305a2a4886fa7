use particle_life_3d::attraction::AttractionLayout;
use particle_life_3d::cell::Cell;
use particle_life_3d::grid::SpatialIndex;

const BETA: f32 = 0.3;

#[derive(Clone, Copy)]
struct Body {
    position: [f32; 3],
    id: u32,
}

struct World {
    size: f32,
    radius: f32,
    layout: AttractionLayout,
    attraction: Vec<f32>,
}

fn force_law(r: f32, attraction: f32) -> f32 {
    if r < BETA {
        r / BETA - 1.0
    } else if r < 1.0 {
        attraction * (1.0 - (2.0 * r - 1.0 - BETA).abs() / (1.0 - BETA))
    } else {
        0.0
    }
}

fn cell_of(world: &World, p: [f32; 3]) -> Cell {
    Cell::new(
        (p[0] / world.radius).floor() as i64,
        (p[1] / world.radius).floor() as i64,
        (p[2] / world.radius).floor() as i64,
    )
}

fn images(world: &World, p: [f32; 3]) -> Vec<[f32; 3]> {
    let mut all = Vec::new();
    for x in -1..=1 {
        for y in -1..=1 {
            for z in -1..=1 {
                all.push([
                    p[0] + x as f32 * world.size,
                    p[1] + y as f32 * world.size,
                    p[2] + z as f32 * world.size,
                ]);
            }
        }
    }
    all
}

fn pull(world: &World, at: [f32; 3], id: u32, other: &Body) -> Option<[f32; 3]> {
    let rel = [
        other.position[0] - at[0],
        other.position[1] - at[1],
        other.position[2] - at[2],
    ];
    let sqr = rel[0] * rel[0] + rel[1] * rel[1] + rel[2] * rel[2];
    if sqr > 0.0 && sqr < world.radius * world.radius {
        let distance = sqr.sqrt();
        let f = force_law(
            distance / world.radius,
            world.attraction[world.layout.slot(id, other.id)],
        );
        Some([rel[0] / distance * f, rel[1] / distance * f, rel[2] / distance * f])
    } else {
        None
    }
}

fn forces_by_exhaustive_search(world: &World, bodies: &[Body]) -> Vec<([f64; 3], usize)> {
    bodies
        .iter()
        .map(|body| {
            let mut total = [0.0f64; 3];
            let mut pairs = 0;
            for at in images(world, body.position) {
                for other in bodies {
                    if let Some(f) = pull(world, at, body.id, other) {
                        for axis in 0..3 {
                            total[axis] += f[axis] as f64;
                        }
                        pairs += 1;
                    }
                }
            }
            (total, pairs)
        })
        .collect()
}

fn forces_by_index(world: &World, bodies: &[Body]) -> Vec<([f64; 3], usize)> {
    let idx = SpatialIndex::build(bodies.iter().map(|b| cell_of(world, b.position)).collect());
    bodies
        .iter()
        .map(|body| {
            let mut total = [0.0f64; 3];
            let mut pairs = 0;
            for at in images(world, body.position) {
                for j in idx.neighbors(cell_of(world, at)) {
                    if let Some(f) = pull(world, at, body.id, &bodies[j]) {
                        for axis in 0..3 {
                            total[axis] += f[axis] as f64;
                        }
                        pairs += 1;
                    }
                }
            }
            (total, pairs)
        })
        .collect()
}

fn scattered(n: usize, size: f32, id_count: u32, seed: u64) -> Vec<Body> {
    let mut state = seed;
    let mut unit = move || {
        state = state.wrapping_mul(6364136223846793005).wrapping_add(1442695040888963407);
        ((state >> 40) as f32) / ((1u64 << 24) as f32)
    };
    (0..n)
        .map(|i| Body {
            position: [
                (unit() - 0.5) * size,
                (unit() - 0.5) * size,
                (unit() - 0.5) * size,
            ],
            id: i as u32 % id_count,
        })
        .collect()
}

/// The velocity of a particle at rest after one sixtieth of a second
/// under `force`, with unit force scale and a friction of 0.97.
fn velocity_after_one_tick(world: &World, force: [f64; 3]) -> [f64; 3] {
    let ts = 1.0 / 60.0;
    let mut velocity = [0.0f64; 3];
    for axis in 0..3 {
        velocity[axis] = force[axis] * world.radius as f64 * ts;
        velocity[axis] -= velocity[axis] * 0.97 * ts;
    }
    velocity
}

fn assert_same_forces(world: &World, bodies: &[Body]) -> usize {
    let want = forces_by_exhaustive_search(world, bodies);
    let got = forces_by_index(world, bodies);
    let mut pairs = 0;
    for i in 0..bodies.len() {
        assert_eq!(got[i].1, want[i].1);
        pairs += want[i].1;
        let want_velocity = velocity_after_one_tick(world, want[i].0);
        let got_velocity = velocity_after_one_tick(world, got[i].0);
        let speed = want_velocity.iter().map(|v| v * v).sum::<f64>().sqrt();
        for axis in 0..3 {
            assert!((got_velocity[axis] - want_velocity[axis]).abs() <= 1e-4 * speed);
        }
    }
    pairs
}

#[test]
fn indexed_forces_match_exhaustive_search_on_twenty_particles() {
    let world = World {
        size: 6.0,
        radius: 2.0,
        layout: AttractionLayout::new(2, 4).unwrap(),
        attraction: vec![0.5, -1.0, 1.0, 0.25],
    };
    let bodies = scattered(20, world.size, 2, 7);
    let pairs = assert_same_forces(&world, &bodies);
    assert!(pairs > 0);
}

#[test]
fn indexed_forces_match_exhaustive_search_in_the_smallest_world() {
    let world = World {
        size: 4.0,
        radius: 2.0,
        layout: AttractionLayout::new(3, 9).unwrap(),
        attraction: vec![0.5, 1.0, -0.5, 1.0, 1.0, 1.0, 0.0, 0.0, 0.5],
    };
    for seed in 1..=5 {
        let bodies = scattered(40, world.size, 3, seed);
        let pairs = assert_same_forces(&world, &bodies);
        assert!(pairs > 0);
    }
}

#[test]
fn indexed_forces_reach_across_the_faces_of_the_world() {
    let world = World {
        size: 10.0,
        radius: 2.0,
        layout: AttractionLayout::new(1, 1).unwrap(),
        attraction: vec![1.0],
    };
    let bodies = vec![
        Body { position: [4.5, 0.0, 0.0], id: 0 },
        Body { position: [-4.5, 0.0, 0.0], id: 0 },
    ];
    let got = forces_by_index(&world, &bodies);
    assert_eq!(got[0].1, 1);
    assert_eq!(got[1].1, 1);
    // One unit apart through the face: half the radius, in the attracting lobe.
    let f = force_law(0.5, 1.0) as f64;
    assert!((got[0].0[0] - f).abs() < 1e-6);
    assert!((got[1].0[0] + f).abs() < 1e-6);
    assert_same_forces(&world, &bodies);
}

#[test]
fn two_types_pull_on_each_other_with_different_strength() {
    let world = World {
        size: 10.0,
        radius: 2.0,
        layout: AttractionLayout::new(2, 4).unwrap(),
        attraction: vec![0.0, 1.0, -0.5, 0.0],
    };
    assert_ne!(world.layout.slot(0, 1), world.layout.slot(1, 0));
    let bodies = vec![
        Body { position: [0.0, 0.0, 0.0], id: 0 },
        Body { position: [1.3, 0.0, 0.0], id: 1 },
    ];
    let got = forces_by_index(&world, &bodies);
    let lobe = (1.0 - (2.0 * 0.65 - 1.0 - BETA as f64).abs() / (1.0 - BETA as f64)) as f64;
    // The first is drawn to the second with full strength; the second
    // backs away from the first with half of it.
    assert!((got[0].0[0] - lobe).abs() < 1e-5);
    assert!((got[1].0[0] - 0.5 * lobe).abs() < 1e-5);
    assert!(got[0].0[0].abs() > got[1].0[0].abs());
}

#[test]
fn a_particle_alone_feels_no_force() {
    let world = World {
        size: 10.0,
        radius: 2.0,
        layout: AttractionLayout::new(1, 1).unwrap(),
        attraction: vec![1.0],
    };
    let bodies = vec![Body { position: [1.0, 2.0, 3.0], id: 0 }];
    let got = forces_by_index(&world, &bodies);
    assert_eq!(got[0].1, 0);
    assert_eq!(got[0].0, [0.0, 0.0, 0.0]);
}

#[test]
fn particles_at_the_same_point_do_not_interact() {
    let world = World {
        size: 10.0,
        radius: 2.0,
        layout: AttractionLayout::new(1, 1).unwrap(),
        attraction: vec![1.0],
    };
    let bodies = vec![
        Body { position: [1.0, 1.0, 1.0], id: 0 },
        Body { position: [1.0, 1.0, 1.0], id: 0 },
    ];
    let idx = SpatialIndex::build(bodies.iter().map(|b| cell_of(&world, b.position)).collect());
    assert_eq!(idx.neighbors(cell_of(&world, bodies[0].position)), vec![0, 1]);
    let got = forces_by_index(&world, &bodies);
    assert_eq!(got[0].1, 0);
    assert_eq!(got[1].1, 0);
    assert_eq!(got[0].0, [0.0, 0.0, 0.0]);
}
