use portfolio_wasm::particle::Particle;
use portfolio_wasm::single::Single;
use portfolio_wasm::system::{
    ParticleSystem, DEFAULT_DAMPING_BITS, DEFAULT_GRAVITY_BITS, DEFAULT_RESTITUTION_BITS,
    DEFAULT_TIME_STEP_BITS, MAX_TIME_STEP_BITS, MIN_BOUND_BITS, MIN_TIME_STEP_BITS,
};

fn s(x: f32) -> Single {
    Single::from_bits(x.to_bits())
}

fn f(x: Single) -> f32 {
    f32::from_bits(x.to_bits())
}

fn floats(v: Vec<Single>) -> Vec<f32> {
    v.into_iter().map(f).collect()
}

fn bits(v: Vec<Single>) -> Vec<u32> {
    v.into_iter().map(|x| x.to_bits()).collect()
}

/// One particle of the oracle: the step written with the machine's own
/// single-precision arithmetic.
#[derive(Clone, Copy)]
struct Body {
    x: f32,
    y: f32,
    vx: f32,
    vy: f32,
    radius: f32,
    mass: f32,
}

struct World {
    bodies: Vec<Body>,
    width: f32,
    height: f32,
    gravity_x: f32,
    gravity_y: f32,
    damping: f32,
    restitution: f32,
    time_step: f32,
}

impl World {
    fn step(&mut self, dt: f32) {
        let actual_dt = if dt > 0.0 { dt } else { self.time_step };
        for p in &mut self.bodies {
            p.vx += self.gravity_x * actual_dt;
            p.vy += self.gravity_y * actual_dt;
            p.vx *= self.damping;
            p.vy *= self.damping;
            p.x += p.vx * actual_dt;
            p.y += p.vy * actual_dt;
        }
        for p in &mut self.bodies {
            if p.x - p.radius < 0.0 {
                p.x = p.radius;
                p.vx = -p.vx * self.restitution;
            } else if p.x + p.radius > self.width {
                p.x = self.width - p.radius;
                p.vx = -p.vx * self.restitution;
            }
            if p.y - p.radius < 0.0 {
                p.y = p.radius;
                p.vy = -p.vy * self.restitution;
            } else if p.y + p.radius > self.height {
                p.y = self.height - p.radius;
                p.vy = -p.vy * self.restitution;
            }
        }
        let n = self.bodies.len();
        for i in 0..n {
            for j in (i + 1)..n {
                let a = self.bodies[i];
                let b = self.bodies[j];
                let dx = b.x - a.x;
                let dy = b.y - a.y;
                let distance = (dx * dx + dy * dy).sqrt();
                let min_distance = a.radius + b.radius;
                if distance < min_distance && distance > 0.0 {
                    let nx = dx / distance;
                    let ny = dy / distance;
                    let separation = (min_distance - distance) * 0.5;
                    self.bodies[i].x -= nx * separation;
                    self.bodies[i].y -= ny * separation;
                    self.bodies[j].x += nx * separation;
                    self.bodies[j].y += ny * separation;
                    let dvn = (b.vx - a.vx) * nx + (b.vy - a.vy) * ny;
                    if dvn > 0.0 {
                        continue;
                    }
                    let impulse = 2.0 * dvn / (a.mass + b.mass) * self.restitution;
                    self.bodies[i].vx += impulse * b.mass * nx;
                    self.bodies[i].vy += impulse * b.mass * ny;
                    self.bodies[j].vx -= impulse * a.mass * nx;
                    self.bodies[j].vy -= impulse * a.mass * ny;
                }
            }
        }
    }

    fn data(&self) -> Vec<u32> {
        let mut v = Vec::new();
        for p in &self.bodies {
            for x in [p.x, p.y, p.vx, p.vy, p.radius, p.mass] {
                v.push(x.to_bits());
            }
        }
        v
    }

    fn energy(&self) -> f32 {
        let mut total = 0.0;
        for p in &self.bodies {
            total += 0.5 * p.mass * (p.vx * p.vx + p.vy * p.vy);
        }
        total
    }
}

fn next(state: &mut u64) -> f32 {
    *state = state.wrapping_mul(6364136223846793005).wrapping_add(1442695040888963407);
    ((*state >> 40) as f32) / 16777216.0
}

fn run_against_oracle(count: usize, steps: usize, seed: u64, width: f32, height: f32, dt: f32) {
    let mut state = seed;
    let mut system = ParticleSystem::new(s(width), s(height));
    let mut world = World {
        bodies: Vec::new(),
        width,
        height,
        gravity_x: 0.0,
        gravity_y: 9.81 * 10.0,
        damping: 0.99,
        restitution: 0.8,
        time_step: 1.0 / 60.0,
    };
    for _ in 0..count {
        let x = next(&mut state) * width * 1.2 - 0.1 * width;
        let y = next(&mut state) * height * 1.2 - 0.1 * height;
        let vx = next(&mut state) * 400.0 - 200.0;
        let vy = next(&mut state) * 400.0 - 200.0;
        let radius = 2.0 + next(&mut state) * 30.0;
        let mass = 0.5 + next(&mut state) * 4.0;
        system.add_particle(s(x), s(y), s(vx), s(vy), s(radius), s(mass));
        world.bodies.push(Body { x, y, vx, vy, radius, mass });
    }
    for step in 0..steps {
        system.update(s(dt));
        world.step(dt);
        assert_eq!(bits(system.get_particle_data()), world.data(), "after step {}", step);
        assert_eq!(system.get_kinetic_energy().to_bits(), world.energy().to_bits());
    }
}

#[test]
fn steps_match_the_machine_bit_for_bit() {
    run_against_oracle(12, 120, 1, 800.0, 600.0, 1.0 / 60.0);
    run_against_oracle(40, 30, 2, 300.0, 200.0, 0.0);
    run_against_oracle(25, 60, 3, 120.0, 120.0, 0.05);
}

#[test]
fn crowded_steps_match_the_machine_bit_for_bit() {
    run_against_oracle(60, 20, 4, 100.0, 100.0, 1.0 / 60.0);
}

#[test]
fn defaults_are_the_documented_values() {
    assert_eq!(DEFAULT_GRAVITY_BITS, (9.81f32 * 10.0).to_bits());
    assert_eq!(DEFAULT_GRAVITY_BITS, s(9.81).mul(s(10.0)).to_bits());
    assert_eq!(DEFAULT_DAMPING_BITS, 0.99f32.to_bits());
    assert_eq!(DEFAULT_RESTITUTION_BITS, 0.8f32.to_bits());
    assert_eq!(DEFAULT_TIME_STEP_BITS, (1.0f32 / 60.0).to_bits());
    assert_eq!(DEFAULT_TIME_STEP_BITS, s(1.0).div(s(60.0)).to_bits());
    assert_eq!(MIN_TIME_STEP_BITS, 0.001f32.to_bits());
    assert_eq!(MAX_TIME_STEP_BITS, 0.1f32.to_bits());
    assert_eq!(MIN_BOUND_BITS, 100.0f32.to_bits());
}

#[test]
fn new_system_is_empty_with_its_bounds() {
    let system = ParticleSystem::new(s(800.0), s(600.0));
    assert_eq!(system.get_particle_count(), 0);
    assert_eq!(floats(system.get_bounds()), vec![0.0, 0.0, 800.0, 600.0]);
    assert!(system.get_positions().is_empty());
    assert!(system.get_velocities().is_empty());
    assert!(system.get_particle_data().is_empty());
    assert!(system.get_colors().is_empty());
    assert_eq!(system.get_kinetic_energy().to_bits(), 0);
    // The constructor raises small bounds to the minimum.
    let small = ParticleSystem::new(s(10.0), s(10.0));
    assert_eq!(floats(small.get_bounds()), vec![0.0, 0.0, 100.0, 100.0]);
    let mixed = ParticleSystem::new(s(99.5), s(100.5));
    assert_eq!(floats(mixed.get_bounds()), vec![0.0, 0.0, 100.0, 100.5]);
    let odd = ParticleSystem::new(s(f32::NAN), s(-3.0));
    assert_eq!(floats(odd.get_bounds()), vec![0.0, 0.0, 100.0, 100.0]);
}

#[test]
fn a_small_system_contains_its_particles_in_the_raised_bounds() {
    let mut system = ParticleSystem::new(s(10.0), s(10.0));
    system.set_gravity(s(0.0), s(0.0));
    system.add_particle(s(50.0), s(200.0), s(0.0), s(0.0), s(5.0), s(1.0));
    system.update(s(1.0 / 60.0));
    assert_eq!(floats(system.get_positions()), vec![50.0, 95.0]);
}

#[test]
fn add_particle_returns_the_index() {
    let mut system = ParticleSystem::new(s(800.0), s(600.0));
    assert_eq!(system.add_particle(s(1.0), s(2.0), s(3.0), s(4.0), s(5.0), s(6.0)), 0);
    assert_eq!(system.add_particle(s(7.0), s(8.0), s(9.0), s(10.0), s(11.0), s(12.0)), 1);
    assert_eq!(system.add_particle(s(-50.0), s(9000.0), s(0.0), s(0.0), s(1.0), s(1.0)), 2);
    assert_eq!(system.get_particle_count(), 3);
    assert_eq!(floats(system.get_positions()), vec![1.0, 2.0, 7.0, 8.0, -50.0, 9000.0]);
    assert_eq!(floats(system.get_velocities()), vec![3.0, 4.0, 9.0, 10.0, 0.0, 0.0]);
    assert_eq!(
        floats(system.get_particle_data()),
        vec![
            1.0, 2.0, 3.0, 4.0, 5.0, 6.0, 7.0, 8.0, 9.0, 10.0, 11.0, 12.0, -50.0, 9000.0, 0.0,
            0.0, 1.0, 1.0
        ]
    );
    assert_eq!(system.get_colors(), vec![0xFFFFFF, 0xFFFFFF, 0xFFFFFF]);
}

#[test]
fn clear_particles_empties_and_keeps_parameters() {
    let mut system = ParticleSystem::new(s(800.0), s(600.0));
    system.add_particle(s(1.0), s(2.0), s(3.0), s(4.0), s(5.0), s(6.0));
    system.add_particle(s(1.0), s(2.0), s(3.0), s(4.0), s(5.0), s(6.0));
    system.clear_particles();
    assert_eq!(system.get_particle_count(), 0);
    assert_eq!(floats(system.get_bounds()), vec![0.0, 0.0, 800.0, 600.0]);
    assert_eq!(system.add_particle(s(1.0), s(2.0), s(3.0), s(4.0), s(5.0), s(6.0)), 0);
}

#[test]
fn update_of_an_empty_system_changes_nothing() {
    let mut system = ParticleSystem::new(s(800.0), s(600.0));
    system.set_gravity(s(3.0), s(-4.0));
    system.update(s(1.0 / 60.0));
    system.update(s(0.0));
    system.update(s(-1.0));
    assert_eq!(system.get_particle_count(), 0);
    assert_eq!(floats(system.get_bounds()), vec![0.0, 0.0, 800.0, 600.0]);
    // The parameters are as before: a particle added now moves by them.
    system.add_particle(s(400.0), s(300.0), s(0.0), s(0.0), s(5.0), s(1.0));
    system.update(s(0.5));
    let v = floats(system.get_velocities());
    assert_eq!(v[0], (0.0f32 + 3.0 * 0.5) * 0.99);
    assert_eq!(v[1], (0.0f32 + -4.0 * 0.5) * 0.99);
}

/// The effective damping: what is left of a velocity of 1 after one step
/// without gravity.
fn effective_damping(set: f32) -> f32 {
    let mut system = ParticleSystem::new(s(800.0), s(600.0));
    system.set_gravity(s(0.0), s(0.0));
    system.set_damping(s(set));
    system.add_particle(s(400.0), s(300.0), s(1.0), s(1.0), s(5.0), s(1.0));
    system.update(s(0.01));
    floats(system.get_velocities())[0]
}

#[test]
fn damping_is_clamped() {
    assert_eq!(effective_damping(-1.0), 0.0);
    assert_eq!(effective_damping(5.0), 1.0);
    assert_eq!(effective_damping(0.25), 0.25);
    assert_eq!(effective_damping(0.0), 0.0);
    assert_eq!(effective_damping(1.0), 1.0);
    assert_eq!(effective_damping(f32::NAN), 0.0);
    assert_eq!(effective_damping(f32::INFINITY), 1.0);
    assert_eq!(effective_damping(f32::NEG_INFINITY), 0.0);
}

/// The effective restitution: the speed with which a particle leaves the
/// left wall that it hit with speed 1.
fn effective_restitution(set: f32) -> f32 {
    let mut system = ParticleSystem::new(s(800.0), s(600.0));
    system.set_gravity(s(0.0), s(0.0));
    system.set_damping(s(1.0));
    system.set_restitution(s(set));
    system.add_particle(s(5.0), s(300.0), s(-1.0), s(0.0), s(5.0), s(1.0));
    system.update(s(0.01));
    floats(system.get_velocities())[0]
}

#[test]
fn restitution_is_clamped() {
    assert_eq!(effective_restitution(-1.0), 0.0);
    assert_eq!(effective_restitution(5.0), 1.0);
    assert_eq!(effective_restitution(0.5), 0.5);
    assert_eq!(effective_restitution(f32::NAN), 0.0);
}

/// The effective time step: how far a particle of speed 1 moves in a step
/// that falls back to the system's own time step.
fn effective_time_step(set: f32) -> f32 {
    let mut system = ParticleSystem::new(s(800.0), s(600.0));
    system.set_gravity(s(0.0), s(0.0));
    system.set_damping(s(1.0));
    system.set_time_step(s(set));
    system.add_particle(s(0.0), s(0.0), s(1.0), s(0.0), s(0.0), s(1.0));
    system.update(s(0.0));
    floats(system.get_positions())[0]
}

#[test]
fn time_step_is_clamped() {
    assert_eq!(effective_time_step(0.0), 0.001);
    assert_eq!(effective_time_step(-3.0), 0.001);
    assert_eq!(effective_time_step(5.0), 0.1);
    assert_eq!(effective_time_step(0.05), 0.05);
    assert_eq!(effective_time_step(f32::NAN), 0.001);
    // Untouched, the time step is 1/60.
    let mut system = ParticleSystem::new(s(800.0), s(600.0));
    system.set_gravity(s(0.0), s(0.0));
    system.set_damping(s(1.0));
    system.add_particle(s(0.0), s(0.0), s(1.0), s(0.0), s(0.0), s(1.0));
    system.update(s(-1.0));
    assert_eq!(floats(system.get_positions())[0], 1.0f32 / 60.0);
}

#[test]
fn bounds_are_raised_to_the_minimum() {
    let mut system = ParticleSystem::new(s(800.0), s(600.0));
    system.set_bounds(s(10.0), s(10.0));
    assert_eq!(floats(system.get_bounds()), vec![0.0, 0.0, 100.0, 100.0]);
    system.set_bounds(s(250.0), s(99.0));
    assert_eq!(floats(system.get_bounds()), vec![0.0, 0.0, 250.0, 100.0]);
    system.set_bounds(s(f32::NAN), s(-5.0));
    assert_eq!(floats(system.get_bounds()), vec![0.0, 0.0, 100.0, 100.0]);
}

#[test]
fn shrinking_bounds_leaves_particles_until_the_next_step() {
    let mut system = ParticleSystem::new(s(800.0), s(600.0));
    system.set_gravity(s(0.0), s(0.0));
    system.add_particle(s(700.0), s(500.0), s(0.0), s(0.0), s(5.0), s(1.0));
    system.set_bounds(s(200.0), s(100.0));
    assert_eq!(floats(system.get_positions()), vec![700.0, 500.0]);
    system.update(s(0.01));
    assert_eq!(floats(system.get_positions()), vec![195.0, 95.0]);
}

#[test]
fn gravity_moves_a_free_particle() {
    let mut system = ParticleSystem::new(s(800.0), s(600.0));
    system.set_gravity(s(0.0), s(98.1));
    system.set_restitution(s(0.8));
    system.add_particle(s(400.0), s(10.0), s(0.0), s(0.0), s(5.0), s(1.0));
    system.update(s(1.0 / 60.0));
    let p = floats(system.get_positions());
    let v = floats(system.get_velocities());
    let dt = 1.0f32 / 60.0;
    assert!(v[1] > 0.0);
    assert_eq!(v[0], 0.0);
    assert_eq!(v[1], (0.0 + 98.1f32 * dt) * 0.99);
    assert_eq!(p[0], 400.0);
    assert_eq!(p[1], 10.0 + v[1] * dt);
    assert!(p[1] > 10.0);
    // Damped, the particle moves less than gravity alone would move it.
    assert!(p[1] - 10.0 < 98.1 * dt * dt);
}

#[test]
fn overlapping_particles_are_separated() {
    let mut system = ParticleSystem::new(s(800.0), s(600.0));
    system.set_gravity(s(0.0), s(0.0));
    system.add_particle(s(400.0), s(300.0), s(0.0), s(0.0), s(5.0), s(1.0));
    system.add_particle(s(401.0), s(300.0), s(0.0), s(0.0), s(5.0), s(1.0));
    system.update(s(1.0 / 60.0));
    let p = floats(system.get_positions());
    assert_eq!(p, vec![395.5, 300.0, 405.5, 300.0]);
    let dx = p[2] - p[0];
    let dy = p[3] - p[1];
    assert!((dx * dx + dy * dy).sqrt() >= 10.0);
    assert_eq!(floats(system.get_velocities()), vec![0.0, 0.0, 0.0, 0.0]);
    assert_eq!(system.get_particle_count(), 2);
}

#[test]
fn coincident_particles_stay_together() {
    let mut system = ParticleSystem::new(s(800.0), s(600.0));
    system.set_gravity(s(0.0), s(0.0));
    system.add_particle(s(400.0), s(300.0), s(0.0), s(0.0), s(5.0), s(1.0));
    system.add_particle(s(400.0), s(300.0), s(0.0), s(0.0), s(5.0), s(1.0));
    system.update(s(1.0 / 60.0));
    assert_eq!(floats(system.get_positions()), vec![400.0, 300.0, 400.0, 300.0]);
}

#[test]
fn equal_masses_exchange_velocities_head_on() {
    let mut system = ParticleSystem::new(s(800.0), s(600.0));
    system.set_gravity(s(0.0), s(0.0));
    system.set_damping(s(1.0));
    system.set_restitution(s(1.0));
    system.add_particle(s(395.0), s(300.0), s(10.0), s(0.0), s(5.0), s(2.0));
    system.add_particle(s(404.0), s(300.0), s(-10.0), s(0.0), s(5.0), s(2.0));
    system.update(s(0.0078125));
    assert_eq!(floats(system.get_velocities()), vec![-10.0, 0.0, 10.0, 0.0]);
    let p = floats(system.get_positions());
    assert!(p[2] - p[0] >= 10.0);
}

#[test]
fn separating_particles_keep_their_velocities() {
    let mut system = ParticleSystem::new(s(800.0), s(600.0));
    system.set_gravity(s(0.0), s(0.0));
    system.set_damping(s(1.0));
    system.add_particle(s(396.0), s(300.0), s(-1.0), s(0.0), s(5.0), s(1.0));
    system.add_particle(s(404.0), s(300.0), s(1.0), s(0.0), s(5.0), s(1.0));
    system.update(s(0.0078125));
    assert_eq!(floats(system.get_velocities()), vec![-1.0, 0.0, 1.0, 0.0]);
    let p = floats(system.get_positions());
    assert_eq!(p[2] - p[0], 10.0);
}

#[test]
fn a_collision_does_not_add_energy() {
    let mut system = ParticleSystem::new(s(800.0), s(600.0));
    system.set_gravity(s(0.0), s(0.0));
    system.set_damping(s(1.0));
    system.set_restitution(s(0.8));
    system.add_particle(s(395.0), s(300.0), s(10.0), s(2.0), s(5.0), s(1.0));
    system.add_particle(s(404.0), s(301.0), s(-10.0), s(-1.0), s(5.0), s(3.0));
    let before = f(system.get_kinetic_energy());
    assert_eq!(before, 0.5 * 1.0 * (100.0 + 4.0) + 0.5 * 3.0 * (100.0 + 1.0));
    system.update(s(1.0 / 60.0));
    let after = f(system.get_kinetic_energy());
    assert!(after <= before);
    assert!(after > 0.0);
}

#[test]
fn particles_bounce_off_every_wall() {
    let mut system = ParticleSystem::new(s(800.0), s(600.0));
    system.set_gravity(s(0.0), s(0.0));
    system.set_damping(s(1.0));
    system.set_restitution(s(0.5));
    system.add_particle(s(4.0), s(300.0), s(-8.0), s(0.0), s(5.0), s(1.0));
    system.add_particle(s(797.0), s(300.0), s(8.0), s(0.0), s(5.0), s(1.0));
    system.add_particle(s(400.0), s(3.0), s(0.0), s(-8.0), s(5.0), s(1.0));
    system.add_particle(s(200.0), s(599.0), s(0.0), s(8.0), s(5.0), s(1.0));
    system.add_particle(s(-20.0), s(700.0), s(-2.0), s(2.0), s(5.0), s(1.0));
    system.update(s(0.125));
    assert_eq!(
        floats(system.get_positions()),
        vec![5.0, 300.0, 795.0, 300.0, 400.0, 5.0, 200.0, 595.0, 5.0, 595.0]
    );
    assert_eq!(
        floats(system.get_velocities()),
        vec![4.0, 0.0, -4.0, 0.0, 0.0, 4.0, 0.0, -4.0, 1.0, -1.0]
    );
}

#[test]
fn contained_particles_lie_within_the_bounds() {
    // Few enough particles, far enough apart, that none collide.
    let mut state = 77u64;
    let mut system = ParticleSystem::new(s(800.0), s(600.0));
    let mut i = 0;
    while i < 6 {
        let x = next(&mut state) * 100.0 + 130.0 * (i as f32);
        let y = next(&mut state) * 2000.0 - 700.0;
        system.add_particle(s(x - 60.0), s(y), s(0.0), s(next(&mut state) * 90.0), s(20.0), s(1.0));
        i += 1;
    }
    let mut step = 0;
    while step < 40 {
        system.update(s(1.0 / 60.0));
        let p = floats(system.get_positions());
        let mut k = 0;
        while k < 6 {
            assert!(20.0 <= p[2 * k] && p[2 * k] <= 800.0 - 20.0);
            assert!(20.0 <= p[2 * k + 1] && p[2 * k + 1] <= 600.0 - 20.0);
            k += 1;
        }
        step += 1;
    }
}

#[test]
fn setters_ignore_indices_out_of_range() {
    let mut system = ParticleSystem::new(s(800.0), s(600.0));
    system.add_particle(s(1.0), s(2.0), s(3.0), s(4.0), s(5.0), s(6.0));
    system.set_particle_position(1, s(9.0), s(9.0));
    system.set_particle_velocity(7, s(9.0), s(9.0));
    system.add_force_to_particle(usize::MAX, s(9.0), s(9.0));
    assert_eq!(system.get_particle_count(), 1);
    assert_eq!(floats(system.get_particle_data()), vec![1.0, 2.0, 3.0, 4.0, 5.0, 6.0]);
}

#[test]
fn setters_overwrite_position_and_velocity() {
    let mut system = ParticleSystem::new(s(800.0), s(600.0));
    system.add_particle(s(1.0), s(2.0), s(3.0), s(4.0), s(5.0), s(6.0));
    system.add_particle(s(10.0), s(20.0), s(30.0), s(40.0), s(50.0), s(60.0));
    system.set_particle_position(1, s(-7.0), s(1.0e9));
    system.set_particle_velocity(0, s(0.5), s(-0.5));
    assert_eq!(
        floats(system.get_particle_data()),
        vec![1.0, 2.0, 0.5, -0.5, 5.0, 6.0, -7.0, 1.0e9, 30.0, 40.0, 50.0, 60.0]
    );
}

#[test]
fn a_force_changes_velocity_by_the_stored_time_step() {
    let mut system = ParticleSystem::new(s(800.0), s(600.0));
    system.set_time_step(s(0.0625));
    system.add_particle(s(400.0), s(300.0), s(3.0), s(4.0), s(5.0), s(4.0));
    // A step with its own duration does not change the stored time step.
    system.set_gravity(s(0.0), s(0.0));
    system.set_damping(s(1.0));
    system.update(s(0.001));
    system.add_force_to_particle(0, s(8.0), s(-16.0));
    assert_eq!(floats(system.get_velocities()), vec![3.0 + 2.0 * 0.0625, 4.0 - 4.0 * 0.0625]);
}

#[test]
fn kinetic_energy_is_half_mass_times_speed_squared() {
    let mut system = ParticleSystem::new(s(800.0), s(600.0));
    system.add_particle(s(0.0), s(0.0), s(3.0), s(4.0), s(1.0), s(2.0));
    assert_eq!(f(system.get_kinetic_energy()), 25.0);
    system.add_particle(s(0.0), s(0.0), s(-1.0), s(0.0), s(1.0), s(8.0));
    assert_eq!(f(system.get_kinetic_energy()), 29.0);
}

#[test]
fn particle_attributes_are_readable_and_colour_is_writable() {
    let mut p = Particle::new(s(1.0), s(2.0), s(3.0), s(4.0), s(5.0), s(6.0));
    assert_eq!(f(p.x()), 1.0);
    assert_eq!(f(p.y()), 2.0);
    assert_eq!(f(p.vx()), 3.0);
    assert_eq!(f(p.vy()), 4.0);
    assert_eq!(f(p.radius()), 5.0);
    assert_eq!(f(p.mass()), 6.0);
    assert_eq!(p.color(), 0xFFFFFF);
    p.set_color(0x123456);
    assert_eq!(p.color(), 0x123456);
    assert_eq!(f(p.x()), 1.0);
    assert_eq!(f(p.mass()), 6.0);
}

#[test]
fn earlier_pairs_are_felt_by_later_pairs() {
    // Three disks in a row, each overlapping the next: resolving the first
    // pair pushes the middle one further into the third.
    let mut system = ParticleSystem::new(s(800.0), s(600.0));
    system.set_gravity(s(0.0), s(0.0));
    system.add_particle(s(100.0), s(300.0), s(0.0), s(0.0), s(5.0), s(1.0));
    system.add_particle(s(108.0), s(300.0), s(0.0), s(0.0), s(5.0), s(1.0));
    system.add_particle(s(116.0), s(300.0), s(0.0), s(0.0), s(5.0), s(1.0));
    system.update(s(1.0 / 60.0));
    // Pair (0, 1): overlap 2, each moves 1: 99 and 109. Pair (0, 2) is apart.
    // Pair (1, 2): distance 7, overlap 3, each moves 1.5: 107.5 and 117.5.
    assert_eq!(floats(system.get_positions()), vec![99.0, 300.0, 107.5, 300.0, 117.5, 300.0]);
}

#[test]
fn rounding_limits_the_exchange_of_velocities() {
    // Head on, equal masses, restitution 1: the velocities would be
    // exchanged, but their difference, -100000001, is no single-precision
    // number; rounded to -100000000, it leaves the first particle at rest.
    let mut system = ParticleSystem::new(s(800.0), s(600.0));
    system.set_gravity(s(0.0), s(0.0));
    system.set_damping(s(1.0));
    system.set_restitution(s(1.0));
    system.add_particle(s(395.0), s(300.0), s(1.0e8), s(0.0), s(5.0), s(1.0));
    system.add_particle(s(404.0), s(300.0), s(-1.0), s(0.0), s(5.0), s(1.0));
    system.update(s(1.0e-9));
    assert_eq!(floats(system.get_velocities()), vec![0.0, 0.0, 1.0e8, 0.0]);
}

#[test]
fn rounding_can_add_a_little_energy() {
    let mut system = ParticleSystem::new(s(800.0), s(600.0));
    system.set_gravity(s(0.0), s(0.0));
    system.set_damping(s(1.0));
    system.set_restitution(s(0.8));
    system.add_particle(s(400.0), s(300.0), s(100.0), s(318.0), s(5.0), s(1.0));
    system.add_particle(s(407.0), s(297.0), s(0.0), s(103.0), s(5.0), s(1.0));
    let before = f(system.get_kinetic_energy());
    system.update(s(1.0 / 1024.0));
    let after = f(system.get_kinetic_energy());
    assert_eq!(before, 60866.5);
    assert_eq!(after, 60866.50390625);
}

#[test]
fn a_high_edge_rounded_onto_the_bound_is_left_alone() {
    // 128 + 0.0000057 rounds to 128, so the disk is taken not to cross
    // the edge, though 128 - 0.0000057 rounds to less than 128.
    let radius = 1.5 / 262144.0;
    let mut system = ParticleSystem::new(s(128.0), s(600.0));
    system.set_gravity(s(0.0), s(0.0));
    system.add_particle(s(128.0), s(300.0), s(0.0), s(0.0), s(radius), s(1.0));
    system.update(s(1.0 / 60.0));
    let p = floats(system.get_positions());
    assert_eq!(p[0], 128.0);
    assert!(p[0] > 128.0 - radius);
    assert!(p[0] + radius <= 128.0);
}

#[test]
fn collisions_can_push_a_particle_out_of_bounds() {
    // Two disks against the left wall: containment puts both at the wall,
    // where they lie 1 apart; resolution moves the first one out again.
    let mut system = ParticleSystem::new(s(800.0), s(600.0));
    system.set_gravity(s(0.0), s(0.0));
    system.add_particle(s(5.0), s(300.0), s(0.0), s(0.0), s(5.0), s(1.0));
    system.add_particle(s(6.0), s(300.0), s(0.0), s(0.0), s(5.0), s(1.0));
    system.update(s(1.0 / 60.0));
    assert_eq!(floats(system.get_positions()), vec![0.5, 300.0, 10.5, 300.0]);
}

#[test]
fn equal_velocities_are_kept_in_a_collision() {
    for restitution in [0.0f32, 0.3, 1.0] {
        let mut system = ParticleSystem::new(s(800.0), s(600.0));
        system.set_gravity(s(0.0), s(0.0));
        system.set_damping(s(1.0));
        system.set_restitution(s(restitution));
        system.add_particle(s(400.0), s(300.0), s(3.5), s(-2.25), s(5.0), s(1.0));
        system.add_particle(s(403.0), s(304.0), s(3.5), s(-2.25), s(5.0), s(7.0));
        let before = floats(system.get_positions());
        system.update(s(0.0078125));
        assert_eq!(floats(system.get_velocities()), vec![3.5, -2.25, 3.5, -2.25]);
        // The positions are corrected: the centres lie 10 apart.
        let p = floats(system.get_positions());
        assert!(p[0] < before[0] && p[2] > before[2]);
        let dx = p[2] - p[0];
        let dy = p[3] - p[1];
        assert!(((dx * dx + dy * dy).sqrt() - 10.0).abs() < 1.0e-5);
    }
}

#[test]
fn a_bounce_does_not_add_energy() {
    let mut state = 99u64;
    let mut system = ParticleSystem::new(s(800.0), s(600.0));
    system.set_gravity(s(0.0), s(0.0));
    system.set_damping(s(1.0));
    system.set_restitution(s(0.7));
    // Particles far apart, each on its way out of the rectangle.
    let mut i = 0;
    while i < 5 {
        let vx = next(&mut state) * 900.0 - 450.0;
        let vy = next(&mut state) * 900.0 - 450.0;
        let mass = 0.5 + next(&mut state) * 3.0;
        system.add_particle(s(50.0 + 150.0 * (i as f32)), s(300.0), s(vx), s(vy), s(20.0), s(mass));
        i += 1;
    }
    let mut step = 0;
    let mut hits = 0;
    while step < 200 {
        let before = f(system.get_kinetic_energy());
        let old = floats(system.get_velocities());
        system.update(s(1.0 / 60.0));
        let after = f(system.get_kinetic_energy());
        assert!(after <= before, "step {}", step);
        if floats(system.get_velocities()) != old {
            hits += 1;
        }
        step += 1;
    }
    assert!(hits > 0);
}
