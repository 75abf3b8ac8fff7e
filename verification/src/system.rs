//! The particle system: an ordered collection of particles inside a world
//! rectangle, with gravity, damping and restitution, advanced step by step.

use crate::arith::sum;
use crate::particle::{
    collided, contained, energy, integrated, pushed, Particle, ParticleState, DEFAULT_COLOR,
};
use crate::single::{
    at_most, decode, less, lemma_order_by_bits, maximum, minimum, one_value, values, zero_value,
    Single, Value, ONE_BITS,
};
use vstd::prelude::*;

verus! {

/// The bit pattern of the default gravity, 9.81 * 10 rounded: about 98.1
/// units per second squared, downward.
pub const DEFAULT_GRAVITY_BITS: u32 = 0x42c4_3334;

/// The bit pattern of the default damping, 0.99.
pub const DEFAULT_DAMPING_BITS: u32 = 0x3f7d_70a4;

/// The bit pattern of the default restitution, 0.8.
pub const DEFAULT_RESTITUTION_BITS: u32 = 0x3f4c_cccd;

/// The bit pattern of the default time step, 1 / 60 rounded.
pub const DEFAULT_TIME_STEP_BITS: u32 = 0x3c88_8889;

/// The bit pattern of the shortest time step, 0.001.
pub const MIN_TIME_STEP_BITS: u32 = 0x3a83_126f;

/// The bit pattern of the longest time step, 0.1.
pub const MAX_TIME_STEP_BITS: u32 = 0x3dcc_cccd;

/// The bit pattern of the least width and height that can be set, 100.
pub const MIN_BOUND_BITS: u32 = 0x42c8_0000;

/// What a particle system stands for.
pub struct SystemState {
    pub particles: Seq<ParticleState>,
    pub width: Value,
    pub height: Value,
    pub gravity_x: Value,
    pub gravity_y: Value,
    pub damping: Value,
    pub restitution: Value,
    pub time_step: Value,
}

/// `x` brought into `[low, high]`: raised to `low`, then lowered to `high`.
/// What is not a number becomes `low`.
pub open spec fn clamped(x: Value, low: Value, high: Value) -> Value {
    minimum(maximum(x, low), high)
}

/// Whether `low <= x <= high`.
pub open spec fn within(x: Value, low: Value, high: Value) -> bool {
    at_most(low, x) && at_most(x, high)
}

/// The invariant of the parameters: width and height are at least 100,
/// damping and restitution lie in `[0, 1]`, the time step in `[0.001, 0.1]`.
pub open spec fn parameters_valid(s: SystemState) -> bool {
    &&& at_most(decode(MIN_BOUND_BITS), s.width)
    &&& at_most(decode(MIN_BOUND_BITS), s.height)
    &&& within(s.damping, zero_value(), one_value())
    &&& within(s.restitution, zero_value(), one_value())
    &&& within(s.time_step, decode(MIN_TIME_STEP_BITS), decode(MAX_TIME_STEP_BITS))
}

/// The duration of a step: `dt` where it is positive, else the system's own
/// time step.
pub open spec fn step_duration(s: SystemState, dt: Value) -> Value {
    if less(zero_value(), dt) {
        dt
    } else {
        s.time_step
    }
}

/// Every particle integrated over `dt`.
pub open spec fn integrated_all(
    ps: Seq<ParticleState>,
    gravity_x: Value,
    gravity_y: Value,
    damping: Value,
    dt: Value,
) -> Seq<ParticleState> {
    Seq::new(ps.len(), |i: int| integrated(ps[i], gravity_x, gravity_y, damping, dt))
}

/// Every particle contained in the world rectangle.
pub open spec fn contained_all(
    ps: Seq<ParticleState>,
    width: Value,
    height: Value,
    restitution: Value,
) -> Seq<ParticleState> {
    Seq::new(ps.len(), |i: int| contained(ps[i], width, height, restitution))
}

/// The particles after the collision of the pair `(i, j)` is resolved.
pub open spec fn pair_resolved(ps: Seq<ParticleState>, i: int, j: int, restitution: Value) -> Seq<
    ParticleState,
> {
    let r = collided(ps[i], ps[j], restitution);
    ps.update(i, r.0).update(j, r.1)
}

/// The particles after the pairs `(i, i + 1)`, ..., `(i, end - 1)` are
/// resolved one after the other, each on what the one before left.
pub open spec fn row_resolved(ps: Seq<ParticleState>, i: int, end: int, restitution: Value) -> Seq<
    ParticleState,
>
    decreases end - i,
{
    if end <= i + 1 {
        ps
    } else {
        pair_resolved(row_resolved(ps, i, end - 1, restitution), i, end - 1, restitution)
    }
}

/// The particles after the rows of the particles `0`, ..., `rows - 1` are
/// resolved one after the other.
pub open spec fn rows_resolved(ps: Seq<ParticleState>, rows: int, restitution: Value) -> Seq<
    ParticleState,
>
    decreases rows,
{
    if rows <= 0 {
        ps
    } else {
        row_resolved(
            rows_resolved(ps, rows - 1, restitution),
            rows - 1,
            ps.len() as int,
            restitution,
        )
    }
}

/// The particles after every pair `(i, j)` with `i < j` is resolved, the
/// first index ascending and under it the second.
pub open spec fn resolved(ps: Seq<ParticleState>, restitution: Value) -> Seq<ParticleState> {
    rows_resolved(ps, ps.len() as int, restitution)
}

/// The system after one step: every particle integrated, then every
/// particle contained, then all pairs resolved. The parameters stay.
pub open spec fn stepped(s: SystemState, dt: Value) -> SystemState {
    let d = step_duration(s, dt);
    let moved = integrated_all(s.particles, s.gravity_x, s.gravity_y, s.damping, d);
    let kept = contained_all(moved, s.width, s.height, s.restitution);
    SystemState { particles: resolved(kept, s.restitution), ..s }
}

/// The sum of the kinetic energies, added up in the particles' order from zero.
pub open spec fn total_energy(ps: Seq<ParticleState>) -> Value
    decreases ps.len(),
{
    if ps.len() == 0 {
        zero_value()
    } else {
        sum(total_energy(ps.drop_last()), energy(ps.last()))
    }
}

/// The positions flattened: `x0, y0, x1, y1, ...`.
pub open spec fn positions(ps: Seq<ParticleState>) -> Seq<Value> {
    Seq::new(
        2 * ps.len(),
        |k: int|
            if k % 2 == 0 {
                ps[k / 2].x
            } else {
                ps[k / 2].y
            },
    )
}

/// The velocities flattened: `vx0, vy0, vx1, vy1, ...`.
pub open spec fn velocities(ps: Seq<ParticleState>) -> Seq<Value> {
    Seq::new(
        2 * ps.len(),
        |k: int|
            if k % 2 == 0 {
                ps[k / 2].vx
            } else {
                ps[k / 2].vy
            },
    )
}

/// One attribute of a particle by its place in the flattened record:
/// position, velocity, radius, mass.
pub open spec fn attribute(p: ParticleState, place: int) -> Value {
    if place == 0 {
        p.x
    } else if place == 1 {
        p.y
    } else if place == 2 {
        p.vx
    } else if place == 3 {
        p.vy
    } else if place == 4 {
        p.radius
    } else {
        p.mass
    }
}

/// The particles flattened, six values each: `x, y, vx, vy, radius, mass`.
pub open spec fn particle_data(ps: Seq<ParticleState>) -> Seq<Value> {
    Seq::new(6 * ps.len(), |k: int| attribute(ps[k / 6], k % 6))
}

/// The colours in the particles' order.
pub open spec fn colors(ps: Seq<ParticleState>) -> Seq<u32> {
    Seq::new(ps.len(), |i: int| ps[i].color)
}

/// The states that a sequence of particles stands for.
pub open spec fn states(v: Seq<Particle>) -> Seq<ParticleState> {
    Seq::new(v.len(), |i: int| v[i]@)
}

/// Resolving a row leaves the number of particles as it was.
pub proof fn lemma_row_resolved_len(ps: Seq<ParticleState>, i: int, end: int, restitution: Value)
    requires
        0 <= i,
        end <= ps.len(),
    ensures
        row_resolved(ps, i, end, restitution).len() == ps.len(),
    decreases end - i,
{
    if end > i + 1 {
        lemma_row_resolved_len(ps, i, end - 1, restitution);
        let before = row_resolved(ps, i, end - 1, restitution);
        let r = collided(before[i], before[end - 1], restitution);
        assert(row_resolved(ps, i, end, restitution) == before.update(i, r.0).update(end - 1, r.1));
    } else {
        assert(row_resolved(ps, i, end, restitution) == ps);
    }
}

/// Resolving rows leaves the number of particles as it was.
pub proof fn lemma_rows_resolved_len(ps: Seq<ParticleState>, rows: int, restitution: Value)
    requires
        rows <= ps.len(),
    ensures
        rows_resolved(ps, rows, restitution).len() == ps.len(),
    decreases rows,
{
    if rows > 0 {
        lemma_rows_resolved_len(ps, rows - 1, restitution);
        lemma_row_resolved_len(
            rows_resolved(ps, rows - 1, restitution),
            rows - 1,
            ps.len() as int,
            restitution,
        );
    }
}

/// A clamped value lies within its bounds, whatever was clamped, as long as
/// the bounds are numbers in order.
pub proof fn lemma_clamped_within(x: Value, low: Value, high: Value)
    requires
        at_most(low, high),
    ensures
        within(clamped(x, low, high), low, high),
        within(x, low, high) ==> clamped(x, low, high) == x,
        less(x, low) ==> clamped(x, low, high) == low,
        less(high, x) ==> clamped(x, low, high) == high,
        x is Nan ==> clamped(x, low, high) == low,
{
}

/// The bounds of the parameters are in order, and the defaults lie within them.
pub proof fn lemma_default_parameters()
    ensures
        at_most(zero_value(), one_value()),
        at_most(decode(MIN_TIME_STEP_BITS), decode(MAX_TIME_STEP_BITS)),
        within(decode(DEFAULT_DAMPING_BITS), zero_value(), one_value()),
        within(decode(DEFAULT_RESTITUTION_BITS), zero_value(), one_value()),
        within(
            decode(DEFAULT_TIME_STEP_BITS),
            decode(MIN_TIME_STEP_BITS),
            decode(MAX_TIME_STEP_BITS),
        ),
{
    lemma_order_by_bits(0, ONE_BITS);
    lemma_order_by_bits(0, DEFAULT_DAMPING_BITS);
    lemma_order_by_bits(DEFAULT_DAMPING_BITS, ONE_BITS);
    lemma_order_by_bits(0, DEFAULT_RESTITUTION_BITS);
    lemma_order_by_bits(DEFAULT_RESTITUTION_BITS, ONE_BITS);
    lemma_order_by_bits(MIN_TIME_STEP_BITS, MAX_TIME_STEP_BITS);
    lemma_order_by_bits(MIN_TIME_STEP_BITS, DEFAULT_TIME_STEP_BITS);
    lemma_order_by_bits(DEFAULT_TIME_STEP_BITS, MAX_TIME_STEP_BITS);
}

/// A 2D particle simulation: particles in a world rectangle.
pub struct ParticleSystem {
    particles: Vec<Particle>,
    width: Single,
    height: Single,
    gravity_x: Single,
    gravity_y: Single,
    damping: Single,
    restitution: Single,
    time_step: Single,
}

impl View for ParticleSystem {
    type V = SystemState;

    closed spec fn view(&self) -> SystemState {
        SystemState {
            particles: states(self.particles@),
            width: self.width@,
            height: self.height@,
            gravity_x: self.gravity_x@,
            gravity_y: self.gravity_y@,
            damping: self.damping@,
            restitution: self.restitution@,
            time_step: self.time_step@,
        }
    }
}

impl ParticleSystem {
    /// An empty system with the given bounds, each raised to at least 100,
    /// and the default parameters: gravity about 98.1 downward, damping
    /// 0.99, restitution 0.8, time step 1/60.
    pub fn new(width: Single, height: Single) -> (s: ParticleSystem)
        ensures
            s@ == (SystemState {
                particles: Seq::empty(),
                width: maximum(width@, decode(MIN_BOUND_BITS)),
                height: maximum(height@, decode(MIN_BOUND_BITS)),
                gravity_x: zero_value(),
                gravity_y: decode(DEFAULT_GRAVITY_BITS),
                damping: decode(DEFAULT_DAMPING_BITS),
                restitution: decode(DEFAULT_RESTITUTION_BITS),
                time_step: decode(DEFAULT_TIME_STEP_BITS),
            }),
            at_most(decode(MIN_BOUND_BITS), s@.width),
            at_most(decode(MIN_BOUND_BITS), s@.height),
            parameters_valid(s@),
    {
        let s = ParticleSystem {
            particles: Vec::new(),
            width: width.max(Single::from_bits(MIN_BOUND_BITS)),
            height: height.max(Single::from_bits(MIN_BOUND_BITS)),
            gravity_x: Single::from_bits(0),
            gravity_y: Single::from_bits(DEFAULT_GRAVITY_BITS),
            damping: Single::from_bits(DEFAULT_DAMPING_BITS),
            restitution: Single::from_bits(DEFAULT_RESTITUTION_BITS),
            time_step: Single::from_bits(DEFAULT_TIME_STEP_BITS),
        };
        proof {
            lemma_default_parameters();
            assert(s@.particles =~= Seq::empty());
        }
        s
    }

    /// Appends a white particle and returns its index.
    pub fn add_particle(
        &mut self,
        x: Single,
        y: Single,
        vx: Single,
        vy: Single,
        radius: Single,
        mass: Single,
    ) -> (index: usize)
        ensures
            index == old(self)@.particles.len(),
            final(self)@ == (SystemState {
                particles: old(self)@.particles.push(
                    ParticleState {
                        x: x@,
                        y: y@,
                        vx: vx@,
                        vy: vy@,
                        radius: radius@,
                        mass: mass@,
                        color: DEFAULT_COLOR,
                    },
                ),
                ..old(self)@
            }),
    {
        let particle = Particle::new(x, y, vx, vy, radius, mass);
        let index = self.particles.len();
        self.particles.push(particle);
        proof {
            assert(final(self)@.particles =~= old(self)@.particles.push(particle@));
        }
        index
    }

    /// The number of particles.
    pub fn get_particle_count(&self) -> (n: usize)
        ensures
            n == self@.particles.len(),
    {
        self.particles.len()
    }

    /// Sets the gravity; nothing else changes.
    pub fn set_gravity(&mut self, x: Single, y: Single)
        ensures
            final(self)@ == (SystemState { gravity_x: x@, gravity_y: y@, ..old(self)@ }),
    {
        self.gravity_x = x;
        self.gravity_y = y;
    }

    /// Sets the damping, brought into `[0, 1]`; nothing else changes.
    pub fn set_damping(&mut self, damping: Single)
        ensures
            final(self)@ == (SystemState {
                damping: clamped(damping@, zero_value(), one_value()),
                ..old(self)@
            }),
            within(final(self)@.damping, zero_value(), one_value()),
            parameters_valid(old(self)@) ==> parameters_valid(final(self)@),
    {
        proof {
            lemma_default_parameters();
            lemma_clamped_within(damping@, zero_value(), one_value());
        }
        self.damping = damping.max(Single::from_bits(0)).min(Single::from_bits(ONE_BITS));
    }

    /// Sets the restitution, brought into `[0, 1]`; nothing else changes.
    pub fn set_restitution(&mut self, restitution: Single)
        ensures
            final(self)@ == (SystemState {
                restitution: clamped(restitution@, zero_value(), one_value()),
                ..old(self)@
            }),
            within(final(self)@.restitution, zero_value(), one_value()),
            parameters_valid(old(self)@) ==> parameters_valid(final(self)@),
    {
        proof {
            lemma_default_parameters();
            lemma_clamped_within(restitution@, zero_value(), one_value());
        }
        self.restitution = restitution.max(Single::from_bits(0)).min(Single::from_bits(ONE_BITS));
    }

    /// Sets the time step, brought into `[0.001, 0.1]`; nothing else changes.
    pub fn set_time_step(&mut self, dt: Single)
        ensures
            final(self)@ == (SystemState {
                time_step: clamped(dt@, decode(MIN_TIME_STEP_BITS), decode(MAX_TIME_STEP_BITS)),
                ..old(self)@
            }),
            within(final(self)@.time_step, decode(MIN_TIME_STEP_BITS), decode(MAX_TIME_STEP_BITS)),
            parameters_valid(old(self)@) ==> parameters_valid(final(self)@),
    {
        proof {
            lemma_default_parameters();
            lemma_clamped_within(dt@, decode(MIN_TIME_STEP_BITS), decode(MAX_TIME_STEP_BITS));
        }
        self.time_step = dt.max(Single::from_bits(MIN_TIME_STEP_BITS)).min(
            Single::from_bits(MAX_TIME_STEP_BITS),
        );
    }

    /// Sets the bounds, each raised to at least 100; the particles stay
    /// where they are.
    pub fn set_bounds(&mut self, width: Single, height: Single)
        ensures
            final(self)@ == (SystemState {
                width: maximum(width@, decode(MIN_BOUND_BITS)),
                height: maximum(height@, decode(MIN_BOUND_BITS)),
                ..old(self)@
            }),
            at_most(decode(MIN_BOUND_BITS), final(self)@.width),
            at_most(decode(MIN_BOUND_BITS), final(self)@.height),
            parameters_valid(old(self)@) ==> parameters_valid(final(self)@),
    {
        self.width = width.max(Single::from_bits(MIN_BOUND_BITS));
        self.height = height.max(Single::from_bits(MIN_BOUND_BITS));
    }

    /// The world rectangle: `0, 0, width, height`.
    pub fn get_bounds(&self) -> (r: Vec<Single>)
        ensures
            values(r@) == seq![zero_value(), zero_value(), self@.width, self@.height],
    {
        let mut r: Vec<Single> = Vec::new();
        r.push(Single::from_bits(0));
        r.push(Single::from_bits(0));
        r.push(self.width);
        r.push(self.height);
        proof {
            assert(values(r@) =~= seq![zero_value(), zero_value(), self@.width, self@.height]);
        }
        r
    }

    /// Removes every particle; the parameters stay.
    pub fn clear_particles(&mut self)
        ensures
            final(self)@ == (SystemState { particles: Seq::empty(), ..old(self)@ }),
    {
        self.particles.clear();
        proof {
            assert(final(self)@.particles =~= Seq::empty());
        }
    }

    /// Puts the particle at `index` at `(x, y)`. Does nothing where there
    /// is no such particle.
    pub fn set_particle_position(&mut self, index: usize, x: Single, y: Single)
        ensures
            index < old(self)@.particles.len() ==> final(self)@ == (SystemState {
                particles: old(self)@.particles.update(
                    index as int,
                    ParticleState { x: x@, y: y@, ..old(self)@.particles[index as int] },
                ),
                ..old(self)@
            }),
            index >= old(self)@.particles.len() ==> final(self)@ == old(self)@,
    {
        if index < self.particles.len() {
            let moved = self.particles[index].at(x, y);
            self.particles.set(index, moved);
            proof {
                assert(final(self)@.particles =~= old(self)@.particles.update(
                    index as int,
                    moved@,
                ));
            }
        }
    }

    /// Gives the particle at `index` the velocity `(vx, vy)`. Does nothing
    /// where there is no such particle.
    pub fn set_particle_velocity(&mut self, index: usize, vx: Single, vy: Single)
        ensures
            index < old(self)@.particles.len() ==> final(self)@ == (SystemState {
                particles: old(self)@.particles.update(
                    index as int,
                    ParticleState { vx: vx@, vy: vy@, ..old(self)@.particles[index as int] },
                ),
                ..old(self)@
            }),
            index >= old(self)@.particles.len() ==> final(self)@ == old(self)@,
    {
        if index < self.particles.len() {
            let moved = self.particles[index].moving(vx, vy);
            self.particles.set(index, moved);
            proof {
                assert(final(self)@.particles =~= old(self)@.particles.update(
                    index as int,
                    moved@,
                ));
            }
        }
    }

    /// Lets the force `(fx, fy)` act on the particle at `index` for the
    /// system's own time step. Does nothing where there is no such particle.
    pub fn add_force_to_particle(&mut self, index: usize, fx: Single, fy: Single)
        ensures
            index < old(self)@.particles.len() ==> final(self)@ == (SystemState {
                particles: old(self)@.particles.update(
                    index as int,
                    pushed(old(self)@.particles[index as int], fx@, fy@, old(self)@.time_step),
                ),
                ..old(self)@
            }),
            index >= old(self)@.particles.len() ==> final(self)@ == old(self)@,
    {
        if index < self.particles.len() {
            let moved = self.particles[index].push(fx, fy, self.time_step);
            self.particles.set(index, moved);
            proof {
                assert(final(self)@.particles =~= old(self)@.particles.update(
                    index as int,
                    moved@,
                ));
            }
        }
    }

    /// Advances the system by one step of `dt`, or of the system's own
    /// time step where `dt` is not positive: integrates every particle,
    /// then contains every particle, then resolves all pairs.
    pub fn update(&mut self, dt: Single)
        ensures
            final(self)@ == stepped(old(self)@, dt@),
            final(self)@.particles.len() == old(self)@.particles.len(),
    {
        let actual_dt = if dt.gt(Single::from_bits(0)) {
            dt
        } else {
            self.time_step
        };
        integrate_all(
            &mut self.particles,
            self.gravity_x,
            self.gravity_y,
            self.damping,
            actual_dt,
        );
        contain_all(&mut self.particles, self.width, self.height, self.restitution);
        resolve_collisions(&mut self.particles, self.restitution);
        proof {
            let kept = contained_all(
                integrated_all(
                    old(self)@.particles,
                    old(self)@.gravity_x,
                    old(self)@.gravity_y,
                    old(self)@.damping,
                    actual_dt@,
                ),
                old(self)@.width,
                old(self)@.height,
                old(self)@.restitution,
            );
            lemma_rows_resolved_len(kept, kept.len() as int, old(self)@.restitution);
        }
    }

    /// The positions of the particles, flattened: `x0, y0, x1, y1, ...`.
    pub fn get_positions(&self) -> (r: Vec<Single>)
        ensures
            values(r@) == positions(self@.particles),
    {
        let mut r: Vec<Single> = Vec::new();
        let n = self.particles.len();
        let mut i: usize = 0;
        while i < n
            invariant
                i <= n == self.particles.len(),
                r@.len() == 2 * i,
                forall|k: int| 0 <= k < i ==> r@[2 * k]@ == self.particles@[k]@.x,
                forall|k: int| 0 <= k < i ==> r@[2 * k + 1]@ == self.particles@[k]@.y,
            decreases n - i,
        {
            r.push(self.particles[i].x());
            r.push(self.particles[i].y());
            i = i + 1;
        }
        proof {
            assert forall|k: int| 0 <= k < 2 * n implies values(r@)[k] == positions(
                self@.particles,
            )[k] by {
                let h = k / 2;
                assert(k == 2 * h || k == 2 * h + 1);
            }
            assert(values(r@) =~= positions(self@.particles));
        }
        r
    }

    /// The velocities of the particles, flattened: `vx0, vy0, vx1, vy1, ...`.
    pub fn get_velocities(&self) -> (r: Vec<Single>)
        ensures
            values(r@) == velocities(self@.particles),
    {
        let mut r: Vec<Single> = Vec::new();
        let n = self.particles.len();
        let mut i: usize = 0;
        while i < n
            invariant
                i <= n == self.particles.len(),
                r@.len() == 2 * i,
                forall|k: int| 0 <= k < i ==> r@[2 * k]@ == self.particles@[k]@.vx,
                forall|k: int| 0 <= k < i ==> r@[2 * k + 1]@ == self.particles@[k]@.vy,
            decreases n - i,
        {
            r.push(self.particles[i].vx());
            r.push(self.particles[i].vy());
            i = i + 1;
        }
        proof {
            assert forall|k: int| 0 <= k < 2 * n implies values(r@)[k] == velocities(
                self@.particles,
            )[k] by {
                let h = k / 2;
                assert(k == 2 * h || k == 2 * h + 1);
            }
            assert(values(r@) =~= velocities(self@.particles));
        }
        r
    }

    /// Position, velocity, radius and mass of every particle, flattened,
    /// six values each.
    pub fn get_particle_data(&self) -> (r: Vec<Single>)
        ensures
            values(r@) == particle_data(self@.particles),
    {
        let mut r: Vec<Single> = Vec::new();
        let n = self.particles.len();
        let mut i: usize = 0;
        while i < n
            invariant
                i <= n == self.particles.len(),
                r@.len() == 6 * i,
                forall|k: int, place: int|
                    0 <= k < i && 0 <= place < 6 ==> #[trigger] r@[6 * k + place]@ == attribute(
                        self.particles@[k]@,
                        place,
                    ),
            decreases n - i,
        {
            let particle = self.particles[i];
            let ghost before = r@;
            r.push(particle.x());
            r.push(particle.y());
            r.push(particle.vx());
            r.push(particle.vy());
            r.push(particle.radius());
            r.push(particle.mass());
            proof {
                assert forall|k: int, place: int| 0 <= k < i + 1 && 0 <= place < 6 implies #[trigger] r@[6
                    * k + place]@ == attribute(self.particles@[k]@, place) by {
                    if k < i {
                        assert(r@[6 * k + place] == before[6 * k + place]);
                    }
                }
            }
            i = i + 1;
        }
        proof {
            assert forall|k: int| 0 <= k < 6 * n implies values(r@)[k] == particle_data(
                self@.particles,
            )[k] by {
                let h = k / 6;
                let place = k % 6;
                assert(k == 6 * h + place);
                assert(r@[6 * h + place]@ == attribute(self.particles@[h]@, place));
            }
            assert(values(r@) =~= particle_data(self@.particles));
        }
        r
    }

    /// The colours of the particles, in their order.
    pub fn get_colors(&self) -> (r: Vec<u32>)
        ensures
            r@ == colors(self@.particles),
    {
        let mut r: Vec<u32> = Vec::new();
        let n = self.particles.len();
        let mut i: usize = 0;
        while i < n
            invariant
                i <= n == self.particles.len(),
                r@.len() == i,
                forall|k: int| 0 <= k < i ==> r@[k] == self.particles@[k]@.color,
            decreases n - i,
        {
            r.push(self.particles[i].color());
            i = i + 1;
        }
        proof {
            assert(r@ =~= colors(self@.particles));
        }
        r
    }

    /// The kinetic energy of the system: the sum over the particles of
    /// `0.5 * mass * (vx^2 + vy^2)`, added up in their order.
    pub fn get_kinetic_energy(&self) -> (e: Single)
        ensures
            e@ == total_energy(self@.particles),
    {
        let mut total = Single::from_bits(0);
        let n = self.particles.len();
        let mut i: usize = 0;
        while i < n
            invariant
                i <= n == self.particles.len(),
                total@ == total_energy(states(self.particles@).take(i as int)),
            decreases n - i,
        {
            proof {
                let next = states(self.particles@).take(i + 1);
                assert(next.drop_last() =~= states(self.particles@).take(i as int));
                assert(next.last() == self.particles@[i as int]@);
            }
            total = total.add(self.particles[i].kinetic_energy());
            i = i + 1;
        }
        proof {
            assert(states(self.particles@).take(n as int) =~= states(self.particles@));
        }
        total
    }
}

/// Integrates every particle over `dt`.
fn integrate_all(
    particles: &mut Vec<Particle>,
    gravity_x: Single,
    gravity_y: Single,
    damping: Single,
    dt: Single,
)
    ensures
        states(final(particles)@) == integrated_all(
            states(old(particles)@),
            gravity_x@,
            gravity_y@,
            damping@,
            dt@,
        ),
{
    let n = particles.len();
    let mut i: usize = 0;
    while i < n
        invariant
            i <= n == particles.len() == old(particles).len(),
            forall|k: int|
                0 <= k < i ==> particles@[k]@ == integrated(
                    old(particles)@[k]@,
                    gravity_x@,
                    gravity_y@,
                    damping@,
                    dt@,
                ),
            forall|k: int| i <= k < n ==> particles@[k] == old(particles)@[k],
        decreases n - i,
    {
        let moved = particles[i].integrate(gravity_x, gravity_y, damping, dt);
        particles.set(i, moved);
        i = i + 1;
    }
    proof {
        assert(states(particles@) =~= integrated_all(
            states(old(particles)@),
            gravity_x@,
            gravity_y@,
            damping@,
            dt@,
        ));
    }
}

/// Contains every particle in the world rectangle.
fn contain_all(particles: &mut Vec<Particle>, width: Single, height: Single, restitution: Single)
    ensures
        states(final(particles)@) == contained_all(
            states(old(particles)@),
            width@,
            height@,
            restitution@,
        ),
{
    let n = particles.len();
    let mut i: usize = 0;
    while i < n
        invariant
            i <= n == particles.len() == old(particles).len(),
            forall|k: int|
                0 <= k < i ==> particles@[k]@ == contained(
                    old(particles)@[k]@,
                    width@,
                    height@,
                    restitution@,
                ),
            forall|k: int| i <= k < n ==> particles@[k] == old(particles)@[k],
        decreases n - i,
    {
        let kept = particles[i].contain(width, height, restitution);
        particles.set(i, kept);
        i = i + 1;
    }
    proof {
        assert(states(particles@) =~= contained_all(
            states(old(particles)@),
            width@,
            height@,
            restitution@,
        ));
    }
}

/// Resolves the collisions of all pairs `(i, j)` with `i < j`, the first
/// index ascending and under it the second, each pair on what the pairs
/// before it left.
fn resolve_collisions(particles: &mut Vec<Particle>, restitution: Single)
    ensures
        states(final(particles)@) == resolved(states(old(particles)@), restitution@),
{
    let n = particles.len();
    let ghost start = states(particles@);
    let mut i: usize = 0;
    while i < n
        invariant
            i <= n == particles.len() == start.len(),
            states(particles@) == rows_resolved(start, i as int, restitution@),
        decreases n - i,
    {
        let ghost row_start = states(particles@);
        let mut j: usize = i + 1;
        while j < n
            invariant
                i < n == particles.len() == row_start.len(),
                i + 1 <= j <= n,
                states(particles@) == row_resolved(row_start, i as int, j as int, restitution@),
            decreases n - j,
        {
            let ghost before = states(particles@);
            let (a, b) = Particle::collide(particles[i], particles[j], restitution);
            particles.set(i, a);
            particles.set(j, b);
            proof {
                assert(states(particles@) =~= before.update(i as int, a@).update(j as int, b@));
            }
            j = j + 1;
        }
        i = i + 1;
    }
}

} // verus!
