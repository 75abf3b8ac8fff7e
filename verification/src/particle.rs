//! A particle: a disk with position, velocity, radius, mass and a colour,
//! and what one simulation step does to it.

use crate::arith::{difference, product, quotient, sum};
use crate::root::square_root;
use crate::single::{
    half_value, less, negation, two_value, zero_value, Single, Value, HALF_BITS, TWO_BITS,
};
use vstd::prelude::*;

verus! {

/// The colour that a new particle has: white.
pub const DEFAULT_COLOR: u32 = 0xFFFFFF;

/// What a particle stands for: its attributes as values.
pub struct ParticleState {
    pub x: Value,
    pub y: Value,
    pub vx: Value,
    pub vy: Value,
    pub radius: Value,
    pub mass: Value,
    pub color: u32,
}

/// A particle after its velocity has taken up gravity over `dt`, has been
/// damped, and has moved the particle for `dt`.
pub open spec fn integrated(
    p: ParticleState,
    gravity_x: Value,
    gravity_y: Value,
    damping: Value,
    dt: Value,
) -> ParticleState {
    let vx = product(sum(p.vx, product(gravity_x, dt)), damping);
    let vy = product(sum(p.vy, product(gravity_y, dt)), damping);
    ParticleState {
        x: sum(p.x, product(vx, dt)),
        y: sum(p.y, product(vy, dt)),
        vx,
        vy,
        radius: p.radius,
        mass: p.mass,
        color: p.color,
    }
}

/// Whether a disk at `position` crosses the low edge of its axis.
pub open spec fn crosses_low(position: Value, radius: Value) -> bool {
    less(difference(position, radius), zero_value())
}

/// Whether a disk at `position` crosses the high edge `bound` of its axis.
pub open spec fn crosses_high(position: Value, radius: Value, bound: Value) -> bool {
    less(bound, sum(position, radius))
}

/// Position and velocity along one axis after containment in `[0, bound]`:
/// a disk that crosses an edge is put back against it and its velocity is
/// reversed and scaled by the restitution.
pub open spec fn contained_axis(
    position: Value,
    velocity: Value,
    radius: Value,
    bound: Value,
    restitution: Value,
) -> (Value, Value) {
    if crosses_low(position, radius) {
        (radius, product(negation(velocity), restitution))
    } else if crosses_high(position, radius, bound) {
        (difference(bound, radius), product(negation(velocity), restitution))
    } else {
        (position, velocity)
    }
}

/// A particle after containment in the world rectangle, each axis by itself.
pub open spec fn contained(
    p: ParticleState,
    width: Value,
    height: Value,
    restitution: Value,
) -> ParticleState {
    let (x, vx) = contained_axis(p.x, p.vx, p.radius, width, restitution);
    let (y, vy) = contained_axis(p.y, p.vy, p.radius, height, restitution);
    ParticleState { x, y, vx, vy, radius: p.radius, mass: p.mass, color: p.color }
}

/// The distance between the centres of two particles.
pub open spec fn distance(a: ParticleState, b: ParticleState) -> Value {
    let dx = difference(b.x, a.x);
    let dy = difference(b.y, a.y);
    square_root(sum(product(dx, dx), product(dy, dy)))
}

/// Whether two particles overlap with distinct centres: `0 < d < r1 + r2`.
pub open spec fn overlapping(a: ParticleState, b: ParticleState) -> bool {
    let d = distance(a, b);
    less(d, sum(a.radius, b.radius)) && less(zero_value(), d)
}

/// The relative velocity of `b` against `a` along the line of centres.
pub open spec fn approach(a: ParticleState, b: ParticleState) -> Value {
    let d = distance(a, b);
    let nx = quotient(difference(b.x, a.x), d);
    let ny = quotient(difference(b.y, a.y), d);
    sum(product(difference(b.vx, a.vx), nx), product(difference(b.vy, a.vy), ny))
}

/// The scalar impulse of a collision: `2 * dvn / (m1 + m2) * restitution`.
pub open spec fn impulse(a: ParticleState, b: ParticleState, restitution: Value) -> Value {
    product(quotient(product(two_value(), approach(a, b)), sum(a.mass, b.mass)), restitution)
}

/// The two particles of a pair after its collision is resolved. A pair that
/// does not overlap, or whose centres coincide, is left alone. Else each
/// particle moves half the overlap along the line of centres, and, unless
/// the two are already separating, each velocity takes the impulse weighted
/// by the other particle's mass.
pub open spec fn collided(a: ParticleState, b: ParticleState, restitution: Value) -> (
    ParticleState,
    ParticleState,
) {
    if !overlapping(a, b) {
        (a, b)
    } else {
        let d = distance(a, b);
        let nx = quotient(difference(b.x, a.x), d);
        let ny = quotient(difference(b.y, a.y), d);
        let separation = product(difference(sum(a.radius, b.radius), d), half_value());
        let ax = difference(a.x, product(nx, separation));
        let ay = difference(a.y, product(ny, separation));
        let bx = sum(b.x, product(nx, separation));
        let by = sum(b.y, product(ny, separation));
        if less(zero_value(), approach(a, b)) {
            (
                ParticleState {
                    x: ax,
                    y: ay,
                    vx: a.vx,
                    vy: a.vy,
                    radius: a.radius,
                    mass: a.mass,
                    color: a.color,
                },
                ParticleState {
                    x: bx,
                    y: by,
                    vx: b.vx,
                    vy: b.vy,
                    radius: b.radius,
                    mass: b.mass,
                    color: b.color,
                },
            )
        } else {
            let j = impulse(a, b, restitution);
            (
                ParticleState {
                    x: ax,
                    y: ay,
                    vx: sum(a.vx, product(product(j, b.mass), nx)),
                    vy: sum(a.vy, product(product(j, b.mass), ny)),
                    radius: a.radius,
                    mass: a.mass,
                    color: a.color,
                },
                ParticleState {
                    x: bx,
                    y: by,
                    vx: difference(b.vx, product(product(j, a.mass), nx)),
                    vy: difference(b.vy, product(product(j, a.mass), ny)),
                    radius: b.radius,
                    mass: b.mass,
                    color: b.color,
                },
            )
        }
    }
}

/// A particle whose velocity has taken up the force `(fx, fy)` applied for `dt`.
pub open spec fn pushed(p: ParticleState, fx: Value, fy: Value, dt: Value) -> ParticleState {
    ParticleState {
        x: p.x,
        y: p.y,
        vx: sum(p.vx, product(quotient(fx, p.mass), dt)),
        vy: sum(p.vy, product(quotient(fy, p.mass), dt)),
        radius: p.radius,
        mass: p.mass,
        color: p.color,
    }
}

/// The kinetic energy of a particle: `0.5 * mass * (vx^2 + vy^2)`.
pub open spec fn energy(p: ParticleState) -> Value {
    product(product(half_value(), p.mass), sum(product(p.vx, p.vx), product(p.vy, p.vy)))
}

/// A disk with position, velocity, radius, mass and a display colour.
#[derive(Clone, Copy, Debug)]
pub struct Particle {
    x: Single,
    y: Single,
    vx: Single,
    vy: Single,
    radius: Single,
    mass: Single,
    color: u32,
}

impl View for Particle {
    type V = ParticleState;

    closed spec fn view(&self) -> ParticleState {
        ParticleState {
            x: self.x@,
            y: self.y@,
            vx: self.vx@,
            vy: self.vy@,
            radius: self.radius@,
            mass: self.mass@,
            color: self.color,
        }
    }
}

impl Particle {
    /// A white particle with the given attributes.
    pub fn new(x: Single, y: Single, vx: Single, vy: Single, radius: Single, mass: Single) -> (p:
        Particle)
        ensures
            p@ == (ParticleState {
                x: x@,
                y: y@,
                vx: vx@,
                vy: vy@,
                radius: radius@,
                mass: mass@,
                color: DEFAULT_COLOR,
            }),
    {
        Particle { x, y, vx, vy, radius, mass, color: DEFAULT_COLOR }
    }

    /// The horizontal position.
    pub fn x(&self) -> (r: Single)
        ensures
            r@ == self@.x,
    {
        self.x
    }

    /// The vertical position.
    pub fn y(&self) -> (r: Single)
        ensures
            r@ == self@.y,
    {
        self.y
    }

    /// The horizontal velocity.
    pub fn vx(&self) -> (r: Single)
        ensures
            r@ == self@.vx,
    {
        self.vx
    }

    /// The vertical velocity.
    pub fn vy(&self) -> (r: Single)
        ensures
            r@ == self@.vy,
    {
        self.vy
    }

    /// The radius.
    pub fn radius(&self) -> (r: Single)
        ensures
            r@ == self@.radius,
    {
        self.radius
    }

    /// The mass.
    pub fn mass(&self) -> (r: Single)
        ensures
            r@ == self@.mass,
    {
        self.mass
    }

    /// The display colour.
    pub fn color(&self) -> (c: u32)
        ensures
            c == self@.color,
    {
        self.color
    }

    /// Gives the particle another colour; nothing else changes.
    pub fn set_color(&mut self, color: u32)
        ensures
            final(self)@ == (ParticleState { color, ..old(self)@ }),
    {
        self.color = color;
    }

    /// The particle at another position.
    pub(crate) fn at(self, x: Single, y: Single) -> (p: Particle)
        ensures
            p@ == (ParticleState { x: x@, y: y@, ..self@ }),
    {
        Particle { x, y, ..self }
    }

    /// The particle with another velocity.
    pub(crate) fn moving(self, vx: Single, vy: Single) -> (p: Particle)
        ensures
            p@ == (ParticleState { vx: vx@, vy: vy@, ..self@ }),
    {
        Particle { vx, vy, ..self }
    }

    /// The particle after gravity, damping and motion over `dt`.
    pub(crate) fn integrate(
        self,
        gravity_x: Single,
        gravity_y: Single,
        damping: Single,
        dt: Single,
    ) -> (p: Particle)
        ensures
            p@ == integrated(self@, gravity_x@, gravity_y@, damping@, dt@),
    {
        let vx = self.vx.add(gravity_x.mul(dt)).mul(damping);
        let vy = self.vy.add(gravity_y.mul(dt)).mul(damping);
        Particle { x: self.x.add(vx.mul(dt)), y: self.y.add(vy.mul(dt)), vx, vy, ..self }
    }

    /// The particle after containment in the world rectangle.
    pub(crate) fn contain(self, width: Single, height: Single, restitution: Single) -> (p:
        Particle)
        ensures
            p@ == contained(self@, width@, height@, restitution@),
    {
        let (x, vx) = contain_axis(self.x, self.vx, self.radius, width, restitution);
        let (y, vy) = contain_axis(self.y, self.vy, self.radius, height, restitution);
        Particle { x, y, vx, vy, ..self }
    }

    /// The particle after the force `(fx, fy)` has acted on it for `dt`.
    pub(crate) fn push(self, fx: Single, fy: Single, dt: Single) -> (p: Particle)
        ensures
            p@ == pushed(self@, fx@, fy@, dt@),
    {
        let ax = fx.div(self.mass);
        let ay = fy.div(self.mass);
        Particle { vx: self.vx.add(ax.mul(dt)), vy: self.vy.add(ay.mul(dt)), ..self }
    }

    /// The kinetic energy of the particle.
    pub(crate) fn kinetic_energy(&self) -> (e: Single)
        ensures
            e@ == energy(self@),
    {
        let speed_squared = self.vx.mul(self.vx).add(self.vy.mul(self.vy));
        Single::from_bits(HALF_BITS).mul(self.mass).mul(speed_squared)
    }

    /// The two particles of a pair after its collision is resolved.
    pub(crate) fn collide(a: Particle, b: Particle, restitution: Single) -> (r: (
        Particle,
        Particle,
    ))
        ensures
            (r.0@, r.1@) == collided(a@, b@, restitution@),
    {
        let zero = Single::zero(false);
        let dx = b.x.sub(a.x);
        let dy = b.y.sub(a.y);
        let d = dx.mul(dx).add(dy.mul(dy)).sqrt();
        let reach = a.radius.add(b.radius);
        if !(d.lt(reach) && d.gt(zero)) {
            return (a, b);
        }
        let nx = dx.div(d);
        let ny = dy.div(d);
        let separation = reach.sub(d).mul(Single::from_bits(HALF_BITS));
        let ax = a.x.sub(nx.mul(separation));
        let ay = a.y.sub(ny.mul(separation));
        let bx = b.x.add(nx.mul(separation));
        let by = b.y.add(ny.mul(separation));
        let dvn = b.vx.sub(a.vx).mul(nx).add(b.vy.sub(a.vy).mul(ny));
        if dvn.gt(zero) {
            return (Particle { x: ax, y: ay, ..a }, Particle { x: bx, y: by, ..b });
        }
        let j = Single::from_bits(TWO_BITS).mul(dvn).div(a.mass.add(b.mass)).mul(restitution);
        (
            Particle {
                x: ax,
                y: ay,
                vx: a.vx.add(j.mul(b.mass).mul(nx)),
                vy: a.vy.add(j.mul(b.mass).mul(ny)),
                ..a
            },
            Particle {
                x: bx,
                y: by,
                vx: b.vx.sub(j.mul(a.mass).mul(nx)),
                vy: b.vy.sub(j.mul(a.mass).mul(ny)),
                ..b
            },
        )
    }
}

/// Position and velocity along one axis after containment in `[0, bound]`.
fn contain_axis(
    position: Single,
    velocity: Single,
    radius: Single,
    bound: Single,
    restitution: Single,
) -> (r: (Single, Single))
    ensures
        (r.0@, r.1@) == contained_axis(position@, velocity@, radius@, bound@, restitution@),
{
    if position.sub(radius).lt(Single::zero(false)) {
        (radius, velocity.neg().mul(restitution))
    } else if position.add(radius).gt(bound) {
        (bound.sub(radius), velocity.neg().mul(restitution))
    } else {
        (position, velocity)
    }
}

} // verus!
