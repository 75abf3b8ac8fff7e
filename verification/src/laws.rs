//! What holds of every step of a particle system.

use crate::arith::{
    difference, law_bounce_slows, law_difference_of_equals, law_doubling_cancels,
    law_half_is_smaller, law_positive_sum, law_product_commutes, law_product_one,
    law_results_encodable, law_square_of_zero, law_sum_commutes, law_sum_zero, law_zero_quotient,
    law_zero_times_finite, lemma_difference_sign, lemma_encodable_form, lemma_infinite_absorbs,
    lemma_product_finite, lemma_product_monotonic, lemma_quotient_value, lemma_room_for_radius,
    lemma_square_value, lemma_sum_encodable, lemma_sum_finite, lemma_sum_monotonic,
    lemma_sum_of_squares, lemma_zero_encodable, no_larger, product, quotient, sum,
};
use crate::root::{lemma_root_lower, lemma_root_value, rounded_root_units, square_root};
use crate::rounding::{
    bit_length, lemma_bit_length_bounds, lemma_round_encodable, lemma_round_lower,
    lemma_round_upper, rounded_units,
};
use crate::particle::{
    approach, collided, contained, contained_axis, crosses_high, crosses_low, distance, energy,
    impulse, integrated, overlapping, ParticleState,
};
use crate::single::{
    at_most, encodable, half_value, is_zero, less, negation, one_value, two_value, zero_value,
    Value,
};
use crate::system::{
    clamped, contained_all, integrated_all, lemma_clamped_within, lemma_default_parameters,
    lemma_row_resolved_len, pair_resolved, parameters_valid, resolved, row_resolved, rows_resolved,
    step_duration, stepped, total_energy, within, SystemState,
};
use vstd::arithmetic::power2::*;
use vstd::prelude::*;

verus! {

/// Whether two particles are the same disk: same radius, mass and colour.
pub open spec fn same_disk(a: ParticleState, b: ParticleState) -> bool {
    a.radius == b.radius && a.mass == b.mass && a.color == b.color
}

/// Whether two collections hold the same disks in the same order.
pub open spec fn same_disks(a: Seq<ParticleState>, b: Seq<ParticleState>) -> bool {
    a.len() == b.len() && forall|k: int| 0 <= k < a.len() ==> same_disk(#[trigger] a[k], b[k])
}

/// Resolving one pair moves and deflects its two particles at most: each
/// stays the same disk.
pub proof fn law_collision_keeps_disks(a: ParticleState, b: ParticleState, restitution: Value)
    ensures
        same_disk(collided(a, b, restitution).0, a),
        same_disk(collided(a, b, restitution).1, b),
{
}

/// Resolving the pairs of a row changes neither the number of particles nor
/// which disk stands where.
pub proof fn law_row_keeps_disks(ps: Seq<ParticleState>, i: int, end: int, restitution: Value)
    requires
        0 <= i,
        end <= ps.len(),
    ensures
        same_disks(row_resolved(ps, i, end, restitution), ps),
    decreases end - i,
{
    if end > i + 1 {
        law_row_keeps_disks(ps, i, end - 1, restitution);
        let before = row_resolved(ps, i, end - 1, restitution);
        law_collision_keeps_disks(before[i], before[end - 1], restitution);
        let after = pair_resolved(before, i, end - 1, restitution);
        assert forall|k: int| 0 <= k < after.len() implies same_disk(#[trigger] after[k], ps[k]) by {
            assert(same_disk(before[k], ps[k]));
        }
    }
}

/// Collision resolution changes neither the number of particles nor which
/// disk stands where: only positions and velocities.
pub proof fn law_resolution_keeps_disks(ps: Seq<ParticleState>, rows: int, restitution: Value)
    requires
        rows <= ps.len(),
    ensures
        same_disks(rows_resolved(ps, rows, restitution), ps),
    decreases rows,
{
    if rows > 0 {
        law_resolution_keeps_disks(ps, rows - 1, restitution);
        let before = rows_resolved(ps, rows - 1, restitution);
        law_row_keeps_disks(before, rows - 1, ps.len() as int, restitution);
        let after = row_resolved(before, rows - 1, ps.len() as int, restitution);
        assert forall|k: int| 0 <= k < after.len() implies same_disk(#[trigger] after[k], ps[k]) by {
            assert(same_disk(after[k], before[k]));
            assert(same_disk(before[k], ps[k]));
        }
    }
}

/// A step keeps every parameter of the system, the number of particles,
/// and which disk stands where.
pub proof fn law_step_keeps_parameters(s: SystemState, dt: Value)
    ensures
        stepped(s, dt).width == s.width,
        stepped(s, dt).height == s.height,
        stepped(s, dt).gravity_x == s.gravity_x,
        stepped(s, dt).gravity_y == s.gravity_y,
        stepped(s, dt).damping == s.damping,
        stepped(s, dt).restitution == s.restitution,
        stepped(s, dt).time_step == s.time_step,
        parameters_valid(s) ==> parameters_valid(stepped(s, dt)),
        same_disks(stepped(s, dt).particles, s.particles),
{
    let d = step_duration(s, dt);
    let moved = integrated_all(s.particles, s.gravity_x, s.gravity_y, s.damping, d);
    let kept = contained_all(moved, s.width, s.height, s.restitution);
    law_resolution_keeps_disks(kept, kept.len() as int, s.restitution);
    let after = resolved(kept, s.restitution);
    assert forall|k: int| 0 <= k < after.len() implies same_disk(
        #[trigger] after[k],
        s.particles[k],
    ) by {
        assert(same_disk(after[k], kept[k]));
        assert(kept[k] == contained(moved[k], s.width, s.height, s.restitution));
        assert(moved[k] == integrated(s.particles[k], s.gravity_x, s.gravity_y, s.damping, d));
    }
}

/// A step of a system without particles changes nothing, whatever `dt` is.
pub proof fn law_empty_step(s: SystemState, dt: Value)
    requires
        s.particles.len() == 0,
    ensures
        stepped(s, dt) == s,
{
    let d = step_duration(s, dt);
    let moved = integrated_all(s.particles, s.gravity_x, s.gravity_y, s.damping, d);
    let kept = contained_all(moved, s.width, s.height, s.restitution);
    assert(kept =~= s.particles);
    assert(resolved(kept, s.restitution) == kept);
}

/// Clamping brings every input, not a number included, into the bounds,
/// and changes no input that lies within them.
pub proof fn law_clamping(x: Value)
    ensures
        within(clamped(x, zero_value(), one_value()), zero_value(), one_value()),
        within(x, zero_value(), one_value()) ==> clamped(x, zero_value(), one_value()) == x,
        less(x, zero_value()) ==> clamped(x, zero_value(), one_value()) == zero_value(),
        less(one_value(), x) ==> clamped(x, zero_value(), one_value()) == one_value(),
{
    lemma_default_parameters();
    lemma_clamped_within(x, zero_value(), one_value());
}

/// Whether a disk can lie within `[0, bound]` at all: its radius is a
/// number that is not negative, and twice the radius is at most the bound.
pub open spec fn fits(radius: Value, bound: Value) -> bool {
    &&& encodable(radius)
    &&& radius is Finite
    &&& at_most(zero_value(), radius)
    &&& bound is Finite
    &&& at_most(sum(radius, radius), bound)
}

/// Whether a disk lies within `[0, bound]`: `radius <= position <= bound - radius`.
pub open spec fn inside(position: Value, radius: Value, bound: Value) -> bool {
    at_most(radius, position) && at_most(position, difference(bound, radius))
}

/// Whether containment deals with a disk at `position`: it crosses an edge
/// and is put back, or it lies within the bounds. What is left out is a
/// disk whose high edge, `position + radius`, is rounded onto the bound
/// though `position` exceeds `bound - radius`.
pub open spec fn settled(position: Value, radius: Value, bound: Value) -> bool {
    ||| crosses_low(position, radius)
    ||| crosses_high(position, radius, bound)
    ||| at_most(position, difference(bound, radius))
}

/// After containment a disk that fits is at least its radius from the low
/// edge, wherever it was; and at least its radius from the high edge too,
/// where containment deals with it.
pub proof fn law_axis_contained(
    position: Value,
    velocity: Value,
    radius: Value,
    bound: Value,
    restitution: Value,
)
    requires
        !(position is Nan),
        fits(radius, bound),
    ensures
        at_most(radius, contained_axis(position, velocity, radius, bound, restitution).0),
        settled(position, radius, bound) ==> inside(
            contained_axis(position, velocity, radius, bound, restitution).0,
            radius,
            bound,
        ),
{
    lemma_room_for_radius(radius, bound);
    lemma_difference_sign(bound, radius);
    if position is Infinite {
        lemma_infinite_absorbs(position, radius);
    } else {
        lemma_difference_sign(position, radius);
    }
}

/// Whether a particle lies within the world rectangle.
pub open spec fn within_bounds(p: ParticleState, width: Value, height: Value) -> bool {
    inside(p.x, p.radius, width) && inside(p.y, p.radius, height)
}

/// Boundary containment: a particle that fits into the world rectangle lies
/// within it after containment, where containment deals with it.
pub proof fn law_contained_within_bounds(
    p: ParticleState,
    width: Value,
    height: Value,
    restitution: Value,
)
    requires
        !(p.x is Nan),
        !(p.y is Nan),
        fits(p.radius, width),
        fits(p.radius, height),
        settled(p.x, p.radius, width),
        settled(p.y, p.radius, height),
    ensures
        within_bounds(contained(p, width, height, restitution), width, height),
{
    law_axis_contained(p.x, p.vx, p.radius, width, restitution);
    law_axis_contained(p.y, p.vy, p.radius, height, restitution);
}

/// Whether no two particles overlap with distinct centres.
pub open spec fn none_overlap(ps: Seq<ParticleState>) -> bool {
    forall|i: int, j: int| 0 <= i < j < ps.len() ==> !overlapping(#[trigger] ps[i], #[trigger] ps[j])
}

/// Resolving a row in which no pair overlaps changes nothing.
pub proof fn law_row_without_overlap(ps: Seq<ParticleState>, i: int, end: int, restitution: Value)
    requires
        0 <= i,
        end <= ps.len(),
        none_overlap(ps),
    ensures
        row_resolved(ps, i, end, restitution) == ps,
    decreases end - i,
{
    if end > i + 1 {
        law_row_without_overlap(ps, i, end - 1, restitution);
        assert(!overlapping(ps[i], ps[end - 1]));
        assert(pair_resolved(ps, i, end - 1, restitution) =~= ps);
    }
}

/// Collision resolution changes nothing where no pair overlaps.
pub proof fn law_resolution_without_overlap(ps: Seq<ParticleState>, rows: int, restitution: Value)
    requires
        rows <= ps.len(),
        none_overlap(ps),
    ensures
        rows_resolved(ps, rows, restitution) == ps,
    decreases rows,
{
    if rows > 0 {
        law_resolution_without_overlap(ps, rows - 1, restitution);
        law_row_without_overlap(ps, rows - 1, ps.len() as int, restitution);
    }
}

/// Boundary containment after a step: a particle that, once integrated,
/// fits into the world rectangle and is dealt with by containment lies
/// within the rectangle after the step, unless collision resolution moves it.
pub proof fn law_boundary_containment(s: SystemState, dt: Value, k: int)
    requires
        0 <= k < s.particles.len(),
        ({
            let moved = integrated(
                s.particles[k],
                s.gravity_x,
                s.gravity_y,
                s.damping,
                step_duration(s, dt),
            );
            &&& !(moved.x is Nan)
            &&& !(moved.y is Nan)
            &&& fits(moved.radius, s.width)
            &&& fits(moved.radius, s.height)
            &&& settled(moved.x, moved.radius, s.width)
            &&& settled(moved.y, moved.radius, s.height)
        }),
        ({
            let kept = contained_all(
                integrated_all(
                    s.particles,
                    s.gravity_x,
                    s.gravity_y,
                    s.damping,
                    step_duration(s, dt),
                ),
                s.width,
                s.height,
                s.restitution,
            );
            let after = resolved(kept, s.restitution);
            after[k].x == kept[k].x && after[k].y == kept[k].y
        }),
    ensures
        within_bounds(stepped(s, dt).particles[k], s.width, s.height),
{
    let d = step_duration(s, dt);
    let moved = integrated_all(s.particles, s.gravity_x, s.gravity_y, s.damping, d);
    let kept = contained_all(moved, s.width, s.height, s.restitution);
    law_contained_within_bounds(moved[k], s.width, s.height, s.restitution);
    law_resolution_keeps_disks(kept, kept.len() as int, s.restitution);
    let after = resolved(kept, s.restitution);
    assert(same_disk(after[k], kept[k]));
}

/// Boundary containment after a step in which no particles collide: every
/// particle that, once integrated, fits into the world rectangle and is
/// dealt with by containment lies within the rectangle after the step.
pub proof fn law_boundary_containment_without_overlap(s: SystemState, dt: Value, k: int)
    requires
        0 <= k < s.particles.len(),
        ({
            let moved = integrated(
                s.particles[k],
                s.gravity_x,
                s.gravity_y,
                s.damping,
                step_duration(s, dt),
            );
            &&& !(moved.x is Nan)
            &&& !(moved.y is Nan)
            &&& fits(moved.radius, s.width)
            &&& fits(moved.radius, s.height)
            &&& settled(moved.x, moved.radius, s.width)
            &&& settled(moved.y, moved.radius, s.height)
        }),
        none_overlap(
            contained_all(
                integrated_all(
                    s.particles,
                    s.gravity_x,
                    s.gravity_y,
                    s.damping,
                    step_duration(s, dt),
                ),
                s.width,
                s.height,
                s.restitution,
            ),
        ),
    ensures
        within_bounds(stepped(s, dt).particles[k], s.width, s.height),
{
    let d = step_duration(s, dt);
    let moved = integrated_all(s.particles, s.gravity_x, s.gravity_y, s.damping, d);
    let kept = contained_all(moved, s.width, s.height, s.restitution);
    law_resolution_without_overlap(kept, kept.len() as int, s.restitution);
    law_boundary_containment(s, dt, k);
}

/// Without gravity and with damping one, a velocity comes out of the
/// integration as it went in, but that a zero may change its sign.
pub proof fn law_free_velocity(v: Value, gravity: Value, dt: Value)
    requires
        encodable(v),
        is_zero(gravity),
        dt is Finite,
    ensures
        ({
            let after = product(sum(v, product(gravity, dt)), one_value());
            &&& is_zero(v) ==> is_zero(after)
            &&& !is_zero(v) ==> after == v
        }),
{
    let push = product(gravity, dt);
    law_zero_times_finite(gravity, dt);
    lemma_zero_encodable(push);
    law_sum_zero(v, push);
    law_results_encodable(v, push);
    law_product_one(sum(v, push));
}

/// The square of a velocity does not feel the sign of a zero.
proof fn lemma_square_kept(v: Value, after: Value)
    requires
        is_zero(v) ==> is_zero(after),
        !is_zero(v) ==> after == v,
    ensures
        product(after, after) == product(v, v),
{
    if is_zero(v) {
        law_square_of_zero(v);
        law_square_of_zero(after);
    }
}

/// Whether a disk at `(x, y)` crosses no edge of the world rectangle.
pub open spec fn clear_of_edges(p: ParticleState, width: Value, height: Value) -> bool {
    &&& !crosses_low(p.x, p.radius)
    &&& !crosses_high(p.x, p.radius, width)
    &&& !crosses_low(p.y, p.radius)
    &&& !crosses_high(p.y, p.radius, height)
}

/// Collections of particles with the same energies, one by one, have the
/// same total energy.
pub proof fn lemma_total_energy_pointwise(ps: Seq<ParticleState>, qs: Seq<ParticleState>)
    requires
        ps.len() == qs.len(),
        forall|k: int| 0 <= k < ps.len() ==> energy(#[trigger] ps[k]) == energy(qs[k]),
    ensures
        total_energy(ps) == total_energy(qs),
    decreases ps.len(),
{
    if ps.len() > 0 {
        assert forall|k: int| 0 <= k < ps.drop_last().len() implies energy(
            #[trigger] ps.drop_last()[k],
        ) == energy(qs.drop_last()[k]) by {
            assert(ps.drop_last()[k] == ps[k]);
            assert(qs.drop_last()[k] == qs[k]);
        }
        lemma_total_energy_pointwise(ps.drop_last(), qs.drop_last());
        assert(energy(ps[ps.len() - 1]) == energy(qs[ps.len() - 1]));
    }
}

/// Energy without contact: a step without gravity, with damping one, in
/// which no particle crosses an edge and no two particles overlap, leaves
/// the kinetic energy as it was.
pub proof fn law_energy_kept_without_contact(s: SystemState, dt: Value)
    requires
        is_zero(s.gravity_x),
        is_zero(s.gravity_y),
        s.damping == one_value(),
        step_duration(s, dt) is Finite,
        forall|k: int|
            0 <= k < s.particles.len() ==> encodable((#[trigger] s.particles[k]).vx) && encodable(
                s.particles[k].vy,
            ),
        forall|k: int|
            0 <= k < s.particles.len() ==> clear_of_edges(
                integrated(
                    #[trigger] s.particles[k],
                    s.gravity_x,
                    s.gravity_y,
                    s.damping,
                    step_duration(s, dt),
                ),
                s.width,
                s.height,
            ),
        none_overlap(
            contained_all(
                integrated_all(
                    s.particles,
                    s.gravity_x,
                    s.gravity_y,
                    s.damping,
                    step_duration(s, dt),
                ),
                s.width,
                s.height,
                s.restitution,
            ),
        ),
    ensures
        total_energy(stepped(s, dt).particles) == total_energy(s.particles),
{
    let d = step_duration(s, dt);
    let moved = integrated_all(s.particles, s.gravity_x, s.gravity_y, s.damping, d);
    let kept = contained_all(moved, s.width, s.height, s.restitution);
    law_resolution_without_overlap(kept, kept.len() as int, s.restitution);
    let after = stepped(s, dt).particles;
    assert(after == kept);
    assert forall|k: int| 0 <= k < after.len() implies energy(#[trigger] after[k]) == energy(
        s.particles[k],
    ) by {
        let p = s.particles[k];
        let q = integrated(p, s.gravity_x, s.gravity_y, s.damping, d);
        assert(moved[k] == q);
        assert(kept[k] == contained(q, s.width, s.height, s.restitution));
        assert(clear_of_edges(q, s.width, s.height));
        assert(kept[k] == q);
        law_free_velocity(p.vx, s.gravity_x, d);
        law_free_velocity(p.vy, s.gravity_y, d);
        lemma_square_kept(p.vx, q.vx);
        lemma_square_kept(p.vy, q.vy);
    }
    lemma_total_energy_pointwise(after, s.particles);
}

/// The length of a vector, as the collision takes it: the rounded root of
/// the rounded sum of the rounded squares.
pub open spec fn length(dx: Value, dy: Value) -> Value {
    square_root(sum(product(dx, dx), product(dy, dy)))
}

/// The count of units of the square of a component, where the length of
/// the vector is finite and positive: rounded from the exact square, and
/// at most the count under the root.
proof fn lemma_under_the_root(dx: Value, dy: Value)
    requires
        length(dx, dy) is Finite,
        less(zero_value(), length(dx, dy)),
    ensures
        dx is Finite,
        dy is Finite,
        ({
            let p = rounded_units(dx->units * dx->units, pow2(149));
            let s = sum(product(dx, dx), product(dy, dy));
            &&& s is Finite
            &&& s->units >= p
            &&& length(dx, dy) == (Value::Finite {
                negative: false,
                units: rounded_root_units(s->units * pow2(149)),
            })
            &&& length(dx, dy)->units > 0
        }),
{
    let p = product(dx, dx);
    let q = product(dy, dy);
    let s = sum(p, q);
    lemma_root_value(s);
    lemma_square_value(dx);
    lemma_square_value(dy);
    lemma_pow2_pos(149);
    lemma_sum_of_squares(p, q);
    lemma_round_encodable(false, dx->units * dx->units, pow2(149));
    let (m, e) = lemma_encodable_form(p);
    assert((m * pow2(e)) * 1 <= p->units + q->units) by (nonlinear_arith)
        requires
            p->units == m * pow2(e),
            q->units >= 0,
    ;
    lemma_round_lower(p->units + q->units, 1, m, e);
}

/// The quotient of a component by the length of its vector is finite,
/// where the length is finite and positive: rounding does not let the
/// length fall below half the component.
pub proof fn lemma_normal_finite(dx: Value, dy: Value)
    requires
        length(dx, dy) is Finite,
        less(zero_value(), length(dx, dy)),
    ensures
        quotient(dx, length(dx, dy)) is Finite,
{
    lemma2_to64();
    lemma_under_the_root(dx, dy);
    let d = length(dx, dy);
    let ux = dx->units;
    let ud = d->units;
    let us = sum(product(dx, dx), product(dy, dy))->units;
    let up = rounded_units(ux * ux, pow2(149));
    lemma_quotient_value(dx, d);
    lemma_pow2_pos(149);
    lemma_pow2_pos(127);
    lemma_pow2_adds(127, 149);
    lemma_pow2_adds(1, 149);
    lemma_pow2_strictly_increases(150, 276);
    lemma_pow2_strictly_increases(276, 277);
    assert(1 * pow2(276) == pow2(276));
    if ux > pow2(127) {
        // The length is at least the power of two below the component.
        lemma_bit_length_bounds(ux);
        let l = bit_length(ux);
        if l < 128 {
            lemma_pow2_strictly_increases(l, 128);
            lemma_pow2_unfold(128);
        }
        assert(l >= 128) by {
            if l < 128 {
                if l < 127 {
                    lemma_pow2_strictly_increases(l, 127);
                }
            }
        }
        let h = pow2((l - 1) as nat);
        let k = (2 * l - 151) as nat;
        lemma_pow2_adds((l - 1) as nat, (l - 1) as nat);
        lemma_pow2_adds(k, 149);
        lemma_pow2_unfold(l);
        assert(h * h <= ux * ux) by (nonlinear_arith)
            requires
                0 < h <= ux,
        ;
        assert((1 * pow2(k)) * pow2(149) <= ux * ux);
        lemma_round_lower(ux * ux, pow2(149), 1, k);
        assert(up >= pow2(k));
        assert((1 * h) * (1 * h) <= us * pow2(149)) by (nonlinear_arith)
            requires
                h * h == pow2(k) * pow2(149),
                us >= pow2(k),
                pow2(149) > 0,
        ;
        lemma_root_lower(us * pow2(149), 1, (l - 1) as nat);
        assert(ud >= h);
        assert(ux * pow2(149) <= (1 * pow2(276)) * ud) by (nonlinear_arith)
            requires
                ux < 2 * h,
                h <= ud,
                2 * pow2(149) <= pow2(276),
                pow2(149) > 0,
        ;
    } else {
        assert(ux * pow2(149) <= (1 * pow2(276)) * ud) by (nonlinear_arith)
            requires
                ux <= pow2(127),
                ud >= 1,
                pow2(276) == pow2(127) * pow2(149),
                pow2(149) > 0,
        ;
    }
    lemma_round_upper(ux * pow2(149), ud, 1, 276);
}

/// Whether a velocity came through as it was: unchanged, but that a zero
/// may have changed its sign.
pub open spec fn kept(before: Value, after: Value) -> bool {
    if is_zero(before) {
        is_zero(after)
    } else {
        after == before
    }
}

/// Equal velocities are kept: where two overlapping particles of positive
/// finite mass move with the same finite velocity, resolving their
/// collision corrects their positions only, whatever the restitution.
pub proof fn law_equal_velocities_kept(a: ParticleState, b: ParticleState, restitution: Value)
    requires
        overlapping(a, b),
        a.vx == b.vx,
        a.vy == b.vy,
        a.vx is Finite,
        a.vy is Finite,
        encodable(a.vx),
        encodable(a.vy),
        a.mass is Finite,
        b.mass is Finite,
        less(zero_value(), a.mass),
        less(zero_value(), b.mass),
        restitution is Finite,
    ensures
        kept(a.vx, collided(a, b, restitution).0.vx),
        kept(a.vy, collided(a, b, restitution).0.vy),
        kept(b.vx, collided(a, b, restitution).1.vx),
        kept(b.vy, collided(a, b, restitution).1.vy),
{
    let dx = difference(b.x, a.x);
    let dy = difference(b.y, a.y);
    let d = distance(a, b);
    assert(d == length(dx, dy));
    lemma_normal_finite(dx, dy);
    law_sum_commutes(product(dx, dx), product(dy, dy));
    lemma_normal_finite(dy, dx);
    let nx = quotient(dx, d);
    let ny = quotient(dy, d);
    // The relative velocity is a zero, and so is its part along the normal.
    let dvx = difference(b.vx, a.vx);
    let dvy = difference(b.vy, a.vy);
    law_difference_of_equals(a.vx);
    law_difference_of_equals(a.vy);
    law_zero_times_finite(dvx, nx);
    law_zero_times_finite(dvy, ny);
    let dvn = approach(a, b);
    lemma_sum_of_zeros(product(dvx, nx), product(dvy, ny));
    assert(is_zero(dvn));
    // So the impulse is a zero, and what it adds to each velocity too.
    lemma_two_finite();
    law_product_commutes(two_value(), dvn);
    law_zero_times_finite(dvn, two_value());
    law_positive_sum(a.mass, b.mass);
    law_zero_quotient(product(two_value(), dvn), sum(a.mass, b.mass));
    let j = impulse(a, b, restitution);
    law_zero_times_finite(
        quotient(product(two_value(), dvn), sum(a.mass, b.mass)),
        restitution,
    );
    assert(is_zero(j));
    law_zero_times_finite(j, b.mass);
    law_zero_times_finite(j, a.mass);
    law_zero_times_finite(product(j, b.mass), nx);
    law_zero_times_finite(product(j, b.mass), ny);
    law_zero_times_finite(product(j, a.mass), nx);
    law_zero_times_finite(product(j, a.mass), ny);
    law_sum_zero(a.vx, product(product(j, b.mass), nx));
    law_sum_zero(a.vy, product(product(j, b.mass), ny));
    law_sum_zero(b.vx, negation(product(product(j, a.mass), nx)));
    law_sum_zero(b.vy, negation(product(product(j, a.mass), ny)));
}

/// Two is a finite value.
proof fn lemma_two_finite()
    ensures
        two_value() is Finite,
{
}

/// The sum of two zeros is a zero.
proof fn lemma_sum_of_zeros(x: Value, y: Value)
    requires
        is_zero(x),
        is_zero(y),
    ensures
        is_zero(sum(x, y)),
{
    lemma_zero_encodable(x);
    law_sum_zero(x, y);
}

/// Collision resolution of two particles is the resolution of their one pair.
pub proof fn law_pair_resolution(ps: Seq<ParticleState>, restitution: Value)
    requires
        ps.len() == 2,
    ensures
        resolved(ps, restitution) == seq![
            collided(ps[0], ps[1], restitution).0,
            collided(ps[0], ps[1], restitution).1,
        ],
{
    reveal_with_fuel(rows_resolved, 3);
    reveal_with_fuel(row_resolved, 3);
    let first = row_resolved(ps, 0, 2, restitution);
    assert(row_resolved(ps, 0, 1, restitution) == ps);
    assert(first == pair_resolved(ps, 0, 1, restitution));
    assert(rows_resolved(ps, 0, restitution) == ps);
    assert(rows_resolved(ps, 1, restitution) == first);
    lemma_row_resolved_len(ps, 0, 2, restitution);
    assert(row_resolved(first, 1, 2, restitution) == first);
    assert(rows_resolved(ps, 2, restitution) == first);
    assert(first =~= seq![
        collided(ps[0], ps[1], restitution).0,
        collided(ps[0], ps[1], restitution).1,
    ]);
}

/// The impulse between equal masses at restitution one is the speed of
/// approach divided by the mass: the factor two of the impulse and the
/// two masses cancel without rounding, where the doubled speed and the
/// doubled mass are finite. Each velocity then changes by that impulse
/// times the mass along the normal.
pub proof fn law_elastic_impulse(a: ParticleState, b: ParticleState)
    requires
        a.mass == b.mass,
        encodable(a.mass),
        a.mass is Finite,
        less(zero_value(), a.mass),
        sum(a.mass, b.mass) is Finite,
        approach(a, b) is Finite,
        product(two_value(), approach(a, b)) is Finite,
    ensures
        impulse(a, b, one_value()) == quotient(approach(a, b), a.mass),
{
    let d = distance(a, b);
    let nx = quotient(difference(b.x, a.x), d);
    let ny = quotient(difference(b.y, a.y), d);
    lemma_sum_encodable(
        product(difference(b.vx, a.vx), nx),
        product(difference(b.vy, a.vy), ny),
    );
    law_doubling_cancels(approach(a, b), a.mass);
}

/// Whether a velocity is finite and no larger than it was.
pub open spec fn slowed(before: Value, after: Value) -> bool {
    no_larger(after, before)
}

/// The energy keeps the order of speeds: a particle of positive finite
/// mass whose velocity components are no larger than another's, of the
/// same mass, has no more energy, and finite energy where the other has.
pub proof fn law_energy_monotonic(p: ParticleState, q: ParticleState)
    requires
        q.mass == p.mass,
        encodable(p.mass),
        p.mass is Finite,
        less(zero_value(), p.mass),
        slowed(p.vx, q.vx),
        slowed(p.vy, q.vy),
        energy(p) is Finite,
    ensures
        no_larger(energy(q), energy(p)),
        !energy(q)->Finite_negative,
        !energy(p)->Finite_negative,
{
    let hm = product(half_value(), p.mass);
    law_half_is_smaller(p.mass);
    let sp = sum(product(p.vx, p.vx), product(p.vy, p.vy));
    let sq = sum(product(q.vx, q.vx), product(q.vy, q.vy));
    lemma_product_finite(hm, sp);
    lemma_sum_finite(product(p.vx, p.vx), product(p.vy, p.vy));
    lemma_product_monotonic(q.vx, q.vx, p.vx, p.vx);
    lemma_product_monotonic(q.vy, q.vy, p.vy, p.vy);
    lemma_sum_monotonic(
        product(q.vx, q.vx),
        product(q.vy, q.vy),
        product(p.vx, p.vx),
        product(p.vy, p.vy),
    );
    lemma_product_monotonic(hm, sq, hm, sp);
}

/// The total energy keeps the order of the energies: where every
/// particle of one collection has no more energy than its like in another,
/// the first has no more in total, and a finite total where the other has.
pub proof fn lemma_total_energy_monotonic(qs: Seq<ParticleState>, ps: Seq<ParticleState>)
    requires
        qs.len() == ps.len(),
        forall|k: int|
            0 <= k < ps.len() ==> no_larger(energy(#[trigger] qs[k]), energy(ps[k]))
                && !energy(qs[k])->Finite_negative && !energy(ps[k])->Finite_negative,
        total_energy(ps) is Finite,
    ensures
        no_larger(total_energy(qs), total_energy(ps)),
        !total_energy(qs)->Finite_negative,
        !total_energy(ps)->Finite_negative,
    decreases ps.len(),
{
    if ps.len() > 0 {
        let last = ps.len() - 1;
        lemma_sum_finite(total_energy(ps.drop_last()), energy(ps.last()));
        assert forall|k: int| 0 <= k < ps.drop_last().len() implies no_larger(
            energy(#[trigger] qs.drop_last()[k]),
            energy(ps.drop_last()[k]),
        ) && !energy(qs.drop_last()[k])->Finite_negative && !energy(
            ps.drop_last()[k],
        )->Finite_negative by {
            assert(ps.drop_last()[k] == ps[k]);
            assert(qs.drop_last()[k] == qs[k]);
            assert(no_larger(energy(qs[k]), energy(ps[k])));
        }
        lemma_total_energy_monotonic(qs.drop_last(), ps.drop_last());
        assert(no_larger(energy(qs[last]), energy(ps[last])));
        lemma_sum_monotonic(
            total_energy(qs.drop_last()),
            energy(qs.last()),
            total_energy(ps.drop_last()),
            energy(ps.last()),
        );
    }
}

/// Containment does not speed up: a finite velocity comes out of the
/// containment of its axis no larger than it went in.
pub proof fn law_containment_slows(
    position: Value,
    velocity: Value,
    radius: Value,
    bound: Value,
    restitution: Value,
)
    requires
        encodable(velocity),
        velocity is Finite,
        at_most(zero_value(), restitution),
        at_most(restitution, one_value()),
    ensures
        slowed(velocity, contained_axis(position, velocity, radius, bound, restitution).1),
{
    law_bounce_slows(velocity, restitution);
}

/// Energy at the edges: a step without gravity, with damping one and a
/// restitution between zero and one, in which no two particles overlap,
/// does not raise the kinetic energy, whichever edges the particles hit.
pub proof fn law_energy_not_raised_at_edges(s: SystemState, dt: Value)
    requires
        is_zero(s.gravity_x),
        is_zero(s.gravity_y),
        s.damping == one_value(),
        at_most(zero_value(), s.restitution),
        at_most(s.restitution, one_value()),
        step_duration(s, dt) is Finite,
        forall|k: int|
            0 <= k < s.particles.len() ==> {
                let p = #[trigger] s.particles[k];
                &&& encodable(p.vx)
                &&& encodable(p.vy)
                &&& encodable(p.mass)
                &&& p.vx is Finite
                &&& p.vy is Finite
                &&& p.mass is Finite
                &&& less(zero_value(), p.mass)
                &&& energy(p) is Finite
            },
        total_energy(s.particles) is Finite,
        none_overlap(
            contained_all(
                integrated_all(
                    s.particles,
                    s.gravity_x,
                    s.gravity_y,
                    s.damping,
                    step_duration(s, dt),
                ),
                s.width,
                s.height,
                s.restitution,
            ),
        ),
    ensures
        at_most(total_energy(stepped(s, dt).particles), total_energy(s.particles)),
{
    let d = step_duration(s, dt);
    let moved = integrated_all(s.particles, s.gravity_x, s.gravity_y, s.damping, d);
    let kept = contained_all(moved, s.width, s.height, s.restitution);
    law_resolution_without_overlap(kept, kept.len() as int, s.restitution);
    let after = stepped(s, dt).particles;
    assert(after == kept);
    assert forall|k: int| 0 <= k < s.particles.len() implies no_larger(
        energy(#[trigger] after[k]),
        energy(s.particles[k]),
    ) && !energy(after[k])->Finite_negative && !energy(s.particles[k])->Finite_negative by {
        let p = s.particles[k];
        let q = integrated(p, s.gravity_x, s.gravity_y, s.damping, d);
        assert(moved[k] == q);
        let r = contained(q, s.width, s.height, s.restitution);
        assert(kept[k] == r);
        law_free_velocity(p.vx, s.gravity_x, d);
        law_free_velocity(p.vy, s.gravity_y, d);
        if is_zero(p.vx) {
            lemma_zero_encodable(q.vx);
        }
        if is_zero(p.vy) {
            lemma_zero_encodable(q.vy);
        }
        assert(encodable(q.vx) && q.vx is Finite && no_larger(q.vx, p.vx));
        assert(encodable(q.vy) && q.vy is Finite && no_larger(q.vy, p.vy));
        law_containment_slows(q.x, q.vx, q.radius, s.width, s.restitution);
        law_containment_slows(q.y, q.vy, q.radius, s.height, s.restitution);
        law_energy_monotonic(p, r);
    }
    lemma_total_energy_monotonic(after, s.particles);
}

} // verus!
