//! A particle, the force between two particles, and how a particle moves.

use vstd::prelude::*;

use crate::fixed::{
    clamp, difference, lemma_quotient_toward_zero, lemma_root_above_exists,
    magnitude, quotient_toward_zero, root_above, root_above_of, saturate, sum, widen_product,
    Real, LIMIT, UNIT,
};
use crate::params::ParticleSimulationParams;
use crate::random::{quick_between, quick_bits};
use crate::type_data::ParticleTypeData;

verus! {

/// The radius of a particle: five.
pub const PARTICLE_RADIUS: Real = 5_000_000;

/// Two particles nearer than this push each other apart: two radii.
pub const MINIMUM_DISTANCE: Real = 10_000_000;

/// The greatest magnitude of each component of the vector that stands for
/// the way between two particles in one place: a tenth.
pub const JITTER: Real = 100_000;

/// How far inside the far edge of the world a particle is put back: a
/// hundred-thousandth.
pub const EDGE_MARGIN: Real = 10;

/// A particle: where it is, how fast it moves, and its species.
#[derive(Clone, Copy, Debug)]
pub struct Particle {
    pub position: [Real; 2],
    pub velocity: [Real; 2],
    pub typ: usize,
}

/// One component of what a particle gains from another, where `d` is that
/// component of the way to the other, `q` the square of the distance,
/// `attraction` the pull of the other's species on the particle's own, and
/// `reach` the distance beyond which nothing is felt.
///
/// Beyond two radii the gain is the attraction over the squared distance,
/// times the way. Within two radii it is minus the radius over the squared
/// distance, times the way; but where `prevent` is set and the distance is
/// under one, it is the radius over the distance, times the way.
pub open spec fn pull(d: int, q: int, attraction: int, reach: int, prevent: bool) -> int {
    if q > reach * reach {
        0
    } else if q > MINIMUM_DISTANCE * MINIMUM_DISTANCE {
        clamp(quotient_toward_zero(UNIT * clamp(attraction) * d, q))
    } else if prevent && q < UNIT * UNIT {
        clamp(quotient_toward_zero(PARTICLE_RADIUS * UNIT * d, root_above(q * UNIT * UNIT)))
    } else {
        clamp(quotient_toward_zero(-(PARTICLE_RADIUS * UNIT * d), q))
    }
}

/// The square of the length of the way `(dx, dy)`.
pub open spec fn squared_length(dx: int, dy: int) -> int {
    dx * dx + dy * dy
}

/// What a particle gains from another that is `(dx, dy)` away.
pub open spec fn contribution(dx: int, dy: int, attraction: int, reach: int, prevent: bool) -> (
    int,
    int,
) {
    let q = squared_length(clamp(dx), clamp(dy));
    (pull(clamp(dx), q, attraction, reach, prevent), pull(clamp(dy), q, attraction, reach, prevent))
}

/// Whether `j` can be a component of the vector that stands for the way
/// between two particles in one place: not zero, and at most a tenth.
pub open spec fn is_jitter(j: int) -> bool {
    1 <= magnitude(j) <= JITTER
}

/// Whether `after` is `before` with the gain from a particle `(dx, dy)` away.
pub open spec fn gained(
    before: [Real; 2],
    after: [Real; 2],
    dx: int,
    dy: int,
    attraction: int,
    reach: int,
    prevent: bool,
) -> bool {
    let gain = contribution(dx, dy, attraction, reach, prevent);
    after[0] == clamp(before[0] + gain.0) && after[1] == clamp(before[1] + gain.1)
}

/// Whether `after` can be the impulse of `particle` once `other` has been
/// taken into account, starting from `before`. Where the two are in one
/// place, some vector of jitter stands for the way between them.
pub open spec fn pair_step(
    particle: Particle,
    other: Particle,
    attraction: int,
    reach: int,
    prevent: bool,
    before: [Real; 2],
    after: [Real; 2],
) -> bool {
    if particle.position[0] == other.position[0] && particle.position[1] == other.position[1] {
        exists|jx: int, jy: int|
            is_jitter(jx) && is_jitter(jy) && #[trigger] gained(
                before,
                after,
                jx,
                jy,
                attraction,
                reach,
                prevent,
            )
    } else {
        gained(
            before,
            after,
            other.position[0] - particle.position[0],
            other.position[1] - particle.position[1],
            attraction,
            reach,
            prevent,
        )
    }
}

/// A velocity with an impulse added.
pub open spec fn pushed(v: int, impulse: int) -> int {
    clamp(v + impulse)
}

/// A coordinate after half a step at velocity `v`.
pub open spec fn advanced(x: int, v: int) -> int {
    clamp(x + quotient_toward_zero(v, 2))
}

/// A velocity after damping: nine tenths of it.
pub open spec fn damped(v: int) -> int {
    quotient_toward_zero(9 * v, 10)
}

/// The particle after one step under `impulse`: the impulse is added to the
/// velocity, the particle moves by half the new velocity, and the velocity
/// is then damped.
pub open spec fn stepped(p: Particle, impulse: [Real; 2]) -> Particle {
    Particle {
        position: [
            advanced(p.position[0] as int, pushed(p.velocity[0] as int, impulse[0] as int)) as Real,
            advanced(p.position[1] as int, pushed(p.velocity[1] as int, impulse[1] as int)) as Real,
        ],
        velocity: [
            damped(pushed(p.velocity[0] as int, impulse[0] as int)) as Real,
            damped(pushed(p.velocity[1] as int, impulse[1] as int)) as Real,
        ],
        typ: p.typ,
    }
}

/// The particle as it is seen from a cell across the edge of the world:
/// `(ox, oy)` further on.
pub open spec fn displaced(p: Particle, ox: int, oy: int) -> Particle {
    Particle { position: [(p.position[0] + ox) as Real, (p.position[1] + oy) as Real], ..p }
}

/// An impulse of nothing.
pub open spec fn no_impulse() -> [Real; 2] {
    [0i64, 0i64]
}

/// The coordinate at which a particle at `x` is held in a world `size` wide.
pub open spec fn constrained(x: int, size: int) -> int {
    if x < 0 {
        0
    } else if x > clamp(size - EDGE_MARGIN) {
        clamp(size - EDGE_MARGIN)
    } else {
        x
    }
}

/// The way inward for a particle at `x`: one at the near edge, minus one at
/// the far edge, zero inside.
pub open spec fn inward(x: int, size: int) -> int {
    if x < 0 {
        UNIT as int
    } else if x > clamp(size - EDGE_MARGIN) {
        -UNIT
    } else {
        0
    }
}

/// A velocity that gains nothing falls to nine tenths of itself at each
/// step, cut toward zero: its magnitude falls geometrically, and it never
/// changes its sign.
pub proof fn lemma_damping(v: int)
    requires
        -LIMIT <= v <= LIMIT,
    ensures
        damped(pushed(v, 0)) == quotient_toward_zero(9 * v, 10),
        10 * magnitude(damped(pushed(v, 0))) <= 9 * magnitude(v),
        9 * magnitude(v) < 10 * (magnitude(damped(pushed(v, 0))) + 1),
        v >= 0 ==> damped(pushed(v, 0)) >= 0,
        v <= 0 ==> damped(pushed(v, 0)) <= 0,
{
    lemma_quotient_toward_zero(9 * v, 10);
}

/// `base` times itself `n` times over.
pub open spec fn power(base: int, n: nat) -> int
    decreases n,
{
    if n == 0 {
        1
    } else {
        base * power(base, (n - 1) as nat)
    }
}

/// The velocity `v` after `n` steps in which it gains nothing.
pub open spec fn damped_often(v: int, n: nat) -> int
    decreases n,
{
    if n == 0 {
        v
    } else {
        damped(pushed(damped_often(v, (n - 1) as nat), 0))
    }
}

/// A velocity that gains nothing falls geometrically, to no more than nine
/// tenths to the power of the number of steps of what it was.
pub proof fn lemma_damping_geometric(v: int, n: nat)
    requires
        -LIMIT <= v <= LIMIT,
    ensures
        -LIMIT <= damped_often(v, n) <= LIMIT,
        power(10, n) * magnitude(damped_often(v, n)) <= power(9, n) * magnitude(v),
    decreases n,
{
    if n > 0 {
        let m = (n - 1) as nat;
        lemma_damping_geometric(v, m);
        let u = damped_often(v, m);
        lemma_damping(u);
        let d = damped_often(v, n);
        lemma_power_positive(10, m);
        assert(power(10, n) * magnitude(d) <= power(9, n) * magnitude(v)) by (nonlinear_arith)
            requires
                power(10, n) == 10 * power(10, m),
                power(9, n) == 9 * power(9, m),
                power(10, m) * magnitude(u) <= power(9, m) * magnitude(v),
                10 * magnitude(d) <= 9 * magnitude(u),
                power(10, m) > 0,
        ;
    }
}

/// A power of a positive number is positive.
proof fn lemma_power_positive(base: int, n: nat)
    requires
        base > 0,
    ensures
        power(base, n) > 0,
    decreases n,
{
    if n > 0 {
        lemma_power_positive(base, (n - 1) as nat);
        assert(base * power(base, (n - 1) as nat) > 0) by (nonlinear_arith)
            requires
                base > 0,
                power(base, (n - 1) as nat) > 0,
        ;
    }
}

/// Where particles are kept from ejecting each other, one that is nearer
/// than one to another gains from it an impulse no longer than the radius,
/// however near they are; so its length is no more than the radius over
/// the distance.
pub proof fn lemma_repulsion_bounded(dx: int, dy: int, attraction: int, reach: int)
    requires
        dx != 0 || dy != 0,
        squared_length(dx, dy) < UNIT * UNIT,
    ensures
        ({
            let gain = contribution(dx, dy, attraction, reach, true);
            &&& squared_length(gain.0, gain.1) <= PARTICLE_RADIUS * PARTICLE_RADIUS
            &&& squared_length(gain.0, gain.1) * squared_length(dx, dy) <= (PARTICLE_RADIUS * UNIT)
                * (PARTICLE_RADIUS * UNIT)
        }),
{
    let k = UNIT as int;
    let q = squared_length(dx, dy);
    assert(dx * dx >= 0 && dy * dy >= 0) by (nonlinear_arith);
    assert(-k < dx < k) by (nonlinear_arith)
        requires
            dx * dx < k * k,
            k > 0,
    ;
    assert(-k < dy < k) by (nonlinear_arith)
        requires
            dy * dy < k * k,
            k > 0,
    ;
    assert(q >= 1) by (nonlinear_arith)
        requires
            q == dx * dx + dy * dy,
            dx != 0 || dy != 0,
    ;
    let gain = contribution(dx, dy, attraction, reach, true);
    if q > reach * reach {
        assert(gain.0 == 0 && gain.1 == 0);
        assert(squared_length(0, 0) == 0);
    } else {
        assert(q * k * k >= 0) by (nonlinear_arith)
            requires
                q >= 1,
                k > 0,
        ;
        lemma_root_above_exists((q * k * k) as nat);
        let c = root_above(q * k * k);
        assert(c >= 1) by (nonlinear_arith)
            requires
                c >= 0,
                c * c >= q * k * k,
                q >= 1,
                k >= 1,
        ;
        let nx = PARTICLE_RADIUS * UNIT * dx;
        let ny = PARTICLE_RADIUS * UNIT * dy;
        let gx = quotient_toward_zero(nx, c);
        let gy = quotient_toward_zero(ny, c);
        lemma_quotient_toward_zero(nx, c);
        lemma_quotient_toward_zero(ny, c);
        lemma_component_bounded(dx, q, c, gx);
        lemma_component_bounded(dy, q, c, gy);
        assert(gain.0 == gx && gain.1 == gy);
        let r = 5 * k;
        assert(gx * gx * (c * c) <= r * r * (k * k) * (dx * dx)) by (nonlinear_arith)
            requires
                magnitude(gx) * c <= 5 * k * k * magnitude(dx),
                c >= 1,
                k >= 1,
                r == 5 * k,
        ;
        assert(gy * gy * (c * c) <= r * r * (k * k) * (dy * dy)) by (nonlinear_arith)
            requires
                magnitude(gy) * c <= 5 * k * k * magnitude(dy),
                c >= 1,
                k >= 1,
                r == 5 * k,
        ;
        let g = gx * gx + gy * gy;
        assert(gx * gx >= 0 && gy * gy >= 0) by (nonlinear_arith);
        assert(g * (c * c) <= r * r * (k * k * q)) by (nonlinear_arith)
            requires
                gx * gx * (c * c) <= r * r * (k * k) * (dx * dx),
                gy * gy * (c * c) <= r * r * (k * k) * (dy * dy),
                g == gx * gx + gy * gy,
                q == dx * dx + dy * dy,
        ;
        assert(g <= r * r) by (nonlinear_arith)
            requires
                g * (c * c) <= r * r * (k * k * q),
                c * c >= q * k * k,
                c * c > 0,
                g >= 0,
                r * r >= 0,
        ;
        assert(g * q <= (r * k) * (r * k)) by (nonlinear_arith)
            requires
                g <= r * r,
                0 <= g,
                1 <= q < k * k,
        ;
    }
}

/// One component of the impulse between particles nearer than one is
/// within the limit, and its magnitude times the rounded-up root is no more
/// than the radius times that component of the way.
proof fn lemma_component_bounded(d: int, q: int, c: int, g: int)
    requires
        -UNIT < d < UNIT,
        d * d <= q,
        c >= 1,
        c * c >= q * UNIT * UNIT,
        g == quotient_toward_zero(PARTICLE_RADIUS * UNIT * d, c),
        magnitude(g) * c <= magnitude(PARTICLE_RADIUS * UNIT * d),
    ensures
        clamp(g) == g,
        magnitude(g) * c <= 5 * UNIT * UNIT * magnitude(d),
{
    let k = UNIT as int;
    assert(magnitude(PARTICLE_RADIUS * UNIT * d) == 5 * k * k * magnitude(d)) by (nonlinear_arith)
        requires
            PARTICLE_RADIUS == 5 * k,
            UNIT == k,
            k > 0,
    ;
    assert(magnitude(g) <= 5 * k * k * k) by (nonlinear_arith)
        requires
            magnitude(g) * c <= 5 * k * k * magnitude(d),
            c >= 1,
            magnitude(d) < k,
            magnitude(g) >= 0,
            k > 0,
    ;
    assert(5 * k * k * k <= 5_000_000_000_000_000_000) by (nonlinear_arith)
        requires
            k == 1_000_000,
    ;
    assert(magnitude(d) * magnitude(d) == d * d) by (nonlinear_arith)
        requires
            magnitude(d) == d || magnitude(d) == -d,
    ;
    assert(k * magnitude(d) <= c) by (nonlinear_arith)
        requires
            c * c >= q * k * k,
            d * d <= q,
            magnitude(d) * magnitude(d) == d * d,
            c >= 1,
            k > 0,
            magnitude(d) >= 0,
    ;
    assert(magnitude(g) <= 5 * k) by (nonlinear_arith)
        requires
            magnitude(g) * c <= 5 * k * k * magnitude(d),
            k * magnitude(d) <= c,
            c >= 1,
            magnitude(g) >= 0,
            k > 0,
    ;
}

fn quotient(n: i128, d: i128) -> (r: i128)
    requires
        d > 0,
    ensures
        r == quotient_toward_zero(n as int, d as int),
{
    n / d
}

fn pull_of(d: Real, q: i128, attraction: Real, reach_squared: i128, prevent: bool) -> (r: Real)
    requires
        -LIMIT <= d <= LIMIT,
        0 < q <= 2 * LIMIT * LIMIT,
        d * d <= q,
    ensures
        forall|reach: int|
            reach * reach == reach_squared ==> r == #[trigger] pull(
                d as int,
                q as int,
                attraction as int,
                reach,
                prevent,
            ),
{
    if q > reach_squared {
        0
    } else if q > 100_000_000_000_000 {
        let strength: i128 = saturate(attraction as i128) as i128;
        assert(-1_000_000_000_000_000_000 <= 1_000_000 * strength <= 1_000_000_000_000_000_000);
        let scaled: i128 = 1_000_000 * strength;
        assert(-1_000_000_000_000_000_000_000_000_000_000 <= scaled * d
            <= 1_000_000_000_000_000_000_000_000_000_000) by (nonlinear_arith)
            requires
                -1_000_000_000_000_000_000 <= scaled <= 1_000_000_000_000_000_000,
                -1_000_000_000_000 <= d <= 1_000_000_000_000,
        ;
        assert(UNIT * clamp(attraction as int) * d == scaled * d);
        saturate(quotient(scaled * (d as i128), q))
    } else if prevent && q < 1_000_000_000_000 {
        let wide: i128 = q * 1_000_000_000_000;
        let root: i128 = root_above_of(wide);
        assert(root > 0) by {
            if root == 0 {
                assert(root * root == 0) by (nonlinear_arith)
                    requires
                        root == 0,
                ;
            }
        }
        assert(PARTICLE_RADIUS * UNIT * d == 5_000_000_000_000 * d);
        assert(q * UNIT * UNIT == wide) by (nonlinear_arith)
            requires
                wide == q * 1_000_000_000_000,
                UNIT == 1_000_000,
        ;
        saturate(quotient(5_000_000_000_000 * (d as i128), root))
    } else {
        assert(PARTICLE_RADIUS * UNIT * d == 5_000_000_000_000 * d);
        saturate(quotient(-(5_000_000_000_000 * (d as i128)), q))
    }
}

/// What a particle gains from another that is `delta` away.
pub fn impulse_from_delta(
    delta: [Real; 2],
    attraction: Real,
    max_distance: Real,
    prevent: bool,
) -> (r: [Real; 2])
    requires
        delta[0] != 0 || delta[1] != 0,
    ensures
        (r[0] as int, r[1] as int) == contribution(
            delta[0] as int,
            delta[1] as int,
            attraction as int,
            max_distance as int,
            prevent,
        ),
{
    let dx: Real = saturate(delta[0] as i128);
    let dy: Real = saturate(delta[1] as i128);
    let xx: i128 = widen_product(dx as i128, dx as i128);
    let yy: i128 = widen_product(dy as i128, dy as i128);
    proof {
        assert(0 <= dx * dx <= LIMIT * LIMIT) by (nonlinear_arith)
            requires
                -LIMIT <= dx <= LIMIT,
        ;
        assert(0 <= dy * dy <= LIMIT * LIMIT) by (nonlinear_arith)
            requires
                -LIMIT <= dy <= LIMIT,
        ;
        assert(dx != 0 ==> dx * dx > 0) by (nonlinear_arith);
        assert(dy != 0 ==> dy * dy > 0) by (nonlinear_arith);
        assert(LIMIT * LIMIT == 1_000_000_000_000_000_000_000_000);
    }
    let q: i128 = xx + yy;
    let reach_squared: i128 = widen_product(max_distance as i128, max_distance as i128);
    let rx: Real = pull_of(dx, q, attraction, reach_squared, prevent);
    let ry: Real = pull_of(dy, q, attraction, reach_squared, prevent);
    proof {
        assert(q == squared_length(clamp(delta[0] as int), clamp(delta[1] as int)));
        assert(rx == pull(dx as int, q as int, attraction as int, max_distance as int, prevent));
        assert(ry == pull(dy as int, q as int, attraction as int, max_distance as int, prevent));
    }
    [rx, ry]
}

fn jitter() -> (j: Real)
    ensures
        is_jitter(j as int),
{
    let size: i64 = quick_between(1, 100_000);
    if quick_bits() & 1 != 0 {
        size
    } else {
        -size
    }
}

impl Default for Particle {
    /// A particle of species 0, at rest at the origin.
    fn default() -> (p: Self)
        ensures
            p.position[0] == 0,
            p.position[1] == 0,
            p.velocity[0] == 0,
            p.velocity[1] == 0,
            p.typ == 0,
    {
        Particle { position: [0, 0], velocity: [0, 0], typ: 0 }
    }
}

impl Particle {
    /// A particle at `position`, moving at `velocity`, of species `typ`.
    pub fn new(position: [Real; 2], velocity: [Real; 2], typ: usize) -> (p: Self)
        ensures
            p.position == position,
            p.velocity == velocity,
            p.typ == typ,
    {
        Particle { position, velocity, typ }
    }

    /// Adds `impulse` to the velocity, moves the particle by half the new
    /// velocity, and then damps the velocity to nine tenths.
    pub fn apply_velocity(&mut self, impulse: [Real; 2])
        ensures
            *final(self) == stepped(*old(self), impulse),
            forall|axis: int|
                0 <= axis < 2 ==> -LIMIT <= #[trigger] final(self).position[axis] <= LIMIT && -LIMIT
                    <= final(self).velocity[axis] <= LIMIT,
    {
        let vx: Real = sum(self.velocity[0], impulse[0]);
        let vy: Real = sum(self.velocity[1], impulse[1]);
        self.position[0] = saturate(self.position[0] as i128 + quotient(vx as i128, 2));
        self.position[1] = saturate(self.position[1] as i128 + quotient(vy as i128, 2));
        self.velocity[0] = quotient(9 * (vx as i128), 10) as Real;
        self.velocity[1] = quotient(9 * (vy as i128), 10) as Real;
        proof {
            lemma_quotient_toward_zero(9 * vx, 10);
            lemma_quotient_toward_zero(9 * vy, 10);
            let after = stepped(*old(self), impulse);
            assert(self.position =~= after.position);
            assert(self.velocity =~= after.velocity);
        }
    }

    /// Adds to `impulse` what this particle gains from `other`. Where the
    /// two are in one place, a random vector stands for the way between them.
    pub fn update_impulse_with_particle(
        &self,
        other: Particle,
        type_data: &ParticleTypeData,
        params: &ParticleSimulationParams,
        max_distance: Real,
        impulse: &mut [Real; 2],
    )
        requires
            type_data.wf(),
            self.typ < type_data.count(),
            other.typ < type_data.count(),
        ensures
            pair_step(
                *self,
                other,
                type_data.scaled_attractions.at(self.typ as int, other.typ as int) as int,
                max_distance as int,
                params.prevent_particle_ejecting,
                *old(impulse),
                *final(impulse),
            ),
    {
        let attraction: Real = type_data.get_attraction(self.typ, other.typ);
        let same: bool = self.position[0] == other.position[0] && self.position[1]
            == other.position[1];
        let delta: [Real; 2] = if same {
            [jitter(), jitter()]
        } else {
            [
                difference(other.position[0], self.position[0]),
                difference(other.position[1], self.position[1]),
            ]
        };
        let gain: [Real; 2] = impulse_from_delta(
            delta,
            attraction,
            max_distance,
            params.prevent_particle_ejecting,
        );
        let ghost before = *impulse;
        impulse[0] = sum(impulse[0], gain[0]);
        impulse[1] = sum(impulse[1], gain[1]);
        proof {
            let prevent = params.prevent_particle_ejecting;
            if same {
                assert(gained(
                    before,
                    *impulse,
                    delta[0] as int,
                    delta[1] as int,
                    attraction as int,
                    max_distance as int,
                    prevent,
                ));
            } else {
                let dx = other.position[0] - self.position[0];
                let dy = other.position[1] - self.position[1];
                assert(clamp(clamp(dx)) == clamp(dx));
                assert(clamp(clamp(dy)) == clamp(dy));
                assert(contribution(dx, dy, attraction as int, max_distance as int, prevent)
                    == contribution(
                    delta[0] as int,
                    delta[1] as int,
                    attraction as int,
                    max_distance as int,
                    prevent,
                ));
            }
        }
    }

    /// Holds the particle inside a world of the given size, and says for
    /// each axis which way is inward where the particle was outside.
    pub fn constrain_to_size(&mut self, size: [Real; 2]) -> (direction: [Real; 2])
        ensures
            final(self).typ == old(self).typ,
            final(self).velocity == old(self).velocity,
            forall|axis: int|
                0 <= axis < 2 ==> {
                    &&& #[trigger] final(self).position[axis] == constrained(
                        old(self).position[axis] as int,
                        size[axis] as int,
                    )
                    &&& direction[axis] == inward(
                        old(self).position[axis] as int,
                        size[axis] as int,
                    )
                },
    {
        let mut direction: [Real; 2] = [0, 0];
        let far: [Real; 2] = [difference(size[0], 10), difference(size[1], 10)];
        if self.position[0] < 0 {
            direction[0] = 1_000_000;
            self.position[0] = 0;
        } else if self.position[0] > far[0] {
            direction[0] = -1_000_000;
            self.position[0] = far[0];
        }
        if self.position[1] < 0 {
            direction[1] = 1_000_000;
            self.position[1] = 0;
        } else if self.position[1] > far[1] {
            direction[1] = -1_000_000;
            self.position[1] = far[1];
        }
        direction
    }
}

} // verus!
