//! The executable simulation: a stable-id arena of groups, particles and
//! bonds, the three per-tick stages, and read accessors.

use vstd::prelude::*;
use crate::math::{
    mag, sgn, sqrt_floor, Vec2, isqrt, isqrt_up, div_trunc, lemma_sqrt_floor, lemma_div_t_mag,
    lemma_div_t_scale, lemma_root_le, lemma_root_floor, lemma_square_le, lemma_mag_mul_le,
    lemma_div_t_half_scale,
};
use crate::components::{
    Config, Charge, Velocity, Group, Particle, Bond, BondPlacement, CfgS, GroupS,
    pviews, bviews, gviews, uviews, lemma_pviews_update, lemma_pviews_push, lemma_bviews_update,
    lemma_bviews_push, lemma_gviews_push, lemma_uviews_push, SCALE, DT_SCALE, FRICTION_ONE,
    FRICTION_DENOM, GROUP_RADIUS_MAX, MAX_PARTICLES, MAX_TICK_MILLIS, COORD_CAP, BOND_LENGTH_MAX,
    HALF_EXTENT_MAX, POS_SLACK, VEL_LIMIT, PUSH_STEP, FORCE_STEP,
};
use crate::model::{
    SimS, cfg_wf, group_wf, sim_wf, sim_struct_wf, particle_struct_wf, particle_coords_wf,
    coords_bounded, bond_wf, bonds_neutralized, bonds_distinct, pair_bonded, bond_ids_upto,
    bond_ids_of, reflect_axis, clamp_speed, damp, integrate_vals, bond_vals, lemma_wf_group_grow,
    colliding, collide_step, force_step, pair_step, charge_after, in_force_range, force_of,
    lemma_wf_spawn, integrate_one, integrate_all, lemma_integrate_props, bond_step, bonds_from,
    bonds_all, lemma_bond_step_props, lemma_bonds_count, interact_from, interact_all, tick_spec,
    lemma_pair_step_props, spawned_particle,
};

verus! {

/// The simulation: configuration, group registry, particle arena and bond
/// arena.  Groups and particles are created at initialization; bonds are
/// created by the interaction resolver.  Nothing is ever removed.
pub struct Simulation {
    config: Config,
    groups: Vec<Group>,
    particles: Vec<Particle>,
    bonds: Vec<Bond>,
}

impl View for Simulation {
    type V = SimS;

    closed spec fn view(&self) -> SimS {
        SimS {
            groups: gviews(self.groups@),
            particles: pviews(self.particles@),
            bonds: bviews(self.bonds@),
        }
    }
}

impl Simulation {
    /// The ghost image of the configuration.
    pub closed spec fn cfg(&self) -> CfgS {
        self.config@
    }

    /// The whole-state invariant, established by `new` and preserved by
    /// every method.
    pub open spec fn wf(&self) -> bool {
        sim_wf(self.cfg(), self@)
    }

    /// An empty simulation with the given configuration.
    pub fn new(config: Config) -> (sim: Simulation)
        requires
            cfg_wf(config@),
        ensures
            sim.wf(),
            sim.cfg() == config@,
            sim@.groups.len() == 0,
            sim@.particles.len() == 0,
            sim@.bonds.len() == 0,
    {
        let sim = Simulation { config, groups: Vec::new(), particles: Vec::new(), bonds: Vec::new() };
        proof {
            assert(sim@.groups.len() == 0);
            assert(sim@.particles.len() == 0);
            assert(sim@.bonds.len() == 0);
        }
        sim
    }

    /// Register a group.  Groups are immutable once added.
    pub fn add_group(&mut self, name: String, radius: i64, base_charge: i8) -> (id: usize)
        requires
            old(self).wf(),
            0 < radius <= GROUP_RADIUS_MAX,
        ensures
            final(self).wf(),
            final(self).cfg() == old(self).cfg(),
            id == old(self)@.groups.len(),
            final(self)@.groups == old(self)@.groups.push(
                GroupS { name: name@, radius: radius as int, base_charge: base_charge as int },
            ),
            final(self)@.particles == old(self)@.particles,
            final(self)@.bonds == old(self)@.bonds,
    {
        let id = self.groups.len();
        let g = Group { name, radius, base_charge };
        proof {
            lemma_gviews_push(self.groups@, g);
            lemma_wf_group_grow(self.cfg(), self@, g@);
        }
        self.groups.push(g);
        id
    }

    /// Spawn a particle of `group` at `position`, at rest, with the
    /// group's base charge; its mass is fixed to the magnitude of that
    /// charge, for good.
    pub fn spawn_particle(&mut self, group: usize, position: Vec2) -> (id: usize)
        requires
            old(self).wf(),
            group < old(self)@.groups.len(),
            old(self)@.particles.len() < MAX_PARTICLES,
            mag(position.x as int) <= old(self).cfg().half_x,
            mag(position.y as int) <= old(self).cfg().half_y,
        ensures
            final(self).wf(),
            final(self).cfg() == old(self).cfg(),
            id == old(self)@.particles.len(),
            final(self)@.particles == old(self)@.particles.push(
                spawned_particle(
                    old(self)@.groups[group as int],
                    position.x as int,
                    position.y as int,
                    group as int,
                ),
            ),
            final(self)@.groups == old(self)@.groups,
            final(self)@.bonds == old(self)@.bonds,
    {
        let id = self.particles.len();
        let base = self.groups[group].base_charge;
        let m: u8 = if base < 0 {
            (-(base as i16)) as u8
        } else {
            base as u8
        };
        let p = Particle {
            position,
            velocity: Velocity(Vec2 { x: 0, y: 0 }),
            charge: Charge(base),
            mass: m,
            group,
        };
        proof {
            lemma_pviews_push(self.particles@, p);
            assert(p@.charge == self@.groups[group as int].base_charge);
            assert(p@.mass == mag(p@.charge));
            lemma_wf_spawn(self.cfg(), self@, p@);
        }
        self.particles.push(p);
        id
    }

    /// Spawn one particle of `group` at each of the given positions, in
    /// order: the population step of initialization.  The caller chooses
    /// the placement strategy; the particles spawn at rest with the
    /// group's base charge.
    pub fn spawn_group_particles(&mut self, group: usize, positions: &Vec<Vec2>)
        requires
            old(self).wf(),
            group < old(self)@.groups.len(),
            old(self)@.particles.len() + positions@.len() <= MAX_PARTICLES,
            forall|k: int|
                0 <= k < positions@.len() ==> mag(#[trigger] positions@[k].x as int) <= old(
                    self,
                ).cfg().half_x && mag(positions@[k].y as int) <= old(self).cfg().half_y,
        ensures
            final(self).wf(),
            final(self).cfg() == old(self).cfg(),
            final(self)@.groups == old(self)@.groups,
            final(self)@.bonds == old(self)@.bonds,
            final(self)@.particles.len() == old(self)@.particles.len() + positions@.len(),
            forall|k: int|
                0 <= k < old(self)@.particles.len() ==> #[trigger] final(self)@.particles[k]
                    == old(self)@.particles[k],
            forall|k: int|
                0 <= k < positions@.len() ==> #[trigger] final(self)@.particles[old(
                    self,
                )@.particles.len() + k] == spawned_particle(
                    old(self)@.groups[group as int],
                    positions@[k].x as int,
                    positions@[k].y as int,
                    group as int,
                ),
    {
        let ghost s0 = old(self)@;
        let ghost c = old(self).cfg();
        let base = self.particles.len();
        let total = positions.len();
        let mut k: usize = 0;
        while k < total
            invariant
                k <= total,
                total == positions@.len(),
                s0 == old(self)@,
                c == old(self).cfg(),
                self.cfg() == c,
                self.wf(),
                group < self@.groups.len(),
                base == s0.particles.len(),
                self@.groups == s0.groups,
                self@.bonds == s0.bonds,
                self@.particles.len() == base + k,
                base + total <= MAX_PARTICLES,
                forall|l: int|
                    0 <= l < positions@.len() ==> mag(#[trigger] positions@[l].x as int)
                        <= c.half_x && mag(positions@[l].y as int) <= c.half_y,
                forall|l: int|
                    0 <= l < base ==> #[trigger] self@.particles[l] == s0.particles[l],
                forall|l: int|
                    0 <= l < k ==> #[trigger] self@.particles[base + l] == spawned_particle(
                        s0.groups[group as int],
                        positions@[l].x as int,
                        positions@[l].y as int,
                        group as int,
                    ),
            decreases total - k,
        {
            let pos = positions[k];
            self.spawn_particle(group, pos);
            k += 1;
        }
    }

    /// How many particles the simulation holds.
    pub fn particle_count(&self) -> (n: usize)
        ensures
            n == self@.particles.len(),
    {
        self.particles.len()
    }

    /// How many groups the simulation holds.
    pub fn group_count(&self) -> (n: usize)
        ensures
            n == self@.groups.len(),
    {
        self.groups.len()
    }

    /// How many bonds exist.
    pub fn bond_count(&self) -> (n: usize)
        ensures
            n == self@.bonds.len(),
    {
        self.bonds.len()
    }

    /// Read one particle.
    pub fn particle(&self, i: usize) -> (p: &Particle)
        requires
            i < self@.particles.len(),
        ensures
            p@ == self@.particles[i as int],
    {
        &self.particles[i]
    }

    /// Read one group.
    pub fn group(&self, g: usize) -> (r: &Group)
        requires
            g < self@.groups.len(),
        ensures
            r@ == self@.groups[g as int],
    {
        &self.groups[g]
    }

    /// Read one bond.
    pub fn bond(&self, k: usize) -> (b: &Bond)
        requires
            k < self@.bonds.len(),
        ensures
            b@ == self@.bonds[k as int],
    {
        &self.bonds[k]
    }

    /// Read the configuration.
    pub fn config(&self) -> (c: &Config)
        ensures
            c@ == self.cfg(),
    {
        &self.config
    }

    /// The bonds particle `i` participates in, in creation order: the
    /// particle's append-only bond list.
    pub fn bonds_of(&self, i: usize) -> (ids: Vec<usize>)
        requires
            i < self@.particles.len(),
        ensures
            uviews(ids@) == bond_ids_of(self@, i as int),
    {
        let mut ids: Vec<usize> = Vec::new();
        let mut k: usize = 0;
        let m = self.bonds.len();
        proof {
            assert(uviews(ids@) =~= bond_ids_upto(self@, i as int, 0));
        }
        while k < m
            invariant
                k <= m,
                m == self@.bonds.len(),
                i < self@.particles.len(),
                uviews(ids@) == bond_ids_upto(self@, i as int, k as int),
            decreases m - k,
        {
            let b = &self.bonds[k];
            if b.particle_a == i || b.particle_b == i {
                proof {
                    lemma_uviews_push(ids@, k);
                }
                ids.push(k);
            }
            k += 1;
        }
        ids
    }

    /// The integrator pass: for every particle independently, speed clamp,
    /// friction damping, one Euler step of `dt` milliseconds, and boundary
    /// reflection, in that order, so every particle ends the tick within
    /// the inset plane.  Restores the resting coordinate bounds whatever
    /// the earlier stages did within machine limits.
    pub fn integrate(&mut self, dt: u64)
        requires
            sim_struct_wf(old(self).cfg(), old(self)@),
            coords_bounded(old(self)@, COORD_CAP as int, COORD_CAP as int),
            dt <= MAX_TICK_MILLIS,
        ensures
            final(self).cfg() == old(self).cfg(),
            final(self)@ == integrate_all(old(self).cfg(), old(self)@, dt as int),
            final(self).wf(),
    {
        let ghost c = old(self).cfg();
        let ghost s0 = old(self)@;
        let n = self.particles.len();
        let mut i: usize = 0;
        while i < n
            invariant
                i <= n,
                n == self@.particles.len(),
                self.cfg() == c,
                c == old(self).cfg(),
                s0 == old(self)@,
                sim_struct_wf(c, s0),
                coords_bounded(s0, COORD_CAP as int, COORD_CAP as int),
                dt <= MAX_TICK_MILLIS,
                self@.groups == s0.groups,
                self@.bonds == s0.bonds,
                s0.particles.len() == n,
                forall|k: int|
                    0 <= k < i ==> self@.particles[k] == integrate_one(
                        c,
                        #[trigger] s0.particles[k],
                        dt as int,
                    ),
                forall|k: int| i <= k < n ==> #[trigger] self@.particles[k] == s0.particles[k],
            decreases n - i,
        {
            let p = self.particles[i];
            proof {
                assert(self@.particles[i as int] == s0.particles[i as int]);
                assert(p@ == self@.particles[i as int]);
            }
            let (np, nv) = integrate_particle(&self.config, p.position, p.velocity.0, dt);
            let q = Particle {
                position: np,
                velocity: Velocity(nv),
                charge: p.charge,
                mass: p.mass,
                group: p.group,
            };
            proof {
                lemma_pviews_update(self.particles@, i as int, q);
            }
            self.particles[i] = q;
            proof {
                assert(q@ == integrate_one(c, s0.particles[i as int], dt as int));
            }
            i += 1;
        }
        proof {
            let fin = self@;
            assert(fin.particles =~= Seq::new(
                s0.particles.len(),
                |k: int| integrate_one(c, s0.particles[k], dt as int),
            ));
            assert(fin =~= integrate_all(c, s0, dt as int));
            assert forall|k: int| 0 <= k < fin.particles.len() implies #[trigger] particle_struct_wf(
                fin,
                k,
            ) by {
                assert(particle_struct_wf(s0, k));
            }
            assert forall|k: int| 0 <= k < fin.particles.len() implies #[trigger] particle_coords_wf(
                c,
                fin,
                k,
            ) by {
                let p0 = s0.particles[k];
                lemma_integrate_props(c, p0.px, p0.py, p0.vx, p0.vy, dt as int);
            }
            assert forall|k: int| 0 <= k < fin.bonds.len() implies #[trigger] bond_wf(fin, k) by {
                assert(bond_wf(s0, k));
            }
            assert(bonds_neutralized(fin)) by {
                assert forall|k: int|
                    0 <= k < fin.bonds.len() implies #[trigger] fin.particles[fin.bonds[k].a].charge
                    == 0 || fin.particles[fin.bonds[k].b].charge == 0 by {
                    assert(bond_wf(s0, k));
                    assert(s0.particles[s0.bonds[k].a].charge == 0
                        || s0.particles[s0.bonds[k].b].charge == 0);
                }
            }
            assert(bonds_distinct(fin)) by {
                assert forall|k1: int, k2: int|
                    0 <= k1 < k2 < fin.bonds.len() implies !(#[trigger] fin.bonds[k1].a
                    == #[trigger] fin.bonds[k2].a && fin.bonds[k1].b == fin.bonds[k2].b) by {
                    assert(!(s0.bonds[k1].a == s0.bonds[k2].a && s0.bonds[k1].b == s0.bonds[k2].b));
                }
            }
        }
    }

    /// One visit of the bond constraint solver: enforce the rest length on
    /// bond `k` and refresh its placement; endpoints less than one unit
    /// apart are a guarded no-op.
    fn bond_update(&mut self, k: usize, Ghost(pbound): Ghost<int>, Ghost(vbound): Ghost<int>)
        requires
            sim_struct_wf(old(self).cfg(), old(self)@),
            k < old(self)@.bonds.len(),
            coords_bounded(old(self)@, pbound, vbound),
            0 <= pbound <= 999_000_000_000_000,
            0 <= vbound <= COORD_CAP,
        ensures
            final(self).cfg() == old(self).cfg(),
            final(self)@ == bond_step(old(self).cfg(), old(self)@, k as int),
    {
        let ghost c = old(self).cfg();
        let ghost s0 = old(self)@;
        proof {
            assert(bond_wf(s0, k as int));
        }
        let bd = self.bonds[k];
        let ia = bd.particle_a;
        let ib = bd.particle_b;
        let pa = self.particles[ia];
        let pb = self.particles[ib];
        proof {
            assert(pa@ == s0.particles[ia as int]);
            assert(pb@ == s0.particles[ib as int]);
        }
        let dx = pa.position.x - pb.position.x;
        let dy = pa.position.y - pb.position.y;
        proof {
            lemma_square_le(mag(dx as int), 2 * COORD_CAP as int);
            lemma_square_le(mag(dy as int), 2 * COORD_CAP as int);
            assert((dx as int) * (dx as int) == mag(dx as int) * mag(dx as int))
                by (nonlinear_arith);
            assert((dy as int) * (dy as int) == mag(dy as int) * mag(dy as int))
                by (nonlinear_arith);
        }
        let d2 = (dx as i128) * (dx as i128) + (dy as i128) * (dy as i128);
        proof {
            assert(d2 >= 0) by (nonlinear_arith)
                requires
                    d2 == (dx as int) * (dx as int) + (dy as int) * (dy as int),
            ;
        }
        let d = isqrt(d2 as u128);
        proof {
            lemma_sqrt_floor(d2 as int);
        }
        if d >= (SCALE as u64) {
            let (na, nb) = bond_reposition(&self.config, pa.position, pb.position, pa.mass, pb.mass);
            let qa = Particle {
                position: na,
                velocity: pa.velocity,
                charge: pa.charge,
                mass: pa.mass,
                group: pa.group,
            };
            let qb = Particle {
                position: nb,
                velocity: pb.velocity,
                charge: pb.charge,
                mass: pb.mass,
                group: pb.group,
            };
            proof {
                lemma_pviews_update(self.particles@, ia as int, qa);
            }
            self.particles[ia] = qa;
            proof {
                lemma_pviews_update(self.particles@, ib as int, qb);
            }
            self.particles[ib] = qb;
            proof {
                lemma_root_le(d as int, 3_000_000_000_000_000);
            }
            let mx = div_trunc((na.x as i128) + (nb.x as i128), 2) as i64;
            let my = div_trunc((na.y as i128) + (nb.y as i128), 2) as i64;
            let qk = Bond {
                particle_a: bd.particle_a,
                particle_b: bd.particle_b,
                c_bond: bd.c_bond,
                placement: BondPlacement {
                    midpoint: Vec2 { x: mx, y: my },
                    length: d as i64,
                    direction: Vec2 { x: dx, y: dy },
                },
            };
            proof {
                lemma_bviews_update(self.bonds@, k as int, qk);
                lemma_div_t_mag((na.x as int) + (nb.x as int), 2);
                lemma_div_t_mag((na.y as int) + (nb.y as int), 2);
            }
            self.bonds[k] = qk;
            proof {
                assert(self@ =~= bond_step(c, s0, k as int));
            }
        } else {
            proof {
                assert(self@ =~= bond_step(c, s0, k as int));
            }
        }
    }

    /// Whether some bond joins particles `i` and `j`.
    fn pair_is_bonded(&self, i: usize, j: usize) -> (r: bool)
        ensures
            r == pair_bonded(self@, i as int, j as int),
    {
        let m = self.bonds.len();
        let mut k: usize = 0;
        let mut found = false;
        while k < m
            invariant
                k <= m,
                m == self@.bonds.len(),
                found == exists|l: int|
                    0 <= l < k && #[trigger] self@.bonds[l].a == i as int && self@.bonds[l].b
                        == j as int,
            decreases m - k,
        {
            let b = &self.bonds[k];
            if b.particle_a == i && b.particle_b == j {
                proof {
                    assert(self@.bonds[k as int].a == i as int && self@.bonds[k as int].b
                        == j as int);
                }
                found = true;
            }
            k += 1;
        }
        found
    }

    /// One visit of the interaction resolver on the unordered pair
    /// `(i, j)`: collision handling with bonding, then — unless the pair
    /// is bonded — the long-range force.
    fn pair_update(&mut self, i: usize, j: usize, Ghost(pbound): Ghost<int>, Ghost(vbound): Ghost<int>)
        requires
            sim_struct_wf(old(self).cfg(), old(self)@),
            i < j,
            (j as int) < old(self)@.particles.len(),
            coords_bounded(old(self)@, pbound, vbound),
            0 <= pbound <= 500_000_000_000_000,
            0 <= vbound <= 500_000_000_000_000,
        ensures
            final(self).cfg() == old(self).cfg(),
            final(self)@ == pair_step(old(self).cfg(), old(self)@, i as int, j as int),
    {
        let ghost c = old(self).cfg();
        let ghost s0 = old(self)@;
        proof {
            assert(particle_struct_wf(s0, i as int));
            assert(particle_struct_wf(s0, j as int));
        }
        let pa = self.particles[i];
        let pb = self.particles[j];
        let ca = pa.charge.0;
        let cb = pb.charge.0;
        let dx = pa.position.x - pb.position.x;
        let dy = pa.position.y - pb.position.y;
        proof {
            lemma_square_le(mag(dx as int), 1_000_000_000_000_000);
            lemma_square_le(mag(dy as int), 1_000_000_000_000_000);
            assert((dx as int) * (dx as int) == mag(dx as int) * mag(dx as int))
                by (nonlinear_arith);
            assert((dy as int) * (dy as int) == mag(dy as int) * mag(dy as int))
                by (nonlinear_arith);
        }
        let d2 = (dx as i128) * (dx as i128) + (dy as i128) * (dy as i128);
        let ghost d2s = (dx as int) * (dx as int) + (dy as int) * (dy as int);
        let rad = self.config.particle_radius;
        let radw = rad as i128;
        proof {
            lemma_square_le(rad as int, 100_000);
        }
        let rr = radw * radw;
        let thr = 4 * rr;
        proof {
            assert(thr as int == 4 * (rad as int) * (rad as int)) by (nonlinear_arith)
                requires
                    thr as int == 4 * ((rad as int) * (rad as int)),
            ;
            assert(rr >= 1) by (nonlinear_arith)
                requires
                    rr == radw * radw,
                    radw >= 1,
            ;
        }
        if d2 <= thr {
            // Collision: separate deep overlaps, bounce, and maybe bond.
            let deep = d2 < rr;
            let (nposa, nposb) = if deep {
                proof {
                    assert((dx as int) * (dx as int) <= d2s && (dy as int) * (dy as int) <= d2s)
                        by (nonlinear_arith)
                        requires
                            d2s == (dx as int) * (dx as int) + (dy as int) * (dy as int),
                    ;
                    lemma_root_le(dx as int, rad as int);
                    lemma_root_le(dy as int, rad as int);
                    lemma_mag_mul_le(dx as int, rad as int, 100_000, 100_000);
                    lemma_mag_mul_le(dy as int, rad as int, 100_000, 100_000);
                }
                let ux = div_trunc((dx as i128) * radw, SCALE as i128);
                let uy = div_trunc((dy as i128) * radw, SCALE as i128);
                proof {
                    lemma_div_t_mag((dx as int) * (rad as int), SCALE as int);
                    lemma_div_t_mag((dy as int) * (rad as int), SCALE as int);
                }
                (
                    Vec2 { x: pa.position.x - (ux as i64), y: pa.position.y - (uy as i64) },
                    Vec2 { x: pb.position.x + (ux as i64), y: pb.position.y + (uy as i64) },
                )
            } else {
                (pa.position, pb.position)
            };
            let nva = Vec2 { x: -pa.velocity.0.x, y: -pa.velocity.0.y };
            let nvb = Vec2 { x: -pb.velocity.0.x, y: -pb.velocity.0.y };
            let opposite = ca != 0 && cb != 0 && ((ca < 0) != (cb < 0));
            if opposite {
                let maga: i16 = if ca < 0 {
                    -(ca as i16)
                } else {
                    ca as i16
                };
                let magb: i16 = if cb < 0 {
                    -(cb as i16)
                } else {
                    cb as i16
                };
                let amt: i16 = if maga <= magb {
                    maga
                } else {
                    magb
                };
                let nca: i8 = if ca >= 0 {
                    (ca as i16 - amt) as i8
                } else {
                    (ca as i16 + amt) as i8
                };
                let ncb: i8 = if cb >= 0 {
                    (cb as i16 - amt) as i8
                } else {
                    (cb as i16 + amt) as i8
                };
                proof {
                    if ca > 0 {
                        assert(sgn(ca as int) * (amt as int) == amt as int) by (nonlinear_arith)
                            requires
                                sgn(ca as int) == 1,
                        ;
                    } else {
                        assert(sgn(ca as int) * (amt as int) == -(amt as int)) by (nonlinear_arith)
                            requires
                                sgn(ca as int) == -1,
                        ;
                    }
                    if cb > 0 {
                        assert(sgn(cb as int) * (amt as int) == amt as int) by (nonlinear_arith)
                            requires
                                sgn(cb as int) == 1,
                        ;
                    } else {
                        assert(sgn(cb as int) * (amt as int) == -(amt as int)) by (nonlinear_arith)
                            requires
                                sgn(cb as int) == -1,
                        ;
                    }
                    assert(nca as int == charge_after(ca as int, amt as int));
                    assert(ncb as int == charge_after(cb as int, amt as int));
                }
                let qa = Particle {
                    position: nposa,
                    velocity: Velocity(nva),
                    charge: Charge(nca),
                    mass: pa.mass,
                    group: pa.group,
                };
                let qb = Particle {
                    position: nposb,
                    velocity: Velocity(nvb),
                    charge: Charge(ncb),
                    mass: pb.mass,
                    group: pb.group,
                };
                proof {
                    lemma_pviews_update(self.particles@, i as int, qa);
                }
                self.particles[i] = qa;
                proof {
                    lemma_pviews_update(self.particles@, j as int, qb);
                }
                self.particles[j] = qb;
                let nb = Bond {
                    particle_a: i,
                    particle_b: j,
                    c_bond: amt as u8,
                    placement: BondPlacement {
                        midpoint: Vec2 { x: 0, y: 0 },
                        length: 0,
                        direction: Vec2 { x: 0, y: 0 },
                    },
                };
                proof {
                    lemma_bviews_push(self.bonds@, nb);
                }
                self.bonds.push(nb);
                proof {
                    assert(self@ =~= collide_step(c, s0, i as int, j as int));
                }
            } else {
                let qa = Particle {
                    position: nposa,
                    velocity: Velocity(nva),
                    charge: Charge(ca),
                    mass: pa.mass,
                    group: pa.group,
                };
                let qb = Particle {
                    position: nposb,
                    velocity: Velocity(nvb),
                    charge: Charge(cb),
                    mass: pb.mass,
                    group: pb.group,
                };
                proof {
                    lemma_pviews_update(self.particles@, i as int, qa);
                }
                self.particles[i] = qa;
                proof {
                    lemma_pviews_update(self.particles@, j as int, qb);
                }
                self.particles[j] = qb;
                proof {
                    assert(self@ =~= collide_step(c, s0, i as int, j as int));
                }
            }
        }
        let ghost s1g = self@;
        proof {
            assert(s1g == if colliding(c, d2s) {
                collide_step(c, s0, i as int, j as int)
            } else {
                s0
            });
        }
        let bonded = self.pair_is_bonded(i, j);
        let ghost target = pair_step(c, s0, i as int, j as int);
        if !bonded && d2 > thr {
            let ra = self.groups[pa.group].radius;
            let rb = self.groups[pb.group].radius;
            proof {
                assert(group_wf(s0.groups[pa.group as int]));
                assert(group_wf(s0.groups[pb.group as int]));
                lemma_square_le(ra as int, 1_000_000_000_000);
                lemma_square_le(rb as int, 1_000_000_000_000);
            }
            let d = isqrt(d2 as u128);
            proof {
                lemma_sqrt_floor(d2 as int);
                assert(d >= 1) by {
                    let fs = sqrt_floor(d2 as int);
                    if fs == 0 {
                        assert((fs + 1) * (fs + 1) == 1) by (nonlinear_arith)
                            requires
                                fs == 0,
                        ;
                    }
                }
                lemma_root_floor(dx as int, d2 as int, d as int);
                lemma_root_floor(dy as int, d2 as int, d as int);
            }
            let maga: i64 = if ca < 0 {
                -(ca as i64)
            } else {
                ca as i64
            };
            let sa: i64 = if ca > 0 {
                1
            } else if ca < 0 {
                -1
            } else {
                0
            };
            let sb: i64 = if cb > 0 {
                1
            } else if cb < 0 {
                -1
            } else {
                0
            };
            proof {
                assert(-1 <= sa * sb <= 1 && (maga + maga) * (sa * sb) <= 256 && (maga + maga) * (sa
                    * sb) >= -256) by (nonlinear_arith)
                    requires
                        -1 <= sa <= 1,
                        -1 <= sb <= 1,
                        0 <= maga <= 128,
                ;
            }
            let f: i64 = -((maga + maga) * (sa * sb));
            proof {
                assert(f as int == force_of(ca as int, cb as int));
                lemma_mag_mul_le(dx as int, f as int, 1_000_000_000_000_000, 256);
                lemma_mag_mul_le(dy as int, f as int, 1_000_000_000_000_000, 256);
                lemma_mag_mul_le((dx as int) * (f as int), pa.mass as int, 256_000_000_000_000_000, 128);
                lemma_mag_mul_le((dy as int) * (f as int), pa.mass as int, 256_000_000_000_000_000, 128);
                lemma_mag_mul_le(
                    (dx as int) * (f as int) * (pa.mass as int),
                    SCALE as int,
                    32_768_000_000_000_000_000,
                    1000,
                );
                lemma_mag_mul_le(
                    (dy as int) * (f as int) * (pa.mass as int),
                    SCALE as int,
                    32_768_000_000_000_000_000,
                    1000,
                );
            }
            let fw = f as i128;
            let maw = pa.mass as i128;
            let num_x = (dx as i128) * fw * maw * (SCALE as i128);
            let num_y = (dy as i128) * fw * maw * (SCALE as i128);
            let den = 2 * (d as i128);
            let ghost kk = (f as int) * (pa.mass as int) * (SCALE as int);
            proof {
                assert(mag(kk) <= 32_768_000) by {
                    lemma_mag_mul_le(f as int, pa.mass as int, 256, 128);
                    lemma_mag_mul_le((f as int) * (pa.mass as int), SCALE as int, 32768, 1000);
                }
                assert(num_x as int == (dx as int) * kk && num_y as int == (dy as int) * kk)
                    by (nonlinear_arith)
                    requires
                        kk == (f as int) * (pa.mass as int) * (SCALE as int),
                        num_x as int == (dx as int) * (f as int) * (pa.mass as int) * (SCALE as int),
                        num_y as int == (dy as int) * (f as int) * (pa.mass as int) * (SCALE as int),
                ;
                lemma_div_t_half_scale(dx as int, kk, d as int);
                lemma_div_t_half_scale(dy as int, kk, d as int);
                lemma_div_t_half_scale(-(dx as int), kk, d as int);
                lemma_div_t_half_scale(-(dy as int), kk, d as int);
            }
            if d2 < (ra as i128) * (ra as i128) {
                let kx = div_trunc(num_x, den) as i64;
                let ky = div_trunc(num_y, den) as i64;
                let qj = Particle {
                    position: pb.position,
                    velocity: Velocity(
                        Vec2 { x: pb.velocity.0.x + kx, y: pb.velocity.0.y + ky },
                    ),
                    charge: pb.charge,
                    mass: pb.mass,
                    group: pb.group,
                };
                proof {
                    lemma_pviews_update(self.particles@, j as int, qj);
                }
                self.particles[j] = qj;
            }
            if d2 < (rb as i128) * (rb as i128) {
                proof {
                    assert(-(num_x as int) == (-(dx as int)) * kk && -(num_y as int) == (-(dy
                        as int)) * kk) by (nonlinear_arith)
                        requires
                            num_x as int == (dx as int) * kk,
                            num_y as int == (dy as int) * kk,
                    ;
                    assert((-(dx as int)) * (f as int) * (pa.mass as int) * (SCALE as int) == -(
                    num_x as int) && (-(dy as int)) * (f as int) * (pa.mass as int) * (SCALE as int)
                        == -(num_y as int)) by (nonlinear_arith)
                        requires
                            num_x as int == (dx as int) * (f as int) * (pa.mass as int) * (
                            SCALE as int),
                            num_y as int == (dy as int) * (f as int) * (pa.mass as int) * (
                            SCALE as int),
                    ;
                }
                let kxn = div_trunc(-num_x, den) as i64;
                let kyn = div_trunc(-num_y, den) as i64;
                let qi = Particle {
                    position: pa.position,
                    velocity: Velocity(
                        Vec2 { x: pa.velocity.0.x + kxn, y: pa.velocity.0.y + kyn },
                    ),
                    charge: pa.charge,
                    mass: pa.mass,
                    group: pa.group,
                };
                proof {
                    lemma_pviews_update(self.particles@, i as int, qi);
                }
                self.particles[i] = qi;
            }
            proof {
                let fs = force_step(
                    c,
                    s1g,
                    i as int,
                    j as int,
                    dx as int,
                    dy as int,
                    ca as int,
                    cb as int,
                    pa.mass as int,
                    ra as int,
                    rb as int,
                );
                assert(self@.particles =~= fs.particles);
                assert(self@ =~= fs);
                assert(self@ == target);
            }
        } else {
            proof {
                if !bonded {
                    let fs = force_step(
                        c,
                        s1g,
                        i as int,
                        j as int,
                        dx as int,
                        dy as int,
                        ca as int,
                        cb as int,
                        pa.mass as int,
                        s0.groups[pa.group as int].radius,
                        s0.groups[pb.group as int].radius,
                    );
                    assert(!in_force_range(c, d2s, s0.groups[pa.group as int].radius));
                    assert(!in_force_range(c, d2s, s0.groups[pb.group as int].radius));
                    assert(self@.particles =~= fs.particles);
                    assert(self@ =~= fs);
                    assert(self@ == target);
                } else {
                    assert(self@ == target);
                }
            }
        }
    }

    /// The interaction resolver pass: every unordered pair of distinct
    /// particles is visited exactly once, in ascending index order.  A
    /// deeply overlapping pair is driven apart through each other along
    /// the unnormalised pair direction, a colliding pair bounces, and —
    /// when both charges are non-zero and of opposite sign — forms a bond
    /// that moves the smaller charge magnitude to zero on both endpoints.
    /// Pairs that are not bonded exert the long-range force on each other
    /// within their groups' interaction radii.
    pub fn resolve_interactions(&mut self)
        requires
            old(self).wf(),
        ensures
            final(self).cfg() == old(self).cfg(),
            final(self)@ == interact_all(old(self).cfg(), old(self)@),
            sim_struct_wf(final(self).cfg(), final(self)@),
            final(self)@.particles.len() == old(self)@.particles.len(),
            coords_bounded(final(self)@, 400_000_000_000_000, 400_000_000_000_000),
    {
        let ghost c = old(self).cfg();
        let ghost s0 = old(self)@;
        let ghost target = interact_all(c, s0);
        let ghost pb0 = (HALF_EXTENT_MAX + POS_SLACK) as int;
        let ghost vb0 = VEL_LIMIT as int;
        let n = self.particles.len();
        proof {
            assert(coords_bounded(s0, pb0, vb0)) by {
                assert forall|k: int|
                    0 <= k < s0.particles.len() implies {
                    let p = #[trigger] s0.particles[k];
                    mag(p.px) <= pb0 && mag(p.py) <= pb0 && mag(p.vx) <= vb0 && mag(p.vy) <= vb0
                } by {
                    assert(particle_coords_wf(c, s0, k));
                }
            }
            assert(target == interact_from(c, s0, 0, 1));
        }
        if n < 2 {
            proof {
                assert(interact_from(c, s0, 0, 1) == s0);
                assert(coords_bounded(s0, 400_000_000_000_000, 400_000_000_000_000)) by {
                    assert forall|k: int|
                        0 <= k < s0.particles.len() implies {
                        let p = #[trigger] s0.particles[k];
                        mag(p.px) <= 400_000_000_000_000 && mag(p.py) <= 400_000_000_000_000 && mag(
                            p.vx,
                        ) <= 400_000_000_000_000 && mag(p.vy) <= 400_000_000_000_000
                    } by {
                        assert(particle_coords_wf(c, s0, k));
                    }
                }
            }
            return;
        }
        let ghost mut steps: int = 0;
        let mut i: usize = 0;
        while i + 1 < n
            invariant
                n == self@.particles.len(),
                2 <= n <= MAX_PARTICLES,
                i <= n - 1,
                pb0 == 101_000_000_000_000,
                vb0 == 20_000_000_000,
                self.cfg() == c,
                c == old(self).cfg(),
                s0 == old(self)@,
                sim_struct_wf(c, self@),
                0 <= steps <= (i as int) * (n as int),
                coords_bounded(
                    self@,
                    pb0 + steps * (PUSH_STEP as int),
                    vb0 + steps * (FORCE_STEP as int),
                ),
                interact_from(c, self@, i as int, i as int + 1) == target,
            decreases n - i,
        {
            let mut j = i + 1;
            while j < n
                invariant
                    n == self@.particles.len(),
                    2 <= n <= MAX_PARTICLES,
                    (i as int) <= n as int - 2,
                    i + 1 <= j <= n,
                    pb0 == 101_000_000_000_000,
                    vb0 == 20_000_000_000,
                    self.cfg() == c,
                    c == old(self).cfg(),
                    s0 == old(self)@,
                    sim_struct_wf(c, self@),
                    0 <= steps,
                    steps <= (i as int) * (n as int) + (j as int) - (i as int) - 1,
                    coords_bounded(
                        self@,
                        pb0 + steps * (PUSH_STEP as int),
                        vb0 + steps * (FORCE_STEP as int),
                    ),
                    interact_from(c, self@, i as int, j as int) == target,
                decreases n - j,
            {
                proof {
                    assert(steps <= 16_777_216) by (nonlinear_arith)
                        requires
                            steps <= (i as int) * (n as int) + (j as int) - (i as int) - 1,
                            0 <= i as int,
                            (i as int) + 1 <= j as int <= n as int,
                            n as int <= 4096,
                    ;
                }
                let ghost spre = self@;
                let ghost pbk = pb0 + steps * (PUSH_STEP as int);
                let ghost vbk = vb0 + steps * (FORCE_STEP as int);
                proof {
                    assert(steps * (PUSH_STEP as int) <= 167_772_160_000_000 && steps * (
                    FORCE_STEP as int) <= 335_544_320_000_000 && steps * (PUSH_STEP as int) >= 0
                        && steps * (FORCE_STEP as int) >= 0) by (nonlinear_arith)
                        requires
                            0 <= steps <= 16_777_216,
                            PUSH_STEP as int == 10_000_000,
                            FORCE_STEP as int == 20_000_000,
                    ;
                }
                self.pair_update(i, j, Ghost(pbk), Ghost(vbk));
                proof {
                    lemma_pair_step_props(c, spre, i as int, j as int, pbk, vbk);
                    assert(interact_from(c, spre, i as int, j as int) == interact_from(
                        c,
                        pair_step(c, spre, i as int, j as int),
                        i as int,
                        j as int + 1,
                    ));
                    steps = steps + 1;
                }
                j += 1;
            }
            proof {
                assert(interact_from(c, self@, i as int, n as int) == interact_from(
                    c,
                    self@,
                    i as int + 1,
                    i as int + 2,
                ));
                assert(steps <= ((i as int) + 1) * (n as int)) by (nonlinear_arith)
                    requires
                        steps <= (i as int) * (n as int) + (n as int) - (i as int) - 1,
                        0 <= i as int,
                        n as int >= 1,
                ;
            }
            i += 1;
        }
        proof {
            assert(interact_from(c, self@, i as int, i as int + 1) == self@);
            assert(steps <= 16_777_216) by (nonlinear_arith)
                requires
                    0 <= steps <= (i as int) * (n as int),
                    0 <= i as int <= n as int,
                    n as int <= 4096,
            ;
            assert forall|k: int|
                0 <= k < self@.particles.len() implies {
                let p = #[trigger] self@.particles[k];
                mag(p.px) <= 400_000_000_000_000 && mag(p.py) <= 400_000_000_000_000 && mag(p.vx)
                    <= 400_000_000_000_000 && mag(p.vy) <= 400_000_000_000_000
            } by {
                assert(mag(self@.particles[k].px) <= pb0 + steps * (PUSH_STEP as int));
                assert(mag(self@.particles[k].vx) <= vb0 + steps * (FORCE_STEP as int));
            }
        }
    }

    /// Advance the simulation by one tick of `dt` milliseconds: the
    /// interaction resolver, then the bond constraint solver, then the
    /// integrator, in strict order.  A zero `dt` is a no-op tick.
    pub fn tick(&mut self, dt: u64)
        requires
            old(self).wf(),
            dt <= MAX_TICK_MILLIS,
        ensures
            final(self).cfg() == old(self).cfg(),
            final(self).wf(),
            final(self)@ == tick_spec(old(self).cfg(), old(self)@, dt as int),
    {
        let ghost c = old(self).cfg();
        let ghost s0 = old(self)@;
        if dt == 0 {
            return;
        }
        self.resolve_interactions();
        proof {
            assert(coords_bounded(self@, 400_000_000_000_000, COORD_CAP as int)) by {
                assert forall|k: int|
                    0 <= k < self@.particles.len() implies {
                    let p = #[trigger] self@.particles[k];
                    mag(p.px) <= 400_000_000_000_000 && mag(p.py) <= 400_000_000_000_000 && mag(
                        p.vx,
                    ) <= COORD_CAP as int && mag(p.vy) <= COORD_CAP as int
                } by {
                    assert(mag(self@.particles[k].px) <= 400_000_000_000_000);
                }
            }
        }
        self.solve_bond_constraints();
        self.integrate(dt);
    }

    /// The bond constraint solver pass: every bond, in creation order, has
    /// its lighter endpoint placed exactly one rest length from the
    /// heavier one, on its own side, and its placement refreshed.
    pub fn solve_bond_constraints(&mut self)
        requires
            sim_struct_wf(old(self).cfg(), old(self)@),
            coords_bounded(old(self)@, 400_000_000_000_000, COORD_CAP as int),
        ensures
            final(self).cfg() == old(self).cfg(),
            final(self)@ == bonds_all(old(self).cfg(), old(self)@),
            sim_struct_wf(final(self).cfg(), final(self)@),
            final(self)@.particles.len() == old(self)@.particles.len(),
            coords_bounded(final(self)@, COORD_CAP as int, COORD_CAP as int),
    {
        let ghost c = old(self).cfg();
        let ghost s0 = old(self)@;
        proof {
            lemma_bonds_count(s0);
            assert(s0.particles.len() * s0.particles.len() <= 16_777_216) by (nonlinear_arith)
                requires
                    0 <= s0.particles.len() <= 4096,
            ;
        }
        let m = self.bonds.len();
        let mut k: usize = 0;
        while k < m
            invariant
                k <= m,
                m == self@.bonds.len(),
                m <= 16_777_216,
                self.cfg() == c,
                c == old(self).cfg(),
                s0 == old(self)@,
                sim_struct_wf(c, self@),
                self@.particles.len() == s0.particles.len(),
                coords_bounded(self@, 400_000_000_000_000 + (k as int) * 1_000_000, COORD_CAP as int),
                bonds_from(c, self@, k as int) == bonds_from(c, s0, 0),
            decreases m - k,
        {
            let ghost pbk = 400_000_000_000_000 + (k as int) * 1_000_000;
            let ghost spre = self@;
            proof {
                lemma_bond_step_props(c, spre, k as int, pbk, COORD_CAP as int);
            }
            self.bond_update(k, Ghost(pbk), Ghost(COORD_CAP as int));
            proof {
                assert(bonds_from(c, spre, k as int) == bonds_from(
                    c,
                    bond_step(c, spre, k as int),
                    k as int + 1,
                ));
                assert(coords_bounded(self@, pbk + BOND_LENGTH_MAX as int, COORD_CAP as int));
                assert forall|l: int|
                    0 <= l < self@.particles.len() implies {
                    let p = #[trigger] self@.particles[l];
                    mag(p.px) <= 400_000_000_000_000 + (k as int + 1) * 1_000_000 && mag(p.py)
                        <= 400_000_000_000_000 + (k as int + 1) * 1_000_000 && mag(p.vx)
                        <= COORD_CAP as int && mag(p.vy) <= COORD_CAP as int
                } by {
                    assert(mag(self@.particles[l].px) <= pbk + BOND_LENGTH_MAX as int);
                }
            }
            k += 1;
        }
        proof {
            assert(bonds_from(c, self@, m as int) == self@);
            assert(bonds_all(c, s0) == bonds_from(c, s0, 0));
            assert forall|l: int|
                0 <= l < self@.particles.len() implies {
                let p = #[trigger] self@.particles[l];
                mag(p.px) <= COORD_CAP as int && mag(p.py) <= COORD_CAP as int && mag(p.vx)
                    <= COORD_CAP as int && mag(p.vy) <= COORD_CAP as int
            } by {
                assert(mag(self@.particles[l].px) <= 400_000_000_000_000 + (m as int) * 1_000_000);
            }
        }
    }
}

/// The integrator on one particle, as plain values: speed clamp, friction
/// damping, Euler step, then boundary reflection (clamp to the half-extent
/// inset by the particle radius, velocity component inverted), so the
/// returned position always lies within the inset plane.
/// Returns the new position and the new velocity.
#[verifier::rlimit(80)]
pub fn integrate_particle(config: &Config, position: Vec2, velocity: Vec2, dt: u64) -> (r: (
    Vec2,
    Vec2,
))
    requires
        cfg_wf(config@),
        dt <= MAX_TICK_MILLIS,
        mag(position.x as int) <= COORD_CAP,
        mag(position.y as int) <= COORD_CAP,
        mag(velocity.x as int) <= COORD_CAP,
        mag(velocity.y as int) <= COORD_CAP,
    ensures
        ({
            let q = integrate_vals(
                config@,
                position.x as int,
                position.y as int,
                velocity.x as int,
                velocity.y as int,
                dt as int,
            );
            r.0.x == q.0 && r.0.y == q.1 && r.1.x == q.2 && r.1.y == q.3
        }),
{
    let hx = config.half_x;
    let hy = config.half_y;
    let rad = config.particle_radius;
    let mut px = position.x;
    let mut py = position.y;
    let mut vx = velocity.x;
    let mut vy = velocity.y;

    let ghost vxr = vx as int;
    let ghost vyr = vy as int;

    // Speed clamp.
    proof {
        lemma_square_le(mag(vx as int), COORD_CAP as int);
        lemma_square_le(mag(vy as int), COORD_CAP as int);
        assert((vx as int) * (vx as int) == mag(vx as int) * mag(vx as int)) by (nonlinear_arith);
        assert((vy as int) * (vy as int) == mag(vy as int) * mag(vy as int)) by (nonlinear_arith);
    }
    let s2: i128 = (vx as i128) * (vx as i128) + (vy as i128) * (vy as i128);
    proof {
        assert(s2 >= 0) by (nonlinear_arith)
            requires
                s2 == (vx as int) * (vx as int) + (vy as int) * (vy as int),
        ;
    }
    let vm = config.max_speed;
    let vmw = vm as i128;
    proof {
        lemma_square_le(vm as int, 10_000_000);
    }
    if s2 > vmw * vmw {
        let d = isqrt_up(s2 as u128);
        proof {
            lemma_sqrt_floor(s2 as int);
            assert(vmw * vmw >= 1) by (nonlinear_arith)
                requires
                    vmw >= 1,
            ;
            assert(d >= 1) by {
                let f = sqrt_floor(s2 as int);
                if f == 0 {
                    assert((f + 1) * (f + 1) == 1) by (nonlinear_arith)
                        requires
                            f == 0,
                    ;
                    assert(s2 < 1);
                }
            }
            assert((d as int) * (d as int) >= s2) by {
                if sqrt_floor(s2 as int) * sqrt_floor(s2 as int) != s2 {
                    let f = sqrt_floor(s2 as int);
                    assert(d == f + 1);
                }
            }
            lemma_root_le(vx as int, d as int);
            lemma_root_le(vy as int, d as int);
        }
        let dw = d as i128;
        proof {
            lemma_mag_mul_le(vx as int, vm as int, COORD_CAP as int, 10_000_000);
            lemma_mag_mul_le(vy as int, vm as int, COORD_CAP as int, 10_000_000);
        }
        let nvx = div_trunc((vx as i128) * vmw, dw);
        let nvy = div_trunc((vy as i128) * vmw, dw);
        proof {
            lemma_div_t_scale(vx as int, vm as int, d as int);
            lemma_div_t_scale(vy as int, vm as int, d as int);
        }
        vx = nvx as i64;
        vy = nvy as i64;
    } else {
        proof {
            lemma_root_le(vx as int, vm as int);
            lemma_root_le(vy as int, vm as int);
        }
    }
    proof {
        assert((vx as int, vy as int) == clamp_speed(vxr, vyr, vm as int));
        assert(mag(vx as int) <= vm as int);
        assert(mag(vy as int) <= vm as int);
    }
    let ghost vxc = vx as int;
    let ghost vyc = vy as int;

    // Friction damping.
    let fr = FRICTION_ONE - config.friction;
    proof {
        assert((fr as int) * (dt as int) <= 1_000_000_000 && (fr as int) * (dt as int) >= 0)
            by (nonlinear_arith)
            requires
                0 <= fr <= 1000,
                0 <= dt <= 1_000_000,
        ;
    }
    let k: i128 = (fr as i128) * (dt as i128);
    proof {
        assert(0 <= k <= 1_000_000_000);
    }
    proof {
        lemma_mag_mul_le(vx as int, k as int, 10_000_000, 1_000_000_000);
        lemma_mag_mul_le(vy as int, k as int, 10_000_000, 1_000_000_000);
    }
    let dvx = div_trunc((vx as i128) * k, FRICTION_DENOM as i128);
    let dvy = div_trunc((vy as i128) * k, FRICTION_DENOM as i128);
    proof {
        lemma_div_t_mag((vx as int) * (k as int), FRICTION_DENOM as int);
        lemma_div_t_mag((vy as int) * (k as int), FRICTION_DENOM as int);
        assert(mag(dvx as int) * 1_000_000 <= 10_000_000_000_000_000);
        assert(mag(dvy as int) * 1_000_000 <= 10_000_000_000_000_000);
    }
    vx = vx - (dvx as i64);
    vy = vy - (dvy as i64);
    proof {
        assert(vx as int == damp(vxc, k as int));
        assert(vy as int == damp(vyc, k as int));
        assert(mag(vx as int) <= 10_020_000_000);
        assert(mag(vy as int) <= 10_020_000_000);
    }

    // Euler step.
    proof {
        lemma_mag_mul_le(vx as int, dt as int, 10_020_000_000, 1_000_000);
        lemma_mag_mul_le(vy as int, dt as int, 10_020_000_000, 1_000_000);
    }
    let mvx = div_trunc((vx as i128) * (dt as i128), DT_SCALE as i128);
    let mvy = div_trunc((vy as i128) * (dt as i128), DT_SCALE as i128);
    proof {
        lemma_div_t_mag((vx as int) * (dt as int), DT_SCALE as int);
        lemma_div_t_mag((vy as int) * (dt as int), DT_SCALE as int);
        assert(mag(mvx as int) * 1000 <= 10_020_000_000_000_000);
        assert(mag(mvy as int) * 1000 <= 10_020_000_000_000_000);
    }
    px = px + (mvx as i64);
    py = py + (mvy as i64);
    let ghost pxe = px as int;
    let ghost pye = py as int;
    let ghost vxe = vx as int;
    let ghost vye = vy as int;

    // Boundary reflection.
    if px < -(hx - rad) {
        px = -(hx - rad);
        vx = -vx;
    } else if px > hx - rad {
        px = hx - rad;
        vx = -vx;
    }
    if py < -(hy - rad) {
        py = -(hy - rad);
        vy = -vy;
    } else if py > hy - rad {
        py = hy - rad;
        vy = -vy;
    }
    proof {
        assert((px as int, vx as int) == reflect_axis(pxe, vxe, hx as int, rad as int));
        assert((py as int, vy as int) == reflect_axis(pye, vye, hy as int, rad as int));
    }

    (Vec2 { x: px, y: py }, Vec2 { x: vx, y: vy })
}

/// The bond constraint solver on one bond, as plain values: given the two
/// endpoint positions and masses, returns the new position of A and the
/// new position of B.  The lighter endpoint is placed exactly one rest
/// length from the heavier one, on its own side of it along the current
/// direction (a tie repositions A); endpoints less than one unit apart
/// are left untouched.
pub fn bond_reposition(config: &Config, pos_a: Vec2, pos_b: Vec2, mass_a: u8, mass_b: u8) -> (r: (
    Vec2,
    Vec2,
))
    requires
        cfg_wf(config@),
        mag(pos_a.x as int) <= COORD_CAP,
        mag(pos_a.y as int) <= COORD_CAP,
        mag(pos_b.x as int) <= COORD_CAP,
        mag(pos_b.y as int) <= COORD_CAP,
    ensures
        ({
            let q = bond_vals(
                config@,
                pos_a.x as int,
                pos_a.y as int,
                pos_b.x as int,
                pos_b.y as int,
                mass_a as int,
                mass_b as int,
            );
            r.0.x == q.0 && r.0.y == q.1 && r.1.x == q.2 && r.1.y == q.3
        }),
        mag(r.0.x as int) <= mag(pos_a.x as int) + mag(pos_b.x as int) + config@.bond_length,
        mag(r.0.y as int) <= mag(pos_a.y as int) + mag(pos_b.y as int) + config@.bond_length,
        mag(r.1.x as int) <= mag(pos_a.x as int) + mag(pos_b.x as int) + config@.bond_length,
        mag(r.1.y as int) <= mag(pos_a.y as int) + mag(pos_b.y as int) + config@.bond_length,
{
    let dx = pos_a.x - pos_b.x;
    let dy = pos_a.y - pos_b.y;
    let dxw = dx as i128;
    let dyw = dy as i128;
    proof {
        lemma_square_le(mag(dx as int), 2 * COORD_CAP as int);
        lemma_square_le(mag(dy as int), 2 * COORD_CAP as int);
        assert((dx as int) * (dx as int) == mag(dx as int) * mag(dx as int)) by (nonlinear_arith);
        assert((dy as int) * (dy as int) == mag(dy as int) * mag(dy as int)) by (nonlinear_arith);
    }
    let d2 = dxw * dxw + dyw * dyw;
    proof {
        assert(d2 >= 0) by (nonlinear_arith)
            requires
                d2 == (dx as int) * (dx as int) + (dy as int) * (dy as int),
        ;
    }
    let d = isqrt(d2 as u128);
    proof {
        lemma_sqrt_floor(d2 as int);
    }
    if d < (SCALE as u64) {
        (pos_a, pos_b)
    } else {
        proof {
            lemma_root_floor(dx as int, d2 as int, d as int);
            lemma_root_floor(dy as int, d2 as int, d as int);
            lemma_div_t_scale(dx as int, config.bond_length as int, d as int);
            lemma_div_t_scale(dy as int, config.bond_length as int, d as int);
            assert(mag((dx as int) * (config.bond_length as int)) <= 2_000_000_000_000_000_000_000
                && mag((dy as int) * (config.bond_length as int))
                <= 2_000_000_000_000_000_000_000) by (nonlinear_arith)
                requires
                    mag(dx as int) <= 2_000_000_000_000_000,
                    mag(dy as int) <= 2_000_000_000_000_000,
                    0 < config.bond_length <= 1_000_000,
                    mag(dx as int) == if dx >= 0 { dx as int } else { -(dx as int) },
                    mag(dy as int) == if dy >= 0 { dy as int } else { -(dy as int) },
            ;
        }
        let blen = config.bond_length as i128;
        let ox = div_trunc(dxw * blen, d as i128) as i64;
        let oy = div_trunc(dyw * blen, d as i128) as i64;
        if mass_a > mass_b {
            (pos_a, Vec2 { x: pos_a.x - ox, y: pos_a.y - oy })
        } else {
            (Vec2 { x: pos_b.x + ox, y: pos_b.y + oy }, pos_b)
        }
    }
}

} // verus!
