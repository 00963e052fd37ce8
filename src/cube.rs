use vstd::prelude::*;

verus! {

/// Ray coordinates are fixed point: one voxel edge is this many ray units.
pub const RAY_UNITS_PER_VOXEL: i64 = 256;

/// Largest magnitude of a ray's origin and velocity components, in ray units.
pub const RAY_COORD_LIMIT: i64 = 0x100_0000_0000;

/// An axis-aligned box with integer corners (in voxels) and a packed RGBA colour.
/// A voxel is the unit cube whose minimum corner is `min`.
#[derive(Clone, Copy)]
pub struct Cube {
    pub min: [i32; 3],
    pub max: [i32; 3],
    pub color: u32,
}

/// A ray distance: the exact fraction `num / den`, with `den > 0`.
#[derive(Clone, Copy)]
pub struct Distance {
    pub num: i128,
    pub den: i128,
}

/// A ray `origin + t * velocity` in fixed-point ray units, with the nearest hit found so
/// far (`None` while nothing was hit) and the colour seen there.
pub struct Ray {
    pub origin: [i64; 3],
    pub velocity: [i64; 3],
    pub distance: Option<Distance>,
    pub color: u32,
}

/// A fraction as a pair (numerator, positive denominator).
pub type Frac = (int, int);

pub open spec fn frac_le(a: Frac, b: Frac) -> bool {
    a.0 * b.1 <= b.0 * a.1
}

pub open spec fn frac_lt(a: Frac, b: Frac) -> bool {
    a.0 * b.1 < b.0 * a.1
}

impl Distance {
    pub open spec fn frac(&self) -> Frac {
        (self.num as int, self.den as int)
    }
}

/// A distance whose parts stay within the bounds that exact comparison needs.
pub open spec fn distance_ok(d: Distance) -> bool {
    0 < d.den <= RAY_COORD_LIMIT && -4 * RAY_COORD_LIMIT <= d.num <= 4 * RAY_COORD_LIMIT
}

/// The ray's coordinates are within `RAY_COORD_LIMIT`, and its best distance is well formed.
pub open spec fn ray_ok(r: Ray) -> bool {
    &&& forall|d: int|
        0 <= d < 3 ==> -RAY_COORD_LIMIT <= #[trigger] r.origin[d] <= RAY_COORD_LIMIT
            && -RAY_COORD_LIMIT <= r.velocity[d] <= RAY_COORD_LIMIT
    &&& r.distance matches Some(d) ==> distance_ok(d)
}

/// The ray moves along axis `d`.
pub open spec fn moving(r: Ray, d: int) -> bool {
    r.velocity[d] != 0
}

/// The ray's origin lies within the slab of the box along axis `d`.
pub open spec fn in_slab(c: Cube, r: Ray, d: int) -> bool {
    RAY_UNITS_PER_VOXEL * c.min[d] <= r.origin[d] <= RAY_UNITS_PER_VOXEL * c.max[d]
}

/// Where a ray moving along axis `d` enters the slab of the box along that axis.
pub open spec fn entry(c: Cube, r: Ray, d: int) -> Frac {
    if r.velocity[d] > 0 {
        (RAY_UNITS_PER_VOXEL * c.min[d] - r.origin[d], r.velocity[d] as int)
    } else {
        (r.origin[d] - RAY_UNITS_PER_VOXEL * c.max[d], -r.velocity[d])
    }
}

/// Where a ray moving along axis `d` leaves the slab of the box along that axis.
pub open spec fn exit(c: Cube, r: Ray, d: int) -> Frac {
    if r.velocity[d] > 0 {
        (RAY_UNITS_PER_VOXEL * c.max[d] - r.origin[d], r.velocity[d] as int)
    } else {
        (r.origin[d] - RAY_UNITS_PER_VOXEL * c.min[d], -r.velocity[d])
    }
}

/// The latest entry over the moving axes among the first `k` (the earliest such axis on
/// ties); `None` when none of them moves.
pub open spec fn near_upto(c: Cube, r: Ray, k: int) -> Option<Frac>
    decreases k,
{
    if k <= 0 {
        None
    } else {
        let acc = near_upto(c, r, k - 1);
        if !moving(r, k - 1) {
            acc
        } else {
            match acc {
                Some(a) => if frac_lt(a, entry(c, r, k - 1)) {
                    Some(entry(c, r, k - 1))
                } else {
                    Some(a)
                },
                None => Some(entry(c, r, k - 1)),
            }
        }
    }
}

/// The earliest exit over the moving axes among the first `k`.
pub open spec fn far_upto(c: Cube, r: Ray, k: int) -> Option<Frac>
    decreases k,
{
    if k <= 0 {
        None
    } else {
        let acc = far_upto(c, r, k - 1);
        if !moving(r, k - 1) {
            acc
        } else {
            match acc {
                Some(a) => if frac_lt(exit(c, r, k - 1), a) {
                    Some(exit(c, r, k - 1))
                } else {
                    Some(a)
                },
                None => Some(exit(c, r, k - 1)),
            }
        }
    }
}

/// The slab test: the ray moves along some axis, its origin lies in the slab of every
/// axis along which it does not move, the latest entry comes no later than the earliest
/// exit, and that exit is not behind the origin. An origin inside the box therefore
/// counts as a hit, at a negative entry distance.
pub open spec fn ray_hits(c: Cube, r: Ray) -> bool {
    &&& forall|d: int| 0 <= d < 3 && !moving(r, d) ==> #[trigger] in_slab(c, r, d)
    &&& near_upto(c, r, 3) is Some
    &&& frac_le(near_upto(c, r, 3).unwrap(), far_upto(c, r, 3).unwrap())
    &&& far_upto(c, r, 3).unwrap().0 >= 0
}

/// The ray after testing it against `c`: a hit strictly nearer than the best one so far
/// replaces it.
pub open spec fn after_test(c: Cube, r: Ray) -> Ray {
    let t = near_upto(c, r, 3).unwrap();
    if ray_hits(c, r) && (r.distance matches Some(best) ==> frac_lt(t, best.frac())) {
        Ray { distance: Some(Distance { num: t.0 as i128, den: t.1 as i128 }), color: c.color, ..r }
    } else {
        r
    }
}

/// The fraction of an optional distance.
pub open spec fn opt_frac(d: Option<Distance>) -> Option<Frac> {
    match d {
        Some(x) => Some(x.frac()),
        None => None,
    }
}

proof fn lemma_cross_bound(a: Distance, b: Distance)
    requires
        distance_ok(a),
        distance_ok(b),
    ensures
        -16 * RAY_COORD_LIMIT * RAY_COORD_LIMIT <= a.num * b.den <= 16 * RAY_COORD_LIMIT
            * RAY_COORD_LIMIT,
        -16 * RAY_COORD_LIMIT * RAY_COORD_LIMIT <= b.num * a.den <= 16 * RAY_COORD_LIMIT
            * RAY_COORD_LIMIT,
{
    let l = RAY_COORD_LIMIT as int;
    assert(-4 * l * l <= a.num * b.den <= 4 * l * l) by (nonlinear_arith)
        requires
            0 < b.den <= l,
            -4 * l <= a.num <= 4 * l,
    ;
    assert(-4 * l * l <= b.num * a.den <= 4 * l * l) by (nonlinear_arith)
        requires
            0 < a.den <= l,
            -4 * l <= b.num <= 4 * l,
    ;
}

impl Cube {
    /// The unit voxel whose minimum corner is `loc`.
    pub fn new_cube_at(loc: &[i32; 3], color: u32) -> (c: Cube)
        requires
            loc[0] < i32::MAX,
            loc[1] < i32::MAX,
            loc[2] < i32::MAX,
        ensures
            c.min == *loc,
            c.max[0] == loc[0] + 1,
            c.max[1] == loc[1] + 1,
            c.max[2] == loc[2] + 1,
            c.color == color,
    {
        Cube { min: *loc, max: [loc[0] + 1, loc[1] + 1, loc[2] + 1], color }
    }

    /// Tests `ray` against this box with the slab test and keeps the hit if it is strictly
    /// nearer than the ray's best hit so far. A ray that moves along no axis hits nothing.
    pub fn intersect_ray(&self, ray: &mut Ray)
        requires
            ray_ok(*old(ray)),
        ensures
            *final(ray) == after_test(*self, *old(ray)),
            ray_ok(*final(ray)),
    {
        let mut near: Option<Distance> = None;
        let mut far: Option<Distance> = None;
        let mut d: usize = 0;
        while d < 3
            invariant
                0 <= d <= 3,
                ray_ok(*ray),
                opt_frac(near) == near_upto(*self, *ray, d as int),
                opt_frac(far) == far_upto(*self, *ray, d as int),
                near is Some <==> far is Some,
                near matches Some(n) ==> distance_ok(n),
                far matches Some(f) ==> distance_ok(f),
                forall|e: int| 0 <= e < d && !moving(*ray, e) ==> #[trigger] in_slab(*self, *ray, e),
            decreases 3 - d,
        {
            assert(-RAY_COORD_LIMIT <= ray.origin[d as int] <= RAY_COORD_LIMIT);
            let v = ray.velocity[d] as i128;
            let o = ray.origin[d] as i128;
            let lo = 256 * self.min[d] as i128;
            let hi = 256 * self.max[d] as i128;
            if v == 0 {
                if o < lo || o > hi {
                    assert(!in_slab(*self, *ray, d as int));
                    assert(!ray_hits(*self, *ray));
                    return ;
                }
            } else {
                let tmin = if v > 0 {
                    Distance { num: lo - o, den: v }
                } else {
                    Distance { num: o - hi, den: -v }
                };
                let tmax = if v > 0 {
                    Distance { num: hi - o, den: v }
                } else {
                    Distance { num: o - lo, den: -v }
                };
                proof {
                    if let Some(a) = near {
                        lemma_cross_bound(a, tmin);
                    }
                    if let Some(a) = far {
                        lemma_cross_bound(a, tmax);
                    }
                }
                near =
                match near {
                    Some(a) => if a.num * tmin.den < tmin.num * a.den {
                        Some(tmin)
                    } else {
                        Some(a)
                    },
                    None => Some(tmin),
                };
                far =
                match far {
                    Some(a) => if tmax.num * a.den < a.num * tmax.den {
                        Some(tmax)
                    } else {
                        Some(a)
                    },
                    None => Some(tmax),
                };
            }
            d = d + 1;
        }
        match (near, far) {
            (Some(n), Some(f)) => {
                proof {
                    lemma_cross_bound(n, f);
                    if let Some(b) = ray.distance {
                        lemma_cross_bound(n, b);
                    }
                }
                if f.num * n.den < n.num * f.den || f.num < 0 {
                    return ;
                }
                let better = match &ray.distance {
                    Some(b) => n.num * b.den < b.num * n.den,
                    None => true,
                };
                if better {
                    ray.distance = Some(n);
                    ray.color = self.color;
                }
            },
            _ => {},
        }
    }
}

} // verus!
