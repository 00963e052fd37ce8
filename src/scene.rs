use vstd::prelude::*;

use crate::chunk::{CHUNK_SIZE, PTObject};
use crate::color::{background_color, rgba_value};
use crate::cube::{
    Cube, RAY_COORD_LIMIT, Ray, after_test, far_upto, frac_le, frac_lt, in_slab, moving, near_upto,
    ray_hits, ray_ok,
};

verus! {

/// Number of chunk slots along each side of the scene's occupancy grid.
pub const GRID_SIZE: usize = 16;

/// Chunk `(cx, cy)` has a slot in a grid of side `grid_size` centred on chunk `(0, 0)`.
pub open spec fn in_grid(grid_size: int, cx: int, cy: int) -> bool {
    &&& 0 <= grid_size / 2 + cx < grid_size
    &&& 0 <= grid_size / 2 + cy < grid_size
    &&& grid_size * grid_size <= usize::MAX
}

/// The slot of chunk `(cx, cy)` in a grid of side `grid_size`, row by row.
pub open spec fn grid_slot(grid_size: int, cx: int, cy: int) -> int {
    (grid_size / 2 + cy) * grid_size + (grid_size / 2 + cx)
}

/// Index of chunk `(chunk_x, chunk_y)` in the occupancy grid, which is centred so that
/// negative chunk coordinates have slots too.
pub fn chunk_xy_to_grid_location(grid_size: &usize, chunk_x: &i32, chunk_y: &i32) -> (r: usize)
    requires
        in_grid(*grid_size as int, *chunk_x as int, *chunk_y as int),
    ensures
        r as int == grid_slot(*grid_size as int, *chunk_x as int, *chunk_y as int),
        r < *grid_size * *grid_size,
{
    let half = (*grid_size / 2) as i128;
    let grid_y = (half + *chunk_y as i128) as usize;
    let grid_x = (half + *chunk_x as i128) as usize;
    proof {
        let g = *grid_size as int;
        assert(grid_y * g + grid_x < g * g) by (nonlinear_arith)
            requires
                0 <= grid_y < g,
                0 <= grid_x < g,
        ;
        assert(grid_y * g <= grid_y * g + grid_x);
    }
    grid_y * *grid_size + grid_x
}

/// The loaded chunks' voxels, a flag per grid slot telling whether its chunk is loaded,
/// and the colour of rays that hit nothing.
pub struct Scene {
    pub cubes: Vec<Cube>,
    pub background_rgba: u32,
    pub chunk_grid: Vec<bool>,
    pub grid_size: usize,
}

/// The ray after testing it against every cube of `cubes` in turn.
pub open spec fn trace(cubes: Seq<Cube>, r: Ray) -> Ray
    decreases cubes.len(),
{
    if cubes.len() == 0 {
        r
    } else {
        after_test(cubes.last(), trace(cubes.drop_last(), r))
    }
}

/// The colour a ray sees: that of its nearest hit among `cubes`, else `background`.
pub open spec fn color_seen(cubes: Seq<Cube>, r: Ray, background: u32) -> u32 {
    let t = trace(cubes, r);
    if t.distance is Some {
        t.color
    } else {
        background
    }
}

/// The voxels whose column lies outside the footprint of chunk `(cx, cy)`.
pub open spec fn outside_footprint(c: Cube, cx: int, cy: int) -> bool {
    !(cx * CHUNK_SIZE <= c.min[0] < cx * CHUNK_SIZE + CHUNK_SIZE && cy * CHUNK_SIZE <= c.min[1]
        < cy * CHUNK_SIZE + CHUNK_SIZE)
}

/// The cubes of `s` that lie outside the footprint of chunk `(cx, cy)`, in order.
pub open spec fn kept(s: Seq<Cube>, cx: int, cy: int) -> Seq<Cube>
    decreases s.len(),
{
    if s.len() == 0 {
        s
    } else if outside_footprint(s.last(), cx, cy) {
        kept(s.drop_last(), cx, cy).push(s.last())
    } else {
        kept(s.drop_last(), cx, cy)
    }
}

/// The voxels of `chunks`, chunk after chunk.
pub open spec fn all_cubes(chunks: Seq<PTObject>) -> Seq<Cube>
    decreases chunks.len(),
{
    if chunks.len() == 0 {
        seq![]
    } else {
        all_cubes(chunks.drop_last()) + chunks.last().cubes@
    }
}

/// Some chunk among the first `n` of `chunks` has grid slot `slot`.
pub open spec fn slot_loaded(chunks: Seq<PTObject>, n: int, slot: int) -> bool {
    exists|j: int|
        0 <= j < n && #[trigger] grid_slot(
            GRID_SIZE as int,
            chunks[j].chunk_x as int,
            chunks[j].chunk_y as int,
        ) == slot
}

impl Scene {
    /// The occupancy grid has one slot per chunk position of a `grid_size`-sided square.
    pub open spec fn wf(&self) -> bool {
        &&& self.grid_size * self.grid_size <= usize::MAX
        &&& self.chunk_grid@.len() == self.grid_size * self.grid_size
    }

    /// A scene holding `chunks`, with a grid of `GRID_SIZE` slots a side and the default
    /// background.
    pub fn new(chunks: &Vec<PTObject>) -> (s: Scene)
        requires
            forall|j: int|
                0 <= j < chunks@.len() ==> in_grid(
                    GRID_SIZE as int,
                    #[trigger] chunks@[j].chunk_x as int,
                    chunks@[j].chunk_y as int,
                ),
        ensures
            s.wf(),
            s.cubes@ == all_cubes(chunks@),
            s.background_rgba as int == rgba_value(102, 128, 153, 255),
            s.grid_size == GRID_SIZE,
            s.chunk_grid@.len() == GRID_SIZE * GRID_SIZE,
            forall|slot: int|
                0 <= slot < GRID_SIZE * GRID_SIZE ==> (#[trigger] s.chunk_grid@[slot]
                    <==> slot_loaded(chunks@, chunks@.len() as int, slot)),
    {
        let mut scene = Scene::empty_scene();
        let mut i: usize = 0;
        while i < chunks.len()
            invariant
                i <= chunks@.len(),
                forall|j: int|
                    0 <= j < chunks@.len() ==> in_grid(
                        GRID_SIZE as int,
                        #[trigger] chunks@[j].chunk_x as int,
                        chunks@[j].chunk_y as int,
                    ),
                scene.cubes@ == all_cubes(chunks@.subrange(0, i as int)),
                scene.background_rgba as int == rgba_value(102, 128, 153, 255),
                scene.grid_size == GRID_SIZE,
                scene.chunk_grid@.len() == GRID_SIZE * GRID_SIZE,
                scene.wf(),
                forall|slot: int|
                    0 <= slot < GRID_SIZE * GRID_SIZE ==> (#[trigger] scene.chunk_grid@[slot]
                        <==> slot_loaded(chunks@, i as int, slot)),
            decreases chunks@.len() - i,
        {
            let ghost prev = scene.chunk_grid@;
            assert(in_grid(GRID_SIZE as int, chunks@[i as int].chunk_x as int, chunks@[i as int].chunk_y as int));
            scene.load_chunk(&chunks[i]);
            proof {
                let s = chunks@.subrange(0, i as int + 1);
                assert(s.drop_last() =~= chunks@.subrange(0, i as int));
                let here = grid_slot(
                    GRID_SIZE as int,
                    chunks@[i as int].chunk_x as int,
                    chunks@[i as int].chunk_y as int,
                );
                assert forall|slot: int| 0 <= slot < GRID_SIZE * GRID_SIZE implies (
                #[trigger] scene.chunk_grid@[slot] <==> slot_loaded(chunks@, i + 1, slot)) by {
                    if slot == here {
                        assert(slot_loaded(chunks@, i + 1, slot));
                    } else {
                        assert(scene.chunk_grid@[slot] == prev[slot]);
                        if slot_loaded(chunks@, i + 1, slot) {
                            let j = choose|j: int|
                                0 <= j < i + 1 && #[trigger] grid_slot(
                                    GRID_SIZE as int,
                                    chunks@[j].chunk_x as int,
                                    chunks@[j].chunk_y as int,
                                ) == slot;
                            assert(j < i);
                            assert(slot_loaded(chunks@, i as int, slot));
                        }
                        if slot_loaded(chunks@, i as int, slot) {
                            let j = choose|j: int|
                                0 <= j < i && #[trigger] grid_slot(
                                    GRID_SIZE as int,
                                    chunks@[j].chunk_x as int,
                                    chunks@[j].chunk_y as int,
                                ) == slot;
                            assert(slot_loaded(chunks@, i + 1, slot));
                        }
                    }
                }
            }
            i = i + 1;
        }
        proof {
            assert(chunks@.subrange(0, chunks@.len() as int) =~= chunks@);
        }
        scene
    }

    /// A scene with no chunk loaded, a grid of `GRID_SIZE` slots a side, and the
    /// default background.
    pub fn empty_scene() -> (s: Scene)
        ensures
            s.wf(),
            s.cubes@.len() == 0,
            s.background_rgba as int == rgba_value(102, 128, 153, 255),
            s.grid_size == GRID_SIZE,
            s.chunk_grid@.len() == GRID_SIZE * GRID_SIZE,
            forall|i: int| 0 <= i < GRID_SIZE * GRID_SIZE ==> !#[trigger] s.chunk_grid@[i],
    {
        let grid_size: usize = GRID_SIZE;
        let mut chunk_grid: Vec<bool> = Vec::new();
        let mut i: usize = 0;
        while i < grid_size * grid_size
            invariant
                grid_size == GRID_SIZE,
                i <= grid_size * grid_size,
                chunk_grid@.len() == i,
                forall|j: int| 0 <= j < i ==> !#[trigger] chunk_grid@[j],
            decreases grid_size * grid_size - i,
        {
            chunk_grid.push(false);
            i = i + 1;
        }
        Scene { cubes: Vec::new(), background_rgba: background_color(), chunk_grid, grid_size }
    }

    /// Adds the voxels of `chunk` to the scene and marks its slot loaded.
    pub fn load_chunk(&mut self, chunk: &PTObject)
        requires
            old(self).wf(),
            in_grid(old(self).grid_size as int, chunk.chunk_x as int, chunk.chunk_y as int),
        ensures
            final(self).wf(),
            final(self).cubes@ == old(self).cubes@ + chunk.cubes@,
            final(self).chunk_grid@ == old(self).chunk_grid@.update(
                grid_slot(old(self).grid_size as int, chunk.chunk_x as int, chunk.chunk_y as int),
                true,
            ),
            final(self).grid_size == old(self).grid_size,
            final(self).background_rgba == old(self).background_rgba,
    {
        let mut i: usize = 0;
        while i < chunk.cubes.len()
            invariant
                i <= chunk.cubes@.len(),
                self.cubes@ == old(self).cubes@ + chunk.cubes@.subrange(0, i as int),
                self.chunk_grid == old(self).chunk_grid,
                self.grid_size == old(self).grid_size,
                self.background_rgba == old(self).background_rgba,
            decreases chunk.cubes@.len() - i,
        {
            self.cubes.push(chunk.cubes[i]);
            proof {
                assert(chunk.cubes@.subrange(0, i as int + 1) =~= chunk.cubes@.subrange(
                    0,
                    i as int,
                ).push(chunk.cubes@[i as int]));
            }
            i = i + 1;
        }
        proof {
            assert(chunk.cubes@.subrange(0, chunk.cubes@.len() as int) =~= chunk.cubes@);
        }
        let index = chunk_xy_to_grid_location(&self.grid_size, &chunk.chunk_x, &chunk.chunk_y);
        self.chunk_grid.set(index, true);
    }

    /// Removes the voxels of chunk `(chunk_x, chunk_y)` from the scene and marks its slot
    /// free.
    pub fn unload_chunk(&mut self, chunk_x: i32, chunk_y: i32)
        requires
            old(self).wf(),
            in_grid(old(self).grid_size as int, chunk_x as int, chunk_y as int),
        ensures
            final(self).wf(),
            final(self).cubes@ == kept(old(self).cubes@, chunk_x as int, chunk_y as int),
            final(self).chunk_grid@ == old(self).chunk_grid@.update(
                grid_slot(old(self).grid_size as int, chunk_x as int, chunk_y as int),
                false,
            ),
            final(self).grid_size == old(self).grid_size,
            final(self).background_rgba == old(self).background_rgba,
    {
        let x0 = chunk_x as i64 * 64;
        let y0 = chunk_y as i64 * 64;
        let mut remaining: Vec<Cube> = Vec::new();
        let mut i: usize = 0;
        while i < self.cubes.len()
            invariant
                i <= self.cubes@.len(),
                self.cubes == old(self).cubes,
                x0 == chunk_x * CHUNK_SIZE,
                y0 == chunk_y * CHUNK_SIZE,
                remaining@ == kept(self.cubes@.subrange(0, i as int), chunk_x as int, chunk_y as int),
            decreases self.cubes@.len() - i,
        {
            let c = self.cubes[i];
            let cx = c.min[0] as i64;
            let cy = c.min[1] as i64;
            proof {
                let s = self.cubes@.subrange(0, i as int + 1);
                assert(s.drop_last() =~= self.cubes@.subrange(0, i as int));
                assert(s.last() == c);
            }
            if !(x0 <= cx && cx < x0 + 64 && y0 <= cy && cy < y0 + 64) {
                remaining.push(c);
            }
            i = i + 1;
        }
        proof {
            assert(self.cubes@.subrange(0, self.cubes@.len() as int) =~= self.cubes@);
        }
        self.cubes = remaining;
        let index = chunk_xy_to_grid_location(&self.grid_size, &chunk_x, &chunk_y);
        self.chunk_grid.set(index, false);
    }

    /// The colour seen along `ray`: the colour of the nearest cube it hits, or the
    /// background when it hits none.
    pub fn get_color(&self, ray: Ray) -> (c: u32)
        requires
            ray_ok(ray),
        ensures
            c == color_seen(self.cubes@, ray, self.background_rgba),
    {
        let mut ray = ray;
        let ghost start = ray;
        let mut i: usize = 0;
        while i < self.cubes.len()
            invariant
                i <= self.cubes@.len(),
                ray_ok(ray),
                ray == trace(self.cubes@.subrange(0, i as int), start),
            decreases self.cubes@.len() - i,
        {
            proof {
                let s = self.cubes@.subrange(0, i as int + 1);
                assert(s.drop_last() =~= self.cubes@.subrange(0, i as int));
            }
            self.cubes[i].intersect_ray(&mut ray);
            i = i + 1;
        }
        proof {
            assert(self.cubes@.subrange(0, self.cubes@.len() as int) =~= self.cubes@);
        }
        match ray.distance {
            Some(_) => ray.color,
            None => self.background_rgba,
        }
    }
}

proof fn lemma_frame_upto(c: Cube, r1: Ray, r2: Ray, k: int)
    requires
        r1.origin == r2.origin,
        r1.velocity == r2.velocity,
    ensures
        near_upto(c, r1, k) == near_upto(c, r2, k),
        far_upto(c, r1, k) == far_upto(c, r2, k),
    decreases k,
{
    if k > 0 {
        lemma_frame_upto(c, r1, r2, k - 1);
    }
}

/// The slab test reads only a ray's origin and velocity.
proof fn lemma_test_frame(c: Cube, r1: Ray, r2: Ray)
    requires
        r1.origin == r2.origin,
        r1.velocity == r2.velocity,
    ensures
        near_upto(c, r1, 3) == near_upto(c, r2, 3),
        far_upto(c, r1, 3) == far_upto(c, r2, 3),
        ray_hits(c, r1) == ray_hits(c, r2),
{
    lemma_frame_upto(c, r1, r2, 3);
    if ray_hits(c, r1) {
        assert forall|d: int| 0 <= d < 3 && !moving(r2, d) implies #[trigger] in_slab(c, r2, d) by {
            assert(in_slab(c, r1, d));
        }
    }
    if ray_hits(c, r2) {
        assert forall|d: int| 0 <= d < 3 && !moving(r1, d) implies #[trigger] in_slab(c, r1, d) by {
            assert(in_slab(c, r2, d));
        }
    }
}

/// Tracing keeps a ray's origin and velocity.
proof fn lemma_trace_frame(cubes: Seq<Cube>, r: Ray)
    ensures
        trace(cubes, r).origin == r.origin,
        trace(cubes, r).velocity == r.velocity,
    decreases cubes.len(),
{
    if cubes.len() > 0 {
        lemma_trace_frame(cubes.drop_last(), r);
    }
}

/// Entry distances of a well-formed ray have a positive denominator and stay within the
/// bounds of a distance.
proof fn lemma_near_bounds(c: Cube, r: Ray, k: int)
    requires
        ray_ok(r),
        k <= 3,
    ensures
        near_upto(c, r, k) matches Some(t) ==> 0 < t.1 <= RAY_COORD_LIMIT && -4 * RAY_COORD_LIMIT
            <= t.0 <= 4 * RAY_COORD_LIMIT,
    decreases k,
{
    if k > 0 {
        lemma_near_bounds(c, r, k - 1);
        assert(-RAY_COORD_LIMIT <= r.origin[k - 1] <= RAY_COORD_LIMIT);
    }
}

/// Cube `j` of `cubes` is hit at entry distance `t`, and every earlier cube that is hit
/// is entered strictly farther.
pub open spec fn first_nearest(cubes: Seq<Cube>, r: Ray, j: int, t: (int, int)) -> bool {
    &&& 0 <= j < cubes.len()
    &&& ray_hits(cubes[j], r)
    &&& near_upto(cubes[j], r, 3).unwrap() == t
    &&& forall|i: int|
        0 <= i < j && #[trigger] ray_hits(cubes[i], r) ==> frac_lt(
            t,
            near_upto(cubes[i], r, 3).unwrap(),
        )
}

proof fn lemma_frac_lt_le(a: (int, int), b: (int, int), c: (int, int))
    requires
        a.1 > 0,
        b.1 > 0,
        c.1 > 0,
        frac_lt(a, b),
        frac_le(b, c),
    ensures
        frac_lt(a, c),
{
    assert(a.0 * c.1 < c.0 * a.1) by (nonlinear_arith)
        requires
            a.1 > 0,
            b.1 > 0,
            c.1 > 0,
            a.0 * b.1 < b.0 * a.1,
            b.0 * c.1 <= c.0 * b.1,
    ;
}

/// Nearest-hit selection: a ray with no hit yet, traced through `cubes`, ends with no hit
/// exactly when it hits none of them; otherwise no cube it hits is entered nearer than
/// its final distance, and that distance and its colour are those of the first cube
/// entered at the least distance.
pub proof fn lemma_nearest_hit(cubes: Seq<Cube>, r: Ray)
    requires
        ray_ok(r),
        r.distance is None,
    ensures
        trace(cubes, r).distance is None <==> forall|j: int|
            0 <= j < cubes.len() ==> !#[trigger] ray_hits(cubes[j], r),
        forall|j: int|
            0 <= j < cubes.len() && #[trigger] ray_hits(cubes[j], r) ==> frac_le(
                trace(cubes, r).distance.unwrap().frac(),
                near_upto(cubes[j], r, 3).unwrap(),
            ),
        trace(cubes, r).distance matches Some(d) ==> exists|j: int|
            #[trigger] first_nearest(cubes, r, j, d.frac()) && trace(cubes, r).color
                == cubes[j].color,
    decreases cubes.len(),
{
    if cubes.len() > 0 {
        let prev = cubes.drop_last();
        let c = cubes.last();
        let n = cubes.len() - 1;
        lemma_nearest_hit(prev, r);
        let t0 = trace(prev, r);
        lemma_trace_frame(prev, r);
        lemma_test_frame(c, t0, r);
        lemma_near_bounds(c, r, 3);
        assert forall|j: int| 0 <= j < n implies cubes[j] == prev[j] by {}
        let t = trace(cubes, r);
        let near_c = near_upto(c, r, 3).unwrap();
        if ray_hits(c, r) && (t0.distance matches Some(best) ==> frac_lt(near_c, best.frac())) {
            assert(t.distance.unwrap().frac() == near_c);
            assert forall|j: int|
                0 <= j < n && #[trigger] ray_hits(cubes[j], r) implies frac_lt(
                near_c,
                near_upto(cubes[j], r, 3).unwrap(),
            ) by {
                assert(ray_hits(prev[j], r));
                let best = t0.distance.unwrap();
                lemma_near_bounds(cubes[j], r, 3);
                let bj = choose|i: int| #[trigger]
                    first_nearest(prev, r, i, best.frac()) && t0.color == prev[i].color;
                lemma_near_bounds(prev[bj], r, 3);
                lemma_frac_lt_le(near_c, best.frac(), near_upto(cubes[j], r, 3).unwrap());
            }
            assert forall|j: int|
                0 <= j < cubes.len() && #[trigger] ray_hits(cubes[j], r) implies frac_le(
                t.distance.unwrap().frac(),
                near_upto(cubes[j], r, 3).unwrap(),
            ) by {
                if j < n {
                    assert(frac_lt(near_c, near_upto(cubes[j], r, 3).unwrap()));
                }
            }
            assert(first_nearest(cubes, r, n, near_c));
        } else {
            assert(t == t0);
            if ray_hits(c, r) {
                let best = t0.distance.unwrap();
                assert(frac_le(best.frac(), near_c));
            }
            assert forall|j: int|
                0 <= j < cubes.len() && #[trigger] ray_hits(cubes[j], r) implies frac_le(
                t.distance.unwrap().frac(),
                near_upto(cubes[j], r, 3).unwrap(),
            ) by {
                if j < n {
                    assert(ray_hits(prev[j], r));
                }
            }
            if t.distance is Some {
                let d = t0.distance.unwrap();
                let bj = choose|i: int| #[trigger]
                    first_nearest(prev, r, i, d.frac()) && t0.color == prev[i].color;
                assert forall|i: int| 0 <= i < bj && #[trigger] ray_hits(cubes[i], r) implies frac_lt(
                    d.frac(),
                    near_upto(cubes[i], r, 3).unwrap(),
                ) by {
                    assert(ray_hits(prev[i], r));
                }
                assert(first_nearest(cubes, r, bj, d.frac()));
            } else {
                assert forall|j: int| 0 <= j < cubes.len() implies !#[trigger] ray_hits(
                    cubes[j],
                    r,
                ) by {
                    if j < n {
                        assert(!ray_hits(prev[j], r));
                    }
                }
            }
        }
    }
}

} // verus!
