use vstd::prelude::*;

use crate::cube::Cube;
use crate::flatten::{
    GpuOctNode, bfs_layout, flatten, layout_overflows, lemma_deterministic_layout, lemma_layout_end,
};
use crate::octree::{
    SparseOctree, box_occupied, color_at, construct_octree, log2, power_of_two, subtree_ok,
};

verus! {

/// Edge of a chunk's footprint, and height of its bounding volume, in voxels.
pub const CHUNK_SIZE: i32 = 64;

/// A generated chunk: one voxel per column of its footprint, and the octree built over
/// its bounding volume.
pub struct PTObject {
    pub chunk_x: i32,
    pub chunk_y: i32,
    pub cubes: Vec<Cube>,
    pub octree: Option<SparseOctree>,
}

/// The chunk at `(cx, cy)` has a bounding volume whose corners fit in `i32`.
pub open spec fn chunk_in_range(cx: int, cy: int) -> bool {
    &&& i32::MIN <= cx * CHUNK_SIZE
    &&& cx * CHUNK_SIZE + CHUNK_SIZE <= i32::MAX
    &&& i32::MIN <= cy * CHUNK_SIZE
    &&& cy * CHUNK_SIZE + CHUNK_SIZE <= i32::MAX
}

/// The height of a column, clamped into the chunk's z-range `[0, CHUNK_SIZE)`.
pub open spec fn column_height(h: int) -> int {
    if h < 0 {
        0
    } else if h >= CHUNK_SIZE {
        CHUNK_SIZE - 1
    } else {
        h
    }
}

/// Voxel `i` of the chunk at `(cx, cy)`: the unit cube of column
/// `(i % CHUNK_SIZE, i / CHUNK_SIZE)` at the clamped height `h`, with colour `color`.
pub open spec fn is_column_voxel(c: Cube, cx: int, cy: int, i: int, h: int, color: u32) -> bool {
    &&& c.min[0] == cx * CHUNK_SIZE + i % (CHUNK_SIZE as int)
    &&& c.min[1] == cy * CHUNK_SIZE + i / (CHUNK_SIZE as int)
    &&& c.min[2] == column_height(h)
    &&& c.max[0] == c.min[0] + 1
    &&& c.max[1] == c.min[1] + 1
    &&& c.max[2] == c.min[2] + 1
    &&& c.color == color
}

/// The bounding volume of the chunk at `(cx, cy)`.
pub open spec fn chunk_bounds_spec(cx: int, cy: int) -> [[i32; 3]; 2] {
    [
        [(cx * CHUNK_SIZE) as i32, (cy * CHUNK_SIZE) as i32, 0],
        [(cx * CHUNK_SIZE + CHUNK_SIZE) as i32, (cy * CHUNK_SIZE + CHUNK_SIZE) as i32, CHUNK_SIZE],
    ]
}

/// `r` is the chunk at `(cx, cy)` generated from the per-column `heights` and `colors`:
/// exactly one voxel per column, voxel `i` in column `(i % CHUNK_SIZE, i / CHUNK_SIZE)` at
/// the clamped height of that column, and the octree of those voxels over the chunk's
/// bounding volume.
pub open spec fn generated_chunk(
    r: PTObject,
    cx: int,
    cy: int,
    heights: Seq<i64>,
    colors: Seq<u32>,
) -> bool {
    &&& r.chunk_x == cx
    &&& r.chunk_y == cy
    &&& r.cubes@.len() == CHUNK_SIZE * CHUNK_SIZE
    &&& forall|i: int|
        0 <= i < CHUNK_SIZE * CHUNK_SIZE ==> is_column_voxel(
            #[trigger] r.cubes@[i],
            cx,
            cy,
            i,
            heights[i] as int,
            colors[i],
        )
    &&& r.octree matches Some(t) && t.aabb == chunk_bounds_spec(cx, cy) && t.max_depth == 6
        && subtree_ok(t.root, r.cubes@, cx * CHUNK_SIZE, cy * CHUNK_SIZE, 0, CHUNK_SIZE as int)
}

/// Generating a chunk, building its octree and flattening it is deterministic: two chunks
/// generated at the same coordinates from the same terrain hold the same voxels, and their
/// octrees lay out to byte-identical arrays from the same starting index.
pub proof fn lemma_chunk_layout_deterministic(
    a: PTObject,
    b: PTObject,
    cx: int,
    cy: int,
    heights: Seq<i64>,
    colors: Seq<u32>,
    out_a: Seq<GpuOctNode>,
    out_b: Seq<GpuOctNode>,
    first: int,
)
    requires
        generated_chunk(a, cx, cy, heights, colors),
        generated_chunk(b, cx, cy, heights, colors),
        bfs_layout(a.octree.unwrap().root, out_a, first),
        bfs_layout(b.octree.unwrap().root, out_b, first),
    ensures
        a.cubes@ == b.cubes@,
        out_a == out_b,
{
    assert forall|i: int| 0 <= i < a.cubes@.len() implies a.cubes@[i] == b.cubes@[i] by {
        let ca = a.cubes@[i];
        let cb = b.cubes@[i];
        assert(is_column_voxel(ca, cx, cy, i, heights[i] as int, colors[i]));
        assert(is_column_voxel(cb, cx, cy, i, heights[i] as int, colors[i]));
        assert(ca.min =~= cb.min);
        assert(ca.max =~= cb.max);
    }
    assert(a.cubes@ =~= b.cubes@);
    lemma_chunk_edge();
    lemma_deterministic_layout(
        a.octree.unwrap().root,
        b.octree.unwrap().root,
        a.cubes@,
        cx * CHUNK_SIZE,
        cy * CHUNK_SIZE,
        0,
        CHUNK_SIZE as int,
        out_a,
        out_b,
        first,
    );
}

/// The generator's heightfield: the voxel of local column `(x, y)` is at index
/// `y * CHUNK_SIZE + x`, at the column's clamped height, and no two voxels share a column.
pub proof fn lemma_one_voxel_per_column(
    r: PTObject,
    cx: int,
    cy: int,
    heights: Seq<i64>,
    colors: Seq<u32>,
)
    requires
        generated_chunk(r, cx, cy, heights, colors),
    ensures
        forall|x: int, y: int|
            0 <= x < CHUNK_SIZE && 0 <= y < CHUNK_SIZE ==> {
                let c = #[trigger] r.cubes@[y * CHUNK_SIZE + x];
                &&& c.min[0] == cx * CHUNK_SIZE + x
                &&& c.min[1] == cy * CHUNK_SIZE + y
                &&& c.min[2] == column_height(heights[y * CHUNK_SIZE + x] as int)
            },
        forall|i: int, j: int|
            0 <= i < j < r.cubes@.len() ==> (#[trigger] r.cubes@[i]).min[0] != (
            #[trigger] r.cubes@[j]).min[0] || r.cubes@[i].min[1] != r.cubes@[j].min[1],
{
    assert forall|x: int, y: int| 0 <= x < CHUNK_SIZE && 0 <= y < CHUNK_SIZE implies {
        let c = #[trigger] r.cubes@[y * CHUNK_SIZE + x];
        &&& c.min[0] == cx * CHUNK_SIZE + x
        &&& c.min[1] == cy * CHUNK_SIZE + y
        &&& c.min[2] == column_height(heights[y * CHUNK_SIZE + x] as int)
    } by {
        let i = y * CHUNK_SIZE + x;
        assert(i % 64 == x && i / 64 == y);
        assert(is_column_voxel(r.cubes@[i], cx, cy, i, heights[i] as int, colors[i]));
    }
    assert forall|i: int, j: int| 0 <= i < j < r.cubes@.len() implies (
    #[trigger] r.cubes@[i]).min[0] != (#[trigger] r.cubes@[j]).min[0] || r.cubes@[i].min[1]
        != r.cubes@[j].min[1] by {
        assert(is_column_voxel(r.cubes@[i], cx, cy, i, heights[i] as int, colors[i]));
        assert(is_column_voxel(r.cubes@[j], cx, cy, j, heights[j] as int, colors[j]));
        assert(i == 64 * (i / 64) + i % 64);
        assert(j == 64 * (j / 64) + j % 64);
    }
}

/// A cube's corner is coloured in the list that holds it.
proof fn lemma_color_at_member(cubes: Seq<Cube>, j: int)
    requires
        0 <= j < cubes.len(),
    ensures
        color_at(cubes, cubes[j].min[0] as int, cubes[j].min[1] as int, cubes[j].min[2] as int) is Some,
    decreases cubes.len(),
{
    if j < cubes.len() - 1 {
        lemma_color_at_member(cubes.drop_last(), j);
        assert(cubes.drop_last()[j] == cubes[j]);
    }
}

proof fn lemma_chunk_edge()
    ensures
        power_of_two(CHUNK_SIZE as int),
        log2(CHUNK_SIZE as int) == 6,
{
    assert(power_of_two(1));
    assert(power_of_two(2));
    assert(power_of_two(4));
    assert(power_of_two(8));
    assert(power_of_two(16));
    assert(power_of_two(32));
    assert(power_of_two(64));
    assert(log2(1) == 0);
    assert(log2(2) == 1);
    assert(log2(4) == 2);
    assert(log2(8) == 3);
    assert(log2(16) == 4);
    assert(log2(32) == 5);
    assert(log2(64) == 6);
}

impl PTObject {
    /// Generates the chunk at `(chunk_x, chunk_y)` from the terrain heights and voxel colours
    /// of its columns, both indexed `y * CHUNK_SIZE + x` for the local column `(x, y)`, and
    /// builds its octree.
    pub fn new(chunk_x: i32, chunk_y: i32, heights: &Vec<i64>, colors: &Vec<u32>) -> (r: PTObject)
        requires
            chunk_in_range(chunk_x as int, chunk_y as int),
            heights@.len() == CHUNK_SIZE * CHUNK_SIZE,
            colors@.len() == CHUNK_SIZE * CHUNK_SIZE,
        ensures
            generated_chunk(r, chunk_x as int, chunk_y as int, heights@, colors@),
    {
        let x_offset: i32 = chunk_x * CHUNK_SIZE;
        let y_offset: i32 = chunk_y * CHUNK_SIZE;
        let mut cubes: Vec<Cube> = Vec::new();
        let mut i: usize = 0;
        while i < 4096
            invariant
                i <= 4096,
                CHUNK_SIZE * CHUNK_SIZE == 4096,
                x_offset == chunk_x * CHUNK_SIZE,
                y_offset == chunk_y * CHUNK_SIZE,
                chunk_in_range(chunk_x as int, chunk_y as int),
                heights@.len() == 4096,
                colors@.len() == 4096,
                cubes@.len() == i,
                forall|j: int|
                    0 <= j < i ==> is_column_voxel(
                        #[trigger] cubes@[j],
                        chunk_x as int,
                        chunk_y as int,
                        j,
                        heights@[j] as int,
                        colors@[j],
                    ),
            decreases 4096 - i,
        {
            let x = (i % 64) as i32;
            let y = (i / 64) as i32;
            let h = heights[i];
            let z: i32 = if h < 0 {
                0
            } else if h >= 64 {
                63
            } else {
                h as i32
            };
            let cube = Cube::new_cube_at(&[x_offset + x, y_offset + y, z], colors[i]);
            cubes.push(cube);
            i = i + 1;
        }
        let bounds: [[i32; 3]; 2] = [
            [x_offset, y_offset, 0],
            [x_offset + CHUNK_SIZE, y_offset + CHUNK_SIZE, CHUNK_SIZE],
        ];
        proof {
            lemma_chunk_edge();
            assert(bounds == chunk_bounds_spec(chunk_x as int, chunk_y as int));
            lemma_color_at_member(cubes@, 0);
            assert(is_column_voxel(cubes@[0], chunk_x as int, chunk_y as int, 0, heights@[0] as int, colors@[0]));
            let c0 = cubes@[0];
            assert(crate::octree::in_box(
                c0.min[0] as int,
                c0.min[1] as int,
                c0.min[2] as int,
                x_offset as int,
                y_offset as int,
                0,
                64,
            ));
            assert(box_occupied(cubes@, x_offset as int, y_offset as int, 0, 64));
        }
        let octree = construct_octree(&cubes, bounds);
        PTObject { chunk_x, chunk_y, cubes, octree }
    }

    /// The chunk's octree flattened breadth first. `*starting_index` is the buffer index
    /// that the root's first child takes, one past the root's own index (1 for an array
    /// whose root is at index 0); child indices are buffer indices. Advances
    /// `*starting_index` by the number of child records, that is past every child run of
    /// this array. `None`, leaving the index as it was, when some child index would not fit
    /// in 32 bits. A chunk without an octree gives no records.
    pub fn get_octree_array(&self, starting_index: &mut u32) -> (r: Option<Vec<GpuOctNode>>)
        ensures
            self.octree is None ==> (r matches Some(out) && out@.len() == 0),
            self.octree is None ==> *final(starting_index) == *old(starting_index),
            self.octree matches Some(t) ==> match r {
                Some(out) => {
                    &&& bfs_layout(t.root, out@, *old(starting_index) as int)
                    &&& *final(starting_index) == *old(starting_index) + out@.len() - 1
                },
                None => {
                    &&& layout_overflows(t.root, *old(starting_index) as int)
                    &&& *final(starting_index) == *old(starting_index)
                },
            },
    {
        match &self.octree {
            Some(octree) => {
                match flatten(&octree.root, *starting_index) {
                    Some(out) => {
                        proof {
                            lemma_layout_end(octree.root, out@, *starting_index as int);
                        }
                        *starting_index = *starting_index + (out.len() - 1) as u32;
                        Some(out)
                    },
                    None => None,
                }
            },
            None => Some(Vec::new()),
        }
    }

    /// The voxels of the chunk.
    pub fn get_cubes(&self) -> (r: &Vec<Cube>)
        ensures
            r == &self.cubes,
    {
        &self.cubes
    }
}

} // verus!
