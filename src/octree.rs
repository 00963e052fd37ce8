use vstd::prelude::*;

use crate::cube::Cube;
use std::collections::HashMap;

verus! {

broadcast use vstd::std_specs::hash::group_hash_axioms;

/// `2^i` for small non-negative `i`.
pub open spec fn bit_value(i: int) -> int
    decreases i,
{
    if i <= 0 {
        1
    } else {
        2 * bit_value(i - 1)
    }
}

/// `n` is a positive power of two.
pub open spec fn power_of_two(n: int) -> bool
    decreases n,
{
    if n <= 0 {
        false
    } else if n == 1 {
        true
    } else {
        n % 2 == 0 && power_of_two(n / 2)
    }
}

/// The colour of the first cube of `cubes` whose minimum corner is `(x, y, z)`,
/// or `None` when no cube sits there.
pub open spec fn color_at(cubes: Seq<Cube>, x: int, y: int, z: int) -> Option<u32>
    decreases cubes.len(),
{
    if cubes.len() == 0 {
        None
    } else {
        let prev = color_at(cubes.drop_last(), x, y, z);
        if prev is Some {
            prev
        } else if cubes.last().min[0] == x && cubes.last().min[1] == y && cubes.last().min[2]
            == z {
            Some(cubes.last().color)
        } else {
            None
        }
    }
}

/// `(x, y, z)` lies in the cube of edge `e` whose minimum corner is `(ox, oy, oz)`.
pub open spec fn in_box(x: int, y: int, z: int, ox: int, oy: int, oz: int, e: int) -> bool {
    ox <= x < ox + e && oy <= y < oy + e && oz <= z < oz + e
}

/// Some unit voxel of the box of edge `e` at `(ox, oy, oz)` is occupied.
pub open spec fn box_occupied(cubes: Seq<Cube>, ox: int, oy: int, oz: int, e: int) -> bool {
    exists|x: int, y: int, z: int|
        in_box(x, y, z, ox, oy, oz, e) && (#[trigger] color_at(cubes, x, y, z)) is Some
}

/// Minimum corner of octant `i = z*4 + y*2 + x` of a box of edge `e`, per axis.
pub open spec fn octant_x(ox: int, e: int, i: int) -> int {
    ox + (e / 2) * (i % 2)
}

pub open spec fn octant_y(oy: int, e: int, i: int) -> int {
    oy + (e / 2) * ((i / 2) % 2)
}

pub open spec fn octant_z(oz: int, e: int, i: int) -> int {
    oz + (e / 2) * (i / 4)
}

/// Octant `i` of the box holds an occupied voxel.
pub open spec fn octant_occupied(
    cubes: Seq<Cube>,
    ox: int,
    oy: int,
    oz: int,
    e: int,
    i: int,
) -> bool {
    box_occupied(
        cubes,
        octant_x(ox, e, i),
        octant_y(oy, e, i),
        octant_z(oz, e, i),
        e / 2,
    )
}

/// The occupied octants among the first `k`, in ascending order.
pub open spec fn present_octants(
    cubes: Seq<Cube>,
    ox: int,
    oy: int,
    oz: int,
    e: int,
    k: int,
) -> Seq<int>
    decreases k,
{
    if k <= 0 {
        seq![]
    } else {
        let prev = present_octants(cubes, ox, oy, oz, e, k - 1);
        if octant_occupied(cubes, ox, oy, oz, e, k - 1) {
            prev.push(k - 1)
        } else {
            prev
        }
    }
}

/// The child-presence mask over the first `k` octants: bit `i` set when octant `i` is occupied.
pub open spec fn octant_mask(cubes: Seq<Cube>, ox: int, oy: int, oz: int, e: int, k: int) -> int
    decreases k,
{
    if k <= 0 {
        0
    } else {
        octant_mask(cubes, ox, oy, oz, e, k - 1) + if octant_occupied(
            cubes,
            ox,
            oy,
            oz,
            e,
            k - 1,
        ) {
            bit_value(k - 1)
        } else {
            0
        }
    }
}

/// Number of set bits of `m`.
pub open spec fn popcount(m: int) -> int
    decreases m,
{
    if m <= 0 {
        0
    } else {
        m % 2 + popcount(m / 2)
    }
}

/// A node of a sparse voxel octree. Empty regions are not materialised: they are
/// absent from their parent's child list.
pub enum SparseOctreeNode {
    /// One occupied unit voxel, with its packed RGBA colour.
    Leaf { color: u32 },
    /// An inner node: bit `i` of `child_mask` marks octant `i = z*4 + y*2 + x` as present,
    /// and `children` lists the present octants' nodes in ascending octant order.
    Branch { child_mask: u8, children: Vec<SparseOctreeNode> },
}

/// `n` is exactly the octree of the voxels of `cubes` inside the box of edge `e`
/// at `(ox, oy, oz)`, that box being occupied.
pub open spec fn subtree_ok(
    n: SparseOctreeNode,
    cubes: Seq<Cube>,
    ox: int,
    oy: int,
    oz: int,
    e: int,
) -> bool
    decreases e,
{
    if e <= 1 {
        match n {
            SparseOctreeNode::Leaf { color } => color_at(cubes, ox, oy, oz) == Some(color),
            SparseOctreeNode::Branch { .. } => false,
        }
    } else {
        match n {
            SparseOctreeNode::Leaf { .. } => false,
            SparseOctreeNode::Branch { child_mask, children } => {
                let p = present_octants(cubes, ox, oy, oz, e, 8);
                &&& child_mask != 0
                &&& child_mask as int == octant_mask(cubes, ox, oy, oz, e, 8)
                &&& children@.len() == p.len()
                &&& forall|j: int|
                    0 <= j < p.len() ==> subtree_ok(
                        #[trigger] children@[j],
                        cubes,
                        octant_x(ox, e, p[j]),
                        octant_y(oy, e, p[j]),
                        octant_z(oz, e, p[j]),
                        e / 2,
                    )
            },
        }
    }
}

/// The three digits `lx`, `ly`, `lz` (least significant first) read as a number in base `e`.
pub open spec fn base_digits(e: int, lx: int, ly: int, lz: int) -> int {
    lx + e * (ly + e * lz)
}

proof fn lemma_base_digits(e: int, lx: int, ly: int, lz: int)
    requires
        1 <= e,
        0 <= lx < e,
        0 <= ly < e,
        0 <= lz < e,
    ensures
        0 <= base_digits(e, lx, ly, lz) < e * e * e,
        base_digits(e, lx, ly, lz) % e == lx,
        (base_digits(e, lx, ly, lz) / e) % e == ly,
        (base_digits(e, lx, ly, lz) / e) / e == lz,
{
    let q = ly + e * lz;
    assert(0 <= q < e * e) by (nonlinear_arith)
        requires
            0 <= ly < e,
            0 <= lz < e,
            q == ly + e * lz,
    ;
    assert(base_digits(e, lx, ly, lz) == q * e + lx) by (nonlinear_arith)
        requires
            q == ly + e * lz,
    ;
    vstd::arithmetic::div_mod::lemma_fundamental_div_mod_converse(
        base_digits(e, lx, ly, lz),
        e,
        q,
        lx,
    );
    assert(q == lz * e + ly) by (nonlinear_arith)
        requires
            q == ly + e * lz,
    ;
    vstd::arithmetic::div_mod::lemma_fundamental_div_mod_converse(q, e, lz, ly);
    assert(q * e + lx < e * e * e) by (nonlinear_arith)
        requires
            0 <= q < e * e,
            0 <= lx < e,
    ;
}

/// Offset that moves an `i32` coordinate into `[0, 2^32)`.
pub open spec fn coord_offset() -> int {
    0x8000_0000
}

/// `v` is a value of `i32`.
pub open spec fn in_i32(v: int) -> bool {
    i32::MIN <= v <= i32::MAX
}

/// The lookup key of voxel `(x, y, z)`: the three offset coordinates packed into 96 bits,
/// `x` in the most significant 32.
pub open spec fn voxel_key(x: int, y: int, z: int) -> int {
    base_digits(0x1_0000_0000, z + coord_offset(), y + coord_offset(), x + coord_offset())
}

/// The key of a voxel with `i32` coordinates fits in `u128` and gives back its coordinates.
proof fn lemma_voxel_key(x: int, y: int, z: int)
    requires
        in_i32(x),
        in_i32(y),
        in_i32(z),
    ensures
        0 <= voxel_key(x, y, z) <= u128::MAX,
        voxel_key(x, y, z) % 0x1_0000_0000 == z + coord_offset(),
        (voxel_key(x, y, z) / 0x1_0000_0000) % 0x1_0000_0000 == y + coord_offset(),
        (voxel_key(x, y, z) / 0x1_0000_0000) / 0x1_0000_0000 == x + coord_offset(),
{
    lemma_base_digits(0x1_0000_0000, z + coord_offset(), y + coord_offset(), x + coord_offset());
    assert(0x1_0000_0000int * 0x1_0000_0000int * 0x1_0000_0000int <= u128::MAX + 1)
        by (nonlinear_arith);
}

/// `m` holds, under its key, the colour that `cubes` gives each voxel with `i32`
/// coordinates, and no key for a voxel that no cube occupies.
pub open spec fn lookup_matches(m: Map<u128, u32>, cubes: Seq<Cube>) -> bool {
    forall|x: int, y: int, z: int|
        in_i32(x) && in_i32(y) && in_i32(z) ==> {
            let k = (#[trigger] voxel_key(x, y, z)) as u128;
            &&& m.contains_key(k) <==> color_at(cubes, x, y, z) is Some
            &&& m.contains_key(k) ==> color_at(cubes, x, y, z) == Some(m[k])
        }
}

/// The lookup key of voxel `(x, y, z)`.
fn key_of(x: i32, y: i32, z: i32) -> (k: u128)
    ensures
        k as int == voxel_key(x as int, y as int, z as int),
{
    let a = (x as i64 + 0x8000_0000) as u128;
    let b = (y as i64 + 0x8000_0000) as u128;
    let c = (z as i64 + 0x8000_0000) as u128;
    let big: u128 = 0x1_0000_0000;
    proof {
        lemma_voxel_key(x as int, y as int, z as int);
        assert(big * a < big * big && b + big * a < big * big && c + big * (b + big * a) < big
            * big * big) by (nonlinear_arith)
            requires
                a < big,
                b < big,
                c < big,
        ;
        assert(big * big * big == 0x1_0000_0000_0000_0000_0000_0000u128);
    }
    c + big * (b + big * a)
}

/// A hash map from voxel key to colour over the voxels of `cubes` (the first cube placed
/// at a corner wins), so that a lookup does not scan the cubes.
fn voxel_lookup(cubes: &Vec<Cube>) -> (m: HashMap<u128, u32>)
    ensures
        lookup_matches(m@, cubes@),
{
    let mut m: HashMap<u128, u32> = HashMap::new();
    proof {
        assert(cubes@.subrange(0, 0) =~= Seq::<Cube>::empty());
    }
    let mut j: usize = 0;
    while j < cubes.len()
        invariant
            j <= cubes@.len(),
            lookup_matches(m@, cubes@.subrange(0, j as int)),
        decreases cubes@.len() - j,
    {
        let c = &cubes[j];
        let k = key_of(c.min[0], c.min[1], c.min[2]);
        let ghost prev = m@;
        let ghost s = cubes@.subrange(0, j as int + 1);
        proof {
            assert(s.drop_last() =~= cubes@.subrange(0, j as int));
            assert(s.last() == *c);
        }
        if !m.contains_key(&k) {
            m.insert(k, c.color);
        }
        proof {
            let (cx, cy, cz) = (c.min[0] as int, c.min[1] as int, c.min[2] as int);
            lemma_voxel_key(cx, cy, cz);
            assert forall|x: int, y: int, z: int| in_i32(x) && in_i32(y) && in_i32(z) implies {
                let q = (#[trigger] voxel_key(x, y, z)) as u128;
                &&& m@.contains_key(q) <==> color_at(s, x, y, z) is Some
                &&& m@.contains_key(q) ==> color_at(s, x, y, z) == Some(m@[q])
            } by {
                lemma_voxel_key(x, y, z);
                let q = voxel_key(x, y, z) as u128;
                assert(prev.contains_key(q) <==> color_at(cubes@.subrange(0, j as int), x, y, z)
                    is Some);
                if x != cx || y != cy || z != cz {
                    assert(q != k);
                }
            }
        }
        j = j + 1;
    }
    proof {
        assert(cubes@.subrange(0, cubes@.len() as int) =~= cubes@);
    }
    m
}

proof fn lemma_unit_box(cubes: Seq<Cube>, ox: int, oy: int, oz: int)
    ensures
        box_occupied(cubes, ox, oy, oz, 1) <==> color_at(cubes, ox, oy, oz) is Some,
{
    if color_at(cubes, ox, oy, oz) is Some {
        assert(in_box(ox, oy, oz, ox, oy, oz, 1));
    }
}

/// A box of even edge is occupied exactly when one of its eight octants is.
proof fn lemma_split(cubes: Seq<Cube>, ox: int, oy: int, oz: int, e: int)
    requires
        e >= 2,
        e % 2 == 0,
    ensures
        box_occupied(cubes, ox, oy, oz, e) <==> exists|i: int|
            0 <= i < 8 && #[trigger] octant_occupied(cubes, ox, oy, oz, e, i),
{
    let h = e / 2;
    if box_occupied(cubes, ox, oy, oz, e) {
        let (x, y, z) = choose|x: int, y: int, z: int|
            in_box(x, y, z, ox, oy, oz, e) && (#[trigger] color_at(cubes, x, y, z)) is Some;
        let bx: int = if x - ox >= h {
            1
        } else {
            0
        };
        let by: int = if y - oy >= h {
            1
        } else {
            0
        };
        let bz: int = if z - oz >= h {
            1
        } else {
            0
        };
        let i = bx + 2 * by + 4 * bz;
        assert(i % 2 == bx && (i / 2) % 2 == by && i / 4 == bz);
        assert(in_box(x, y, z, octant_x(ox, e, i), octant_y(oy, e, i), octant_z(oz, e, i), h));
        assert(octant_occupied(cubes, ox, oy, oz, e, i));
    }
    if exists|i: int| 0 <= i < 8 && #[trigger] octant_occupied(cubes, ox, oy, oz, e, i) {
        let i = choose|i: int| 0 <= i < 8 && #[trigger] octant_occupied(cubes, ox, oy, oz, e, i);
        let (x, y, z) = choose|x: int, y: int, z: int|
            in_box(x, y, z, octant_x(ox, e, i), octant_y(oy, e, i), octant_z(oz, e, i), h) && (
            #[trigger] color_at(cubes, x, y, z)) is Some;
        assert(0 <= i % 2 <= 1 && 0 <= (i / 2) % 2 <= 1 && 0 <= i / 4 <= 1);
        assert(0 <= (e / 2) * (i % 2) <= h) by (nonlinear_arith)
            requires
                0 <= i % 2 <= 1,
                h == e / 2,
                e >= 2,
        ;
        assert(0 <= (e / 2) * ((i / 2) % 2) <= h) by (nonlinear_arith)
            requires
                0 <= (i / 2) % 2 <= 1,
                h == e / 2,
                e >= 2,
        ;
        assert(0 <= (e / 2) * (i / 4) <= h) by (nonlinear_arith)
            requires
                0 <= i / 4 <= 1,
                h == e / 2,
                e >= 2,
        ;
        assert(in_box(x, y, z, ox, oy, oz, e));
    }
}

/// The first `k` octants contribute a child exactly when one of them is occupied,
/// and the mask over them stays below `2^k`.
proof fn lemma_present(cubes: Seq<Cube>, ox: int, oy: int, oz: int, e: int, k: int)
    requires
        0 <= k,
    ensures
        present_octants(cubes, ox, oy, oz, e, k).len() > 0 <==> exists|i: int|
            0 <= i < k && #[trigger] octant_occupied(cubes, ox, oy, oz, e, i),
        octant_mask(cubes, ox, oy, oz, e, k) > 0 <==> exists|i: int|
            0 <= i < k && #[trigger] octant_occupied(cubes, ox, oy, oz, e, i),
        0 <= octant_mask(cubes, ox, oy, oz, e, k) < bit_value(k),
        forall|j: int|
            0 <= j < present_octants(cubes, ox, oy, oz, e, k).len() ==> 0 <= #[trigger] present_octants(
                cubes,
                ox,
                oy,
                oz,
                e,
                k,
            )[j] < k,
    decreases k,
{
    if k > 0 {
        lemma_present(cubes, ox, oy, oz, e, k - 1);
        lemma_bit_value_positive(k - 1);
        if octant_occupied(cubes, ox, oy, oz, e, k - 1) {
            assert(exists|i: int| 0 <= i < k && #[trigger] octant_occupied(cubes, ox, oy, oz, e, i));
        }
        if exists|i: int| 0 <= i < k && #[trigger] octant_occupied(cubes, ox, oy, oz, e, i) {
            let i = choose|i: int| 0 <= i < k && #[trigger] octant_occupied(cubes, ox, oy, oz, e, i);
            if i < k - 1 {
                assert(exists|i: int|
                    0 <= i < k - 1 && #[trigger] octant_occupied(cubes, ox, oy, oz, e, i));
            }
        }
        let prev = present_octants(cubes, ox, oy, oz, e, k - 1);
        let cur = present_octants(cubes, ox, oy, oz, e, k);
        assert forall|j: int| 0 <= j < cur.len() implies 0 <= #[trigger] cur[j] < k by {
            if j < prev.len() {
                assert(cur[j] == prev[j]);
            }
        }
    }
}

proof fn lemma_bit_value_positive(i: int)
    ensures
        bit_value(i) >= 1,
    decreases i,
{
    if i > 0 {
        lemma_bit_value_positive(i - 1);
    }
}

proof fn lemma_bit_value_mono(i: int, j: int)
    requires
        0 <= i <= j,
    ensures
        bit_value(i) <= bit_value(j),
    decreases j,
{
    if i < j {
        lemma_bit_value_mono(i, j - 1);
        lemma_bit_value_positive(j - 1);
    }
}

proof fn lemma_small_bits()
    ensures
        bit_value(7) == 128,
        bit_value(8) == 256,
{
    assert(bit_value(0) == 1);
    assert(bit_value(1) == 2);
    assert(bit_value(2) == 4);
    assert(bit_value(3) == 8);
    assert(bit_value(4) == 16);
    assert(bit_value(5) == 32);
    assert(bit_value(6) == 64);
    assert(bit_value(7) == 128);
    assert(bit_value(8) == 256);
}

/// The octree of the box of edge `e` at `(ox, oy, oz)`, read from the voxel lookup `map`.
/// `None` when the box is empty.
fn construct_child(
    map: &HashMap<u128, u32>,
    Ghost(cubes): Ghost<Seq<Cube>>,
    ox: i32,
    oy: i32,
    oz: i32,
    e: i64,
) -> (r: Option<SparseOctreeNode>)
    requires
        lookup_matches(map@, cubes),
        power_of_two(e as int),
        ox + e - 1 <= i32::MAX,
        oy + e - 1 <= i32::MAX,
        oz + e - 1 <= i32::MAX,
    ensures
        r is None <==> !box_occupied(cubes, ox as int, oy as int, oz as int, e as int),
        r matches Some(n) ==> subtree_ok(n, cubes, ox as int, oy as int, oz as int, e as int),
    decreases e,
{
    if e == 1 {
        let k = key_of(ox, oy, oz);
        proof {
            lemma_unit_box(cubes, ox as int, oy as int, oz as int);
            assert(in_i32(ox as int) && in_i32(oy as int) && in_i32(oz as int));
            let q = voxel_key(ox as int, oy as int, oz as int);
            assert(map@.contains_key(k) <==> color_at(cubes, ox as int, oy as int, oz as int)
                is Some);
        }
        match map.get(&k) {
            Some(color) => Some(SparseOctreeNode::Leaf { color: *color }),
            None => None,
        }
    } else {
        let half = e / 2;
        proof {
            lemma_small_bits();
        }
        let mut children: Vec<SparseOctreeNode> = Vec::new();
        let mut mask: u32 = 0;
        let mut bit: u32 = 1;
        let mut i: i64 = 0;
        while i < 8
            invariant
                0 <= i <= 8,
                e > 1,
                half == e / 2,
                e % 2 == 0,
                power_of_two(half as int),
                lookup_matches(map@, cubes),
                ox + e - 1 <= i32::MAX,
                oy + e - 1 <= i32::MAX,
                oz + e - 1 <= i32::MAX,
                bit as int == bit_value(i as int),
                mask as int == octant_mask(cubes, ox as int, oy as int, oz as int, e as int, i as int),
                mask < bit,
                children@.len() == present_octants(
                    cubes,
                    ox as int,
                    oy as int,
                    oz as int,
                    e as int,
                    i as int,
                ).len(),
                forall|j: int|
                    0 <= j < children@.len() ==> subtree_ok(
                        #[trigger] children@[j],
                        cubes,
                        octant_x(
                            ox as int,
                            e as int,
                            present_octants(cubes, ox as int, oy as int, oz as int, e as int, i as int)[j],
                        ),
                        octant_y(
                            oy as int,
                            e as int,
                            present_octants(cubes, ox as int, oy as int, oz as int, e as int, i as int)[j],
                        ),
                        octant_z(
                            oz as int,
                            e as int,
                            present_octants(cubes, ox as int, oy as int, oz as int, e as int, i as int)[j],
                        ),
                        e / 2,
                    ),
            decreases 8 - i,
        {
            let bx = i % 2;
            let by = (i / 2) % 2;
            let bz = i / 4;
            proof {
                assert(0 <= bx <= 1 && 0 <= by <= 1 && 0 <= bz <= 1);
                assert(0 <= half * bx <= half && 0 <= half * by <= half && 0 <= half * bz <= half)
                    by (nonlinear_arith)
                    requires
                        0 <= bx <= 1,
                        0 <= by <= 1,
                        0 <= bz <= 1,
                        half >= 1,
                ;
                lemma_small_bits();
                lemma_bit_value_mono(i as int, 7);
            }
            let cx = (ox as i64 + half * bx) as i32;
            let cy = (oy as i64 + half * by) as i32;
            let cz = (oz as i64 + half * bz) as i32;
            let child = construct_child(map, Ghost(cubes), cx, cy, cz, half);
            let ghost prev_present = present_octants(
                cubes,
                ox as int,
                oy as int,
                oz as int,
                e as int,
                i as int,
            );
            let ghost prev_children = children@;
            match child {
                Some(node) => {
                    children.push(node);
                    mask = mask + bit;
                },
                None => {},
            }
            proof {
                let cur = present_octants(
                    cubes,
                    ox as int,
                    oy as int,
                    oz as int,
                    e as int,
                    i + 1,
                );
                assert forall|j: int| 0 <= j < children@.len() implies subtree_ok(
                    #[trigger] children@[j],
                    cubes,
                    octant_x(ox as int, e as int, cur[j]),
                    octant_y(oy as int, e as int, cur[j]),
                    octant_z(oz as int, e as int, cur[j]),
                    e / 2,
                ) by {
                    if j < prev_children.len() {
                        assert(children@[j] == prev_children[j]);
                        assert(cur[j] == prev_present[j]);
                    }
                }
            }
            bit = bit * 2;
            i = i + 1;
        }
        proof {
            lemma_split(cubes, ox as int, oy as int, oz as int, e as int);
            lemma_present(cubes, ox as int, oy as int, oz as int, e as int, 8);
            lemma_small_bits();
        }
        if mask > 0 {
            Some(SparseOctreeNode::Branch { child_mask: mask as u8, children })
        } else {
            None
        }
    }
}

/// An octree over the cubic box `aabb` (minimum and maximum corner), whose edge is
/// `2^max_depth`.
pub struct SparseOctree {
    pub aabb: [[i32; 3]; 2],
    pub max_depth: u32,
    pub root: SparseOctreeNode,
}

/// Number of halvings that bring `e` down to 1.
pub open spec fn log2(e: int) -> int
    decreases e,
{
    if e <= 1 {
        0
    } else {
        1 + log2(e / 2)
    }
}

/// Edge of the box `b` along the x axis.
pub open spec fn extent(b: [[i32; 3]; 2]) -> int {
    b[1][0] - b[0][0]
}

/// `b` is a cube whose edge is a power of two.
pub open spec fn octree_bounds(b: [[i32; 3]; 2]) -> bool {
    let e = extent(b);
    &&& b[1][1] - b[0][1] == e
    &&& b[1][2] - b[0][2] == e
    &&& power_of_two(e)
}

/// Builds the sparse voxel octree of the voxels of `cubes` (identified by their minimum
/// corners) inside `bounds`. Cubes outside `bounds` are ignored; where several cubes share
/// a corner the first one gives the colour. `None` when no voxel lies inside `bounds`.
pub fn construct_octree(cubes: &Vec<Cube>, bounds: [[i32; 3]; 2]) -> (r: Option<SparseOctree>)
    requires
        octree_bounds(bounds),
    ensures
        r is None <==> !box_occupied(
            cubes@,
            bounds[0][0] as int,
            bounds[0][1] as int,
            bounds[0][2] as int,
            extent(bounds),
        ),
        r matches Some(t) ==> {
            &&& t.aabb == bounds
            &&& t.max_depth == log2(extent(bounds))
            &&& subtree_ok(
                t.root,
                cubes@,
                bounds[0][0] as int,
                bounds[0][1] as int,
                bounds[0][2] as int,
                extent(bounds),
            )
        },
{
    let e = bounds[1][0] as i64 - bounds[0][0] as i64;
    let map = voxel_lookup(cubes);
    let root = construct_child(&map, Ghost(cubes@), bounds[0][0], bounds[0][1], bounds[0][2], e);
    match root {
        Some(tree) => {
            let mut depth: u32 = 0;
            let mut rest: i64 = e;
            proof {
                lemma_log2_le(e as int);
            }
            while rest > 1
                invariant
                    1 <= rest <= e,
                    e <= u32::MAX,
                    log2(e as int) <= e,
                    depth as int + log2(rest as int) == log2(e as int),
                decreases rest,
            {
                proof {
                    lemma_log2_nonneg(rest / 2);
                }
                rest = rest / 2;
                depth = depth + 1;
            }
            Some(SparseOctree { aabb: bounds, max_depth: depth, root: tree })
        },
        None => None,
    }
}

proof fn lemma_popcount_add(a: int, b: int, j: int)
    requires
        0 <= j,
        0 <= a < bit_value(j),
        b == 0 || b == 1,
    ensures
        popcount(a + bit_value(j) * b) == popcount(a) + b,
    decreases j,
{
    if j == 0 {
        assert(a == 0);
        assert(popcount(0) == 0);
        if b == 1 {
            assert(popcount(1) == 1int % 2 + popcount(0));
        }
    } else {
        let t = bit_value(j - 1) * b;
        assert(bit_value(j) * b == 2 * t) by (nonlinear_arith)
            requires
                bit_value(j) == 2 * bit_value(j - 1),
                t == bit_value(j - 1) * b,
        ;
        lemma_bit_value_positive(j - 1);
        lemma_popcount_add(a / 2, b, j - 1);
        let m = a + 2 * t;
        if m > 0 {
            assert(m % 2 == a % 2 && m / 2 == a / 2 + t);
        }
        if a > 0 {
            assert(popcount(a) == a % 2 + popcount(a / 2));
        } else {
            assert(popcount(0) == 0);
        }
    }
}

/// The mask of a box has one bit set per occupied octant.
proof fn lemma_mask_popcount(cubes: Seq<Cube>, ox: int, oy: int, oz: int, e: int, k: int)
    requires
        0 <= k,
    ensures
        popcount(octant_mask(cubes, ox, oy, oz, e, k)) == present_octants(
            cubes,
            ox,
            oy,
            oz,
            e,
            k,
        ).len(),
    decreases k,
{
    if k == 0 {
        assert(popcount(0) == 0);
    } else {
        lemma_mask_popcount(cubes, ox, oy, oz, e, k - 1);
        lemma_present(cubes, ox, oy, oz, e, k - 1);
        let b: int = if octant_occupied(cubes, ox, oy, oz, e, k - 1) {
            1
        } else {
            0
        };
        lemma_popcount_add(octant_mask(cubes, ox, oy, oz, e, k - 1), b, k - 1);
    }
}

/// The nodes of an octree of height at most `d` each have a non-empty mask with one bit
/// per listed child.
pub open spec fn wf_node(n: SparseOctreeNode, d: int) -> bool
    decreases d,
{
    match n {
        SparseOctreeNode::Leaf { .. } => true,
        SparseOctreeNode::Branch { child_mask, children } => {
            &&& d > 0
            &&& child_mask != 0
            &&& popcount(child_mask as int) == children@.len()
            &&& forall|j: int| 0 <= j < children@.len() ==> wf_node(#[trigger] children@[j], d - 1)
        },
    }
}

/// Every octree that `subtree_ok` describes is well formed, of height `log2(e)`.
pub proof fn lemma_subtree_wf(n: SparseOctreeNode, cubes: Seq<Cube>, ox: int, oy: int, oz: int, e: int)
    requires
        power_of_two(e),
        subtree_ok(n, cubes, ox, oy, oz, e),
    ensures
        wf_node(n, log2(e)),
    decreases e,
{
    if e > 1 {
        lemma_log2_nonneg(e / 2);
        if let SparseOctreeNode::Branch { child_mask, children } = n {
            lemma_mask_popcount(cubes, ox, oy, oz, e, 8);
            let p = present_octants(cubes, ox, oy, oz, e, 8);
            assert forall|j: int| 0 <= j < children@.len() implies wf_node(
                #[trigger] children@[j],
                log2(e) - 1,
            ) by {
                lemma_subtree_wf(
                    children@[j],
                    cubes,
                    octant_x(ox, e, p[j]),
                    octant_y(oy, e, p[j]),
                    octant_z(oz, e, p[j]),
                    e / 2,
                );
            }
        }
    }
}

proof fn lemma_log2_le(e: int)
    requires
        e >= 1,
    ensures
        log2(e) <= e - 1,
    decreases e,
{
    if e > 1 {
        lemma_log2_le(e / 2);
    }
}

pub proof fn lemma_log2_nonneg(e: int)
    ensures
        log2(e) >= 0,
    decreases e,
{
    if e > 1 {
        lemma_log2_nonneg(e / 2);
    }
}

/// Number of present children of a node: the set bits of a branch's mask.
pub fn amount_of_children(node: &SparseOctreeNode) -> (r: u32)
    ensures
        r as int == match *node {
            SparseOctreeNode::Leaf { .. } => 0,
            SparseOctreeNode::Branch { child_mask, .. } => popcount(child_mask as int),
        },
{
    match node {
        SparseOctreeNode::Leaf { .. } => 0,
        SparseOctreeNode::Branch { child_mask, .. } => {
            let mut m: u8 = *child_mask;
            let mut count: u32 = 0;
            let mut i: u32 = 0;
            proof {
                lemma_small_bits();
            }
            while i < 8
                invariant
                    i <= 8,
                    count <= i,
                    (m as int) < bit_value(8 - i),
                    count as int + popcount(m as int) == popcount(*child_mask as int),
                decreases 8 - i,
            {
                if m > 0 {
                    assert(popcount(m as int) == m as int % 2 + popcount(m as int / 2));
                }
                count = count + (m % 2) as u32;
                m = m / 2;
                i = i + 1;
            }
            assert(bit_value(0) == 1);
            assert(m == 0);
            count
        },
    }
}

/// `a` and `b` are the same tree of height at most `d`, node for node.
pub open spec fn same_tree(a: SparseOctreeNode, b: SparseOctreeNode, d: int) -> bool
    decreases d,
{
    match (a, b) {
        (SparseOctreeNode::Leaf { color: c1 }, SparseOctreeNode::Leaf { color: c2 }) => c1 == c2,
        (
            SparseOctreeNode::Branch { child_mask: m1, children: ch1 },
            SparseOctreeNode::Branch { child_mask: m2, children: ch2 },
        ) => {
            &&& d > 0
            &&& m1 == m2
            &&& ch1@.len() == ch2@.len()
            &&& forall|j: int|
                0 <= j < ch1@.len() ==> same_tree(#[trigger] ch1@[j], ch2@[j], d - 1)
        },
        _ => false,
    }
}

pub proof fn lemma_same_tree_mono(a: SparseOctreeNode, b: SparseOctreeNode, d: int, d2: int)
    requires
        same_tree(a, b, d),
        d <= d2,
    ensures
        same_tree(a, b, d2),
    decreases d,
{
    if let (
        SparseOctreeNode::Branch { children: ch1, .. },
        SparseOctreeNode::Branch { children: ch2, .. },
    ) = (a, b) {
        assert forall|j: int| 0 <= j < ch1@.len() implies same_tree(
            #[trigger] ch1@[j],
            ch2@[j],
            d2 - 1,
        ) by {
            lemma_same_tree_mono(ch1@[j], ch2@[j], d - 1, d2 - 1);
        }
    }
}

pub proof fn lemma_wf_mono(n: SparseOctreeNode, d: int, d2: int)
    requires
        wf_node(n, d),
        d <= d2,
    ensures
        wf_node(n, d2),
    decreases d,
{
    if let SparseOctreeNode::Branch { children, .. } = n {
        assert forall|j: int| 0 <= j < children@.len() implies wf_node(
            #[trigger] children@[j],
            d2 - 1,
        ) by {
            lemma_wf_mono(children@[j], d - 1, d2 - 1);
        }
    }
}

/// The octree of a box is unique: two trees that `subtree_ok` accepts for the same voxels
/// and box are the same tree.
pub proof fn lemma_subtree_unique(
    n1: SparseOctreeNode,
    n2: SparseOctreeNode,
    cubes: Seq<Cube>,
    ox: int,
    oy: int,
    oz: int,
    e: int,
)
    requires
        power_of_two(e),
        subtree_ok(n1, cubes, ox, oy, oz, e),
        subtree_ok(n2, cubes, ox, oy, oz, e),
    ensures
        same_tree(n1, n2, log2(e)),
    decreases e,
{
    if e > 1 {
        lemma_log2_nonneg(e / 2);
        if let (
            SparseOctreeNode::Branch { children: ch1, .. },
            SparseOctreeNode::Branch { children: ch2, .. },
        ) = (n1, n2) {
            let p = present_octants(cubes, ox, oy, oz, e, 8);
            assert forall|j: int| 0 <= j < ch1@.len() implies same_tree(
                #[trigger] ch1@[j],
                ch2@[j],
                log2(e) - 1,
            ) by {
                lemma_subtree_unique(
                    ch1@[j],
                    ch2@[j],
                    cubes,
                    octant_x(ox, e, p[j]),
                    octant_y(oy, e, p[j]),
                    octant_z(oz, e, p[j]),
                    e / 2,
                );
            }
        }
    }
}

} // verus!
