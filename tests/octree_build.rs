use voxel_octree::cube::Cube;
use voxel_octree::octree::{amount_of_children, construct_octree, SparseOctreeNode};

fn voxel(x: i32, y: i32, z: i32, color: u32) -> Cube {
    Cube::new_cube_at(&[x, y, z], color)
}

fn branch_parts(n: &SparseOctreeNode) -> (u8, &Vec<SparseOctreeNode>) {
    match n {
        SparseOctreeNode::Branch { child_mask, children } => (*child_mask, children),
        SparseOctreeNode::Leaf { .. } => panic!("expected a branch"),
    }
}

fn leaf_color(n: &SparseOctreeNode) -> u32 {
    match n {
        SparseOctreeNode::Leaf { color } => *color,
        SparseOctreeNode::Branch { .. } => panic!("expected a leaf"),
    }
}

#[test]
fn empty_chunk_yields_no_octree() {
    let cubes: Vec<Cube> = vec![];
    assert!(construct_octree(&cubes, [[0, 0, 0], [4, 4, 4]]).is_none());
    assert!(construct_octree(&cubes, [[-64, 64, 0], [0, 128, 64]]).is_none());
}

#[test]
fn voxels_outside_bounds_are_ignored() {
    let cubes = vec![voxel(4, 0, 0, 1), voxel(-1, 0, 0, 2), voxel(0, 0, 4, 3)];
    assert!(construct_octree(&cubes, [[0, 0, 0], [4, 4, 4]]).is_none());
}

#[test]
fn single_voxel_in_unit_box_is_a_leaf() {
    let cubes = vec![voxel(7, 8, 9, 0xAABBCCDD)];
    let tree = construct_octree(&cubes, [[7, 8, 9], [8, 9, 10]]).unwrap();
    assert_eq!(tree.max_depth, 0);
    assert_eq!(tree.aabb, [[7, 8, 9], [8, 9, 10]]);
    assert_eq!(leaf_color(&tree.root), 0xAABBCCDD);
}

#[test]
fn octant_order_is_z_y_x() {
    let cubes = vec![voxel(1, 1, 1, 7), voxel(1, 0, 0, 1), voxel(0, 1, 0, 2)];
    let tree = construct_octree(&cubes, [[0, 0, 0], [2, 2, 2]]).unwrap();
    assert_eq!(tree.max_depth, 1);
    let (mask, children) = branch_parts(&tree.root);
    assert_eq!(mask, 0b1000_0110);
    assert_eq!(children.len(), 3);
    assert_eq!(leaf_color(&children[0]), 1);
    assert_eq!(leaf_color(&children[1]), 2);
    assert_eq!(leaf_color(&children[2]), 7);
}

#[test]
fn full_box_has_all_eight_children() {
    let mut cubes = vec![];
    for z in 0..2 {
        for y in 0..2 {
            for x in 0..2 {
                cubes.push(voxel(x, y, z, (z * 4 + y * 2 + x) as u32));
            }
        }
    }
    let tree = construct_octree(&cubes, [[0, 0, 0], [2, 2, 2]]).unwrap();
    let (mask, children) = branch_parts(&tree.root);
    assert_eq!(mask, 0xFF);
    for i in 0..8 {
        assert_eq!(leaf_color(&children[i]), i as u32);
    }
}

#[test]
fn deeper_tree_prunes_empty_octants() {
    let cubes = vec![voxel(3, 0, 0, 5), voxel(0, 0, 3, 6)];
    let tree = construct_octree(&cubes, [[0, 0, 0], [4, 4, 4]]).unwrap();
    assert_eq!(tree.max_depth, 2);
    let (mask, children) = branch_parts(&tree.root);
    assert_eq!(mask, 0b0001_0010);
    assert_eq!(children.len(), 2);
    let (m1, c1) = branch_parts(&children[0]);
    assert_eq!(m1, 0b0000_0010);
    assert_eq!(leaf_color(&c1[0]), 5);
    let (m2, c2) = branch_parts(&children[1]);
    assert_eq!(m2, 0b0001_0000);
    assert_eq!(leaf_color(&c2[0]), 6);
}

#[test]
fn first_cube_at_a_corner_gives_the_colour() {
    let cubes = vec![voxel(0, 0, 0, 11), voxel(0, 0, 0, 22)];
    let tree = construct_octree(&cubes, [[0, 0, 0], [1, 1, 1]]).unwrap();
    assert_eq!(leaf_color(&tree.root), 11);
}

#[test]
fn negative_bounds_are_supported() {
    let cubes = vec![voxel(-1, -1, -1, 9)];
    let tree = construct_octree(&cubes, [[-2, -2, -2], [0, 0, 0]]).unwrap();
    let (mask, children) = branch_parts(&tree.root);
    assert_eq!(mask, 0b1000_0000);
    assert_eq!(leaf_color(&children[0]), 9);
}

#[test]
fn amount_of_children_counts_mask_bits() {
    let leaf = SparseOctreeNode::Leaf { color: 3 };
    assert_eq!(amount_of_children(&leaf), 0);
    let b = SparseOctreeNode::Branch {
        child_mask: 0b1011_0001,
        children: vec![],
    };
    assert_eq!(amount_of_children(&b), 4);
    let full = SparseOctreeNode::Branch { child_mask: 0xFF, children: vec![] };
    assert_eq!(amount_of_children(&full), 8);
}

#[test]
fn deep_box_is_built_to_full_depth() {
    let cubes = vec![voxel(0, 0, 0, 1), voxel(127, 127, 127, 2)];
    let tree = construct_octree(&cubes, [[0, 0, 0], [128, 128, 128]]).unwrap();
    assert_eq!(tree.max_depth, 7);
    let (root_mask, root_children) = branch_parts(&tree.root);
    assert_eq!(root_mask, 0b1000_0001);
    assert_eq!(root_children.len(), 2);
    let mut node = &root_children[1];
    for _ in 0..6 {
        let (mask, children) = branch_parts(node);
        assert_eq!(mask, 0b1000_0000);
        assert_eq!(children.len(), 1);
        node = &children[0];
    }
    assert_eq!(leaf_color(node), 2);
    let out = voxel_octree::flatten::flatten(&tree.root, 1).unwrap();
    assert_eq!(out.len(), 1 + 2 * 7);
}

#[test]
fn boxes_at_the_ends_of_the_coordinate_range() {
    let hi = i32::MAX;
    let cubes = vec![voxel(hi - 1, hi - 1, hi - 1, 3), voxel(i32::MIN, i32::MIN, i32::MIN, 4)];
    let top = construct_octree(&cubes, [[hi - 1, hi - 1, hi - 1], [hi, hi, hi]]).unwrap();
    assert_eq!(leaf_color(&top.root), 3);
    let lo = i32::MIN;
    let bottom = construct_octree(&cubes, [[lo, lo, lo], [lo + 2, lo + 2, lo + 2]]).unwrap();
    let (mask, children) = branch_parts(&bottom.root);
    assert_eq!(mask, 1);
    assert_eq!(leaf_color(&children[0]), 4);
}
