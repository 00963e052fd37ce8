use voxel_octree::chunk::{PTObject, CHUNK_SIZE};
use voxel_octree::cube::Cube;
use voxel_octree::flatten::{flatten, GpuOctNode};
use voxel_octree::octree::{construct_octree, SparseOctreeNode};

fn voxel(x: i32, y: i32, z: i32, color: u32) -> Cube {
    Cube::new_cube_at(&[x, y, z], color)
}

fn triple(n: &GpuOctNode) -> (u32, u8, u32) {
    (n.child_index, n.child_mask, n.color)
}

fn terrain() -> (Vec<i64>, Vec<u32>) {
    let n = (CHUNK_SIZE * CHUNK_SIZE) as usize;
    let heights: Vec<i64> = (0..n).map(|i| ((i * 7 + i / 64) % 9) as i64 - 1).collect();
    let colors: Vec<u32> = (0..n).map(|i| (i as u32) * 3 + 1).collect();
    (heights, colors)
}

/// Checks the mask/child-count and forward-index properties on an array whose root
/// record is at index 0.
fn check_layout(out: &[GpuOctNode]) {
    for (i, rec) in out.iter().enumerate() {
        if rec.child_mask != 0 {
            let c = rec.child_index as usize;
            assert!(c > i);
            assert!(c + rec.child_mask.count_ones() as usize <= out.len());
        } else {
            assert_eq!(rec.child_index, 0);
        }
    }
}

#[test]
fn leaf_root_flattens_to_one_record() {
    let root = SparseOctreeNode::Leaf { color: 42 };
    let out = flatten(&root, 1).unwrap();
    assert_eq!(out.len(), 1);
    assert_eq!(triple(&out[0]), (0, 0, 42));
}

#[test]
fn breadth_first_order_and_child_indices() {
    let cubes = vec![voxel(3, 0, 0, 5), voxel(0, 0, 3, 6), voxel(0, 0, 0, 4)];
    let tree = construct_octree(&cubes, [[0, 0, 0], [4, 4, 4]]).unwrap();
    let out = flatten(&tree.root, 1).unwrap();
    let got: Vec<(u32, u8, u32)> = out.iter().map(triple).collect();
    assert_eq!(
        got,
        vec![
            (1, 0b0001_0011, 0),
            (4, 0b0000_0001, 0),
            (5, 0b0000_0010, 0),
            (6, 0b0001_0000, 0),
            (0, 0, 4),
            (0, 0, 5),
            (0, 0, 6),
        ]
    );
    check_layout(&out);
}

#[test]
fn child_indices_offset_by_buffer_position() {
    let cubes = vec![voxel(0, 0, 0, 4), voxel(1, 1, 1, 8)];
    let tree = construct_octree(&cubes, [[0, 0, 0], [2, 2, 2]]).unwrap();
    let out = flatten(&tree.root, 101).unwrap();
    let got: Vec<(u32, u8, u32)> = out.iter().map(triple).collect();
    assert_eq!(got, vec![(101, 0b1000_0001, 0), (0, 0, 4), (0, 0, 8)]);
}

#[test]
fn child_index_overflow_is_reported() {
    let cubes = vec![voxel(0, 0, 0, 4), voxel(1, 1, 1, 8)];
    let tree = construct_octree(&cubes, [[0, 0, 0], [2, 2, 2]]).unwrap();
    assert!(flatten(&tree.root, u32::MAX).is_none());
    assert!(flatten(&tree.root, u32::MAX - 2).is_some());
    let leaf = SparseOctreeNode::Leaf { color: 1 };
    assert!(flatten(&leaf, u32::MAX).is_some());
}

#[test]
fn chunk_layout_is_consistent() {
    let (heights, colors) = terrain();
    let chunk = PTObject::new(0, 0, &heights, &colors);
    let mut start: u32 = 1;
    let out = chunk.get_octree_array(&mut start).unwrap();
    assert_eq!(start as usize, out.len());
    assert!(out.len() > 4096);
    check_layout(&out);
    let leaves: Vec<u32> = out.iter().filter(|r| r.child_mask == 0).map(|r| r.color).collect();
    assert_eq!(leaves.len(), 4096);
    let mut sorted = leaves.clone();
    sorted.sort();
    let mut expected = colors.clone();
    expected.sort();
    assert_eq!(sorted, expected);
}

#[test]
fn flattening_is_deterministic() {
    let (heights, colors) = terrain();
    let a = PTObject::new(-3, 5, &heights, &colors);
    let b = PTObject::new(-3, 5, &heights, &colors);
    let mut sa: u32 = 1;
    let mut sb: u32 = 1;
    let ra = a.get_octree_array(&mut sa).unwrap();
    let rb = b.get_octree_array(&mut sb).unwrap();
    assert_eq!(ra, rb);
    assert_eq!(sa, sb);
}

#[test]
fn starting_index_is_the_roots_first_child() {
    let (heights, colors) = terrain();
    let a = PTObject::new(0, 0, &heights, &colors);
    let mut start: u32 = 10;
    let out = a.get_octree_array(&mut start).unwrap();
    assert_eq!(out[0].child_index, 10);
    assert_eq!(start as usize, 10 + out.len() - 1);
}

#[test]
fn branch_root_with_one_leaf_stays_inside_the_array() {
    let cubes = vec![voxel(1, 0, 0, 9)];
    let octree = construct_octree(&cubes, [[0, 0, 0], [2, 2, 2]]);
    let chunk = PTObject { chunk_x: 0, chunk_y: 0, cubes, octree };
    let mut start: u32 = 1;
    let out = chunk.get_octree_array(&mut start).unwrap();
    let got: Vec<(u32, u8, u32)> = out.iter().map(triple).collect();
    assert_eq!(got, vec![(1, 0b0000_0010, 0), (0, 0, 9)]);
    assert_eq!(start, 2);
    check_layout(&out);
}

#[test]
fn starting_index_at_the_limit_is_refused() {
    let (heights, colors) = terrain();
    let a = PTObject::new(0, 0, &heights, &colors);
    let mut start: u32 = u32::MAX;
    assert!(a.get_octree_array(&mut start).is_none());
    assert_eq!(start, u32::MAX);
}

#[test]
fn chunk_without_octree_gives_no_records() {
    let empty = PTObject { chunk_x: 0, chunk_y: 0, cubes: vec![], octree: None };
    let mut start: u32 = 17;
    let out = empty.get_octree_array(&mut start).unwrap();
    assert!(out.is_empty());
    assert_eq!(start, 17);
}
