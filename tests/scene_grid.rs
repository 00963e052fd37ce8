use voxel_octree::chunk::{PTObject, CHUNK_SIZE};
use voxel_octree::color::{background_color, column_color, pack_rgba, percent_color, random_voxel_color};
use voxel_octree::cube::{Cube, Ray, RAY_UNITS_PER_VOXEL};
use voxel_octree::render_image::RenderImage;
use voxel_octree::scene::{chunk_xy_to_grid_location, Scene, GRID_SIZE};

const U: i64 = RAY_UNITS_PER_VOXEL;

fn ray(origin: [i64; 3], velocity: [i64; 3]) -> Ray {
    Ray { origin, velocity, distance: None, color: 0 }
}

fn flat_chunk(cx: i32, cy: i32, height: i64, color: u32) -> PTObject {
    let n = (CHUNK_SIZE * CHUNK_SIZE) as usize;
    PTObject::new(cx, cy, &vec![height; n], &vec![color; n])
}

#[test]
fn nearest_of_two_cubes_wins() {
    let mut scene = Scene::empty_scene();
    scene.cubes.push(Cube { min: [7, -1, -1], max: [8, 1, 1], color: 70 });
    scene.cubes.push(Cube { min: [3, -1, -1], max: [9, 1, 1], color: 30 });
    assert_eq!(scene.get_color(ray([0, 0, 0], [U, 0, 0])), 30);
    scene.cubes.reverse();
    assert_eq!(scene.get_color(ray([0, 0, 0], [U, 0, 0])), 30);
    let mut r = ray([0, 0, 0], [U, 0, 0]);
    for c in &scene.cubes {
        c.intersect_ray(&mut r);
    }
    let d = r.distance.unwrap();
    assert_eq!(d.num, 3 * d.den);
}

#[test]
fn ray_that_hits_nothing_sees_background() {
    let mut scene = Scene::empty_scene();
    scene.cubes.push(Cube { min: [7, -1, -1], max: [8, 1, 1], color: 70 });
    assert_eq!(scene.get_color(ray([0, 0, 0], [-U, 0, 0])), background_color());
    assert_eq!(scene.get_color(ray([0, 0, 0], [0, 0, 0])), background_color());
}

#[test]
fn grid_location_is_centred() {
    assert_eq!(chunk_xy_to_grid_location(&16, &0, &0), 136);
    assert_eq!(chunk_xy_to_grid_location(&16, &-1, &-1), 119);
    assert_eq!(chunk_xy_to_grid_location(&16, &-8, &-8), 0);
    assert_eq!(chunk_xy_to_grid_location(&16, &7, &7), 255);
    assert_eq!(chunk_xy_to_grid_location(&4, &1, &-2), 3);
}

#[test]
fn empty_scene_has_free_grid() {
    let scene = Scene::empty_scene();
    assert!(scene.cubes.is_empty());
    assert_eq!(scene.grid_size, GRID_SIZE);
    assert_eq!(scene.chunk_grid.len(), 256);
    assert!(scene.chunk_grid.iter().all(|b| !*b));
    assert_eq!(scene.background_rgba, 0x668099FF);
}

#[test]
fn scene_new_loads_given_chunks() {
    let chunks = vec![flat_chunk(-1, -1, 0, 1), flat_chunk(0, -1, 0, 2)];
    let scene = Scene::new(&chunks);
    assert_eq!(scene.cubes.len(), 2 * 4096);
    assert_eq!(scene.cubes[0].min, [-64, -64, 0]);
    assert_eq!(scene.cubes[4096].min, [0, -64, 0]);
    let loaded: Vec<usize> = (0..256).filter(|i| scene.chunk_grid[*i]).collect();
    assert_eq!(loaded, vec![119, 120]);
}

#[test]
fn load_and_unload_chunk() {
    let mut scene = Scene::empty_scene();
    let a = flat_chunk(0, 0, 2, 5);
    let b = flat_chunk(1, 0, 3, 6);
    scene.load_chunk(&a);
    scene.load_chunk(&b);
    assert_eq!(scene.cubes.len(), 8192);
    assert!(scene.chunk_grid[136] && scene.chunk_grid[137]);
    scene.unload_chunk(0, 0);
    assert_eq!(scene.cubes.len(), 4096);
    assert!(scene.cubes.iter().all(|c| c.min[0] >= 64 && c.min[2] == 3));
    assert!(!scene.chunk_grid[136] && scene.chunk_grid[137]);
    let down = ray([70 * U, 5 * U, 20 * U], [0, 0, -U]);
    assert_eq!(scene.get_color(down), 6);
    let gone = ray([5 * U, 5 * U, 20 * U], [0, 0, -U]);
    assert_eq!(scene.get_color(gone), background_color());
}

#[test]
fn heights_are_clamped_into_the_chunk() {
    let n = (CHUNK_SIZE * CHUNK_SIZE) as usize;
    let mut heights = vec![5i64; n];
    heights[0] = -4;
    heights[1] = 64;
    heights[2] = 1000;
    heights[3] = 63;
    let colors: Vec<u32> = (0..n as u32).collect();
    let chunk = PTObject::new(2, -3, &heights, &colors);
    assert_eq!(chunk.cubes.len(), 4096);
    assert_eq!(chunk.cubes[0].min, [128, -192, 0]);
    assert_eq!(chunk.cubes[1].min, [129, -192, 63]);
    assert_eq!(chunk.cubes[2].min[2], 63);
    assert_eq!(chunk.cubes[3].min[2], 63);
    assert_eq!(chunk.cubes[64].min, [128, -191, 5]);
    assert_eq!(chunk.cubes[4095].min, [191, -129, 5]);
    assert_eq!(chunk.cubes[4095].max, [192, -128, 6]);
    assert_eq!(chunk.cubes[100].color, 100);
}

#[test]
fn heightfield_has_one_voxel_per_column() {
    let n = (CHUNK_SIZE * CHUNK_SIZE) as usize;
    let heights: Vec<i64> = (0..n).map(|i| (i % 11) as i64).collect();
    let chunk = PTObject::new(0, 0, &heights, &vec![1; n]);
    assert_eq!(chunk.get_cubes().len(), 64 * 64);
    let mut seen = vec![false; n];
    for c in chunk.get_cubes() {
        let col = (c.min[1] * 64 + c.min[0]) as usize;
        assert!(!seen[col]);
        seen[col] = true;
        assert_eq!(c.min[2] as i64, heights[col]);
    }
    let tree = chunk.octree.as_ref().unwrap();
    assert_eq!(tree.max_depth, 6);
    assert_eq!(tree.aabb, [[0, 0, 0], [64, 64, 64]]);
}

#[test]
fn packed_colours() {
    assert_eq!(pack_rgba(1, 2, 3, 4), 0x01020304);
    assert_eq!(pack_rgba(255, 255, 255, 255), u32::MAX);
    assert_eq!(background_color(), 0x668099FF);
}

#[test]
fn random_colours_are_opaque_percentages() {
    for _ in 0..200 {
        let c = random_voxel_color();
        assert_eq!(c & 0xFF, 255);
        for shift in [8u32, 16, 24] {
            let ch = (c >> shift) & 0xFF;
            assert!(ch <= 252);
            assert!((0..100u32).any(|p| p * 255 / 100 == ch));
        }
    }
}

#[test]
fn render_image_starts_blank() {
    let img = RenderImage::new(4, 3);
    assert_eq!(img.x_size, 4);
    assert_eq!(img.y_size, 3);
    assert_eq!(img.pixels, vec![0u32; 12]);
}

#[test]
fn percent_colours_round_down() {
    assert_eq!(percent_color(0, 0, 0), 0x000000FF);
    assert_eq!(percent_color(100, 50, 1), 0xFF7F02FF);
    assert_eq!(percent_color(40, 60, 99), 0x6699FCFF);
}

#[test]
fn column_colours_follow_the_coordinates() {
    assert_eq!(column_color(0, 0), column_color(0, 0));
    // 2^31 % 100 == 48, so column (0, 0) has 48 percent red and green.
    assert_eq!(column_color(0, 0), percent_color(48, 48, 60));
    assert_eq!(column_color(2, -48), percent_color(50, 0, 60));
    assert_eq!(column_color(100, 0), column_color(0, 0));
    assert_ne!(column_color(1, 0), column_color(0, 0));
}
