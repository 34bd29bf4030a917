use hyper_ray_tracer::tiles::{TileGrid, TileRect};

fn count_covering(grid: &TileGrid, px: u32, py: u32) -> usize {
    let mut n = 0;
    for t in 0..grid.tile_count() {
        let r = grid.tile(t);
        if r.x <= px && px < r.x + r.width && r.y <= py && py < r.y + r.height {
            n += 1;
        }
    }
    n
}

fn assert_partition(width: u32, height: u32, tile_size: u32) {
    let grid = TileGrid::new(width, height, tile_size).unwrap();
    let mut area: u64 = 0;
    for t in 0..grid.tile_count() {
        let r = grid.tile(t);
        assert!(r.width > 0 && r.height > 0);
        assert!(r.x + r.width <= width && r.y + r.height <= height);
        area += r.pixel_count();
    }
    assert_eq!(area, width as u64 * height as u64);
    for py in 0..height {
        for px in 0..width {
            assert_eq!(count_covering(&grid, px, py), 1, "pixel ({}, {})", px, py);
        }
    }
}

#[test]
fn default_frame_has_full_tiles() {
    let grid = TileGrid::new(1280, 720, 80).unwrap();
    assert_eq!(grid.columns(), 16);
    assert_eq!(grid.rows(), 9);
    assert_eq!(grid.tile_count(), 144);
    assert_eq!(grid.tile(15), TileRect { x: 1200, y: 0, width: 80, height: 80 });
    assert_eq!(grid.tile(143), TileRect { x: 1200, y: 640, width: 80, height: 80 });
}

#[test]
fn last_column_and_row_hold_the_remainder() {
    let grid = TileGrid::new(100, 50, 40).unwrap();
    assert_eq!(grid.columns(), 3);
    assert_eq!(grid.rows(), 2);
    assert_eq!(grid.tile(0), TileRect { x: 0, y: 0, width: 40, height: 40 });
    assert_eq!(grid.tile(2), TileRect { x: 80, y: 0, width: 20, height: 40 });
    assert_eq!(grid.tile(4), TileRect { x: 40, y: 40, width: 40, height: 10 });
    assert_eq!(grid.tile(5), TileRect { x: 80, y: 40, width: 20, height: 10 });
}

#[test]
fn tiles_partition_divisible_frame() {
    assert_partition(64, 32, 16);
}

#[test]
fn tiles_partition_non_divisible_frame() {
    assert_partition(64, 36, 10);
    assert_partition(7, 5, 3);
}

#[test]
fn tile_larger_than_frame() {
    let grid = TileGrid::new(30, 20, 80).unwrap();
    assert_eq!(grid.tile_count(), 1);
    assert_eq!(grid.tile(0), TileRect { x: 0, y: 0, width: 30, height: 20 });
}

#[test]
fn zero_tile_size_is_refused() {
    assert!(TileGrid::new(1280, 720, 0).is_none());
}

#[test]
fn empty_frame_has_no_tiles() {
    let grid = TileGrid::new(0, 720, 80).unwrap();
    assert_eq!(grid.columns(), 0);
    assert_eq!(grid.tile_count(), 0);
}

#[test]
fn largest_frame_counts_tiles_without_overflow() {
    let grid = TileGrid::new(u32::MAX, u32::MAX, 1).unwrap();
    assert_eq!(grid.tile_count(), u32::MAX as u64 * u32::MAX as u64);
    let last = grid.tile(grid.tile_count() - 1);
    assert_eq!(last, TileRect { x: u32::MAX - 1, y: u32::MAX - 1, width: 1, height: 1 });
}

#[test]
fn pixels_of_a_tile_run_row_by_row() {
    let r = TileRect { x: 80, y: 40, width: 20, height: 10 };
    assert_eq!(r.pixel_count(), 200);
    assert_eq!(r.pixel(0), (80, 40));
    assert_eq!(r.pixel(19), (99, 40));
    assert_eq!(r.pixel(21), (81, 41));
    assert_eq!(r.pixel(199), (99, 49));
}
