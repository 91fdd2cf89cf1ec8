use tilegrid::geometry::{union_rect, Rect};
use tilegrid::image::{hconcat, vconcat, Image};
use tilegrid::layout::{num_columns, scaled_width};

fn rect(x: usize, y: usize, w: usize, h: usize) -> Rect {
    Rect { x, y, width: w, height: h }
}

fn solid(w: usize, h: usize, ch: usize, v: u8) -> Image {
    let rows = vec![vec![v; w * ch]; h];
    Image { width: w, height: h, channels: ch, rows }
}

#[test]
fn column_count_breakpoints() {
    assert_eq!(num_columns(4), 2);
    assert_eq!(num_columns(5), 3);
    assert_eq!(num_columns(6), 3);
    assert_eq!(num_columns(7), 4);
    assert_eq!(num_columns(8), 6);
    assert_eq!(num_columns(12), 6);
    assert_eq!(num_columns(1), 6);
}

#[test]
fn scaled_width_formula() {
    assert_eq!(scaled_width(100, 50, 100), 200);
    assert_eq!(scaled_width(3, 2, 3), 4);
    assert_eq!(scaled_width(60, 60, 60), 60);
    assert_eq!(scaled_width(7, 3, 5), 11);
}

#[test]
fn union_rect_is_exact_union() {
    let tl = rect(20, 20, 10, 10);
    let tr = rect(70, 22, 10, 8);
    let bl = rect(21, 70, 9, 10);
    let br = rect(70, 70, 10, 10);
    let u = union_rect(&tl, &tr, &bl, &br);
    assert_eq!(u.x, 20);
    assert_eq!(u.y, 20);
    assert_eq!(u.x + u.width, 80);
    assert_eq!(u.y + u.height, 80);
}

#[test]
fn union_rect_ignores_corner_roles() {
    let a = rect(50, 50, 5, 5);
    let b = rect(10, 40, 5, 5);
    let c = rect(30, 10, 5, 5);
    let d = rect(40, 30, 5, 5);
    let u = union_rect(&a, &b, &c, &d);
    assert_eq!((u.x, u.y), (10, 10));
    assert_eq!((u.width, u.height), (45, 45));
}

#[test]
fn crop_extracts_subrectangle() {
    let rows: Vec<Vec<u8>> = (0..4u8).map(|r| (0..4u8).map(|c| 4 * r + c).collect()).collect();
    let img = Image { width: 4, height: 4, channels: 1, rows };
    let out = img.crop(&rect(1, 1, 2, 2));
    assert_eq!(out.width, 2);
    assert_eq!(out.height, 2);
    assert_eq!(out.rows, vec![vec![5, 6], vec![9, 10]]);
}

#[test]
fn pad_appends_blank_pixels() {
    let img = Image { width: 2, height: 1, channels: 1, rows: vec![vec![7, 9]] };
    let out = img.pad_to_width(4);
    assert_eq!(out.width, 4);
    assert_eq!(out.rows, vec![vec![7, 9, 0, 0]]);
}

#[test]
fn pad_to_own_width_is_noop() {
    let img = Image { width: 3, height: 2, channels: 2, rows: vec![vec![1, 2, 3, 4, 5, 6], vec![
        7, 8, 9, 10, 11, 12,
    ]] };
    let out = img.pad_to_width(3);
    assert_eq!(out.rows, img.rows);
    assert_eq!(out.width, img.width);
    assert_eq!(out.height, img.height);
}

#[test]
fn hconcat_places_rows_side_by_side() {
    let a = Image { width: 1, height: 2, channels: 1, rows: vec![vec![1], vec![2]] };
    let b = Image { width: 2, height: 2, channels: 1, rows: vec![vec![3, 4], vec![5, 6]] };
    let out = hconcat(&vec![a, b]);
    assert_eq!(out.width, 3);
    assert_eq!(out.height, 2);
    assert_eq!(out.rows, vec![vec![1, 3, 4], vec![2, 5, 6]]);
}

#[test]
fn vconcat_stacks_rows() {
    let a = Image { width: 2, height: 1, channels: 1, rows: vec![vec![1, 2]] };
    let b = Image { width: 2, height: 2, channels: 1, rows: vec![vec![3, 4], vec![5, 6]] };
    let out = vconcat(&vec![a, b]);
    assert_eq!(out.width, 2);
    assert_eq!(out.height, 3);
    assert_eq!(out.rows, vec![vec![1, 2], vec![3, 4], vec![5, 6]]);
}

#[test]
fn resize_preserves_aspect_ratio() {
    let img = solid(100, 50, 3, 9);
    let out = img.resize_to_height(100);
    assert_eq!(out.height, 100);
    assert_eq!(out.width, 200);
    assert_eq!(out.channels, 3);
}

#[test]
fn resize_nearest_neighbour_pixels() {
    let img = Image { width: 2, height: 1, channels: 1, rows: vec![vec![10, 20]] };
    let out = img.resize_to_height(2);
    assert_eq!(out.height, 2);
    assert_eq!(out.width, 4);
    assert_eq!(out.rows, vec![vec![10, 10, 20, 20], vec![10, 10, 20, 20]]);
}

#[test]
fn resize_to_own_height_is_noop() {
    let img = Image { width: 3, height: 2, channels: 1, rows: vec![vec![1, 2, 3], vec![4, 5, 6]] };
    let out = img.resize_to_height(2);
    assert_eq!(out.rows, img.rows);
    assert_eq!(out.width, 3);
}
