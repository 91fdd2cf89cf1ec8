use tilegrid::compose::{build_row, crop_to_markers, tile_images};
use tilegrid::geometry::Rect;
use tilegrid::image::{image_from_rows, Image};
use tilegrid::TileError;

fn rect(x: usize, y: usize, w: usize, h: usize) -> Rect {
    Rect { x, y, width: w, height: h }
}

fn solid(w: usize, h: usize, ch: usize, v: u8) -> Image {
    let rows = vec![vec![v; w * ch]; h];
    Image { width: w, height: h, channels: ch, rows }
}

fn corner_markers() -> (Rect, Rect, Rect, Rect) {
    (
        rect(20, 20, 10, 10),
        rect(70, 20, 10, 10),
        rect(20, 70, 10, 10),
        rect(70, 70, 10, 10),
    )
}

#[test]
fn image_from_rows_validates() {
    let ok = image_from_rows(2, 1, vec![vec![1, 2], vec![3, 4]]);
    let img = ok.unwrap();
    assert_eq!(img.width, 2);
    assert_eq!(img.height, 2);
    let bad = image_from_rows(2, 1, vec![vec![1, 2, 3]]);
    assert_eq!(bad.unwrap_err(), TileError::MalformedImage);
    let bad_ch = image_from_rows(2, 0, vec![vec![]]);
    assert_eq!(bad_ch.unwrap_err(), TileError::MalformedImage);
}

#[test]
fn crop_to_markers_takes_union_box() {
    let src = solid(100, 100, 1, 5);
    let (tl, tr, bl, br) = corner_markers();
    let out = crop_to_markers(&src, &tl, &tr, &bl, &br).unwrap();
    assert_eq!(out.width, 60);
    assert_eq!(out.height, 60);
    assert!(out.rows.iter().all(|r| r.iter().all(|&b| b == 5)));
}

#[test]
fn crop_to_markers_rejects_out_of_bounds() {
    let src = solid(50, 50, 1, 0);
    let (tl, tr, bl, br) = corner_markers();
    let res = crop_to_markers(&src, &tl, &tr, &bl, &br);
    assert_eq!(res.unwrap_err(), TileError::RegionOutOfBounds);
}

#[test]
fn crop_to_markers_rejects_empty_region() {
    let src = solid(50, 50, 1, 0);
    let m = rect(10, 10, 0, 0);
    let res = crop_to_markers(&src, &m, &m, &m, &m);
    assert_eq!(res.unwrap_err(), TileError::RegionOutOfBounds);
}

#[test]
fn build_row_rescales_to_tallest() {
    let a = solid(60, 30, 1, 1);
    let b = solid(30, 60, 1, 2);
    let tiles = vec![a, b];
    let row = build_row(&tiles, 0, 2);
    assert_eq!(row.height, 60);
    assert_eq!(row.width, 120 + 30);
    assert!(row.rows[0][..120].iter().all(|&v| v == 1));
    assert!(row.rows[0][120..].iter().all(|&v| v == 2));
}

#[test]
fn single_image_collapses_to_itself() {
    let rows: Vec<Vec<u8>> = vec![vec![1, 2, 3], vec![4, 5, 6]];
    let img = Image { width: 3, height: 2, channels: 1, rows: rows.clone() };
    let out = tile_images(&vec![img]).unwrap();
    assert_eq!(out.width, 3);
    assert_eq!(out.height, 2);
    assert_eq!(out.rows, rows);
}

#[test]
fn four_images_make_two_by_two_grid() {
    let (tl, tr, bl, br) = corner_markers();
    let mut crops = Vec::new();
    for v in 1..=4u8 {
        let src = solid(100, 100, 1, v);
        let c = crop_to_markers(&src, &tl, &tr, &bl, &br).unwrap();
        assert_eq!((c.width, c.height), (60, 60));
        crops.push(c);
    }
    let out = tile_images(&crops).unwrap();
    assert_eq!(out.width, 120);
    assert_eq!(out.height, 120);
    for r in 0..120 {
        for c in 0..120 {
            let expected = match (r < 60, c < 60) {
                (true, true) => 1,
                (true, false) => 2,
                (false, true) => 3,
                (false, false) => 4,
            };
            assert_eq!(out.rows[r][c], expected, "pixel ({}, {})", r, c);
        }
    }
}

#[test]
fn three_images_fill_one_row() {
    let a = solid(4, 2, 1, 1);
    let b = solid(4, 2, 1, 2);
    let c = solid(2, 2, 1, 3);
    let out = tile_images(&vec![a, b, c]).unwrap();
    assert_eq!(out.width, 10);
    assert_eq!(out.height, 2);
    assert_eq!(out.rows[0], vec![1, 1, 1, 1, 2, 2, 2, 2, 3, 3]);
}

#[test]
fn five_images_use_three_columns() {
    let imgs: Vec<Image> = (1..=5u8).map(|v| solid(2, 2, 1, v)).collect();
    let out = tile_images(&imgs).unwrap();
    assert_eq!(out.width, 6);
    assert_eq!(out.height, 4);
    assert_eq!(out.rows[0], vec![1, 1, 2, 2, 3, 3]);
    assert_eq!(out.rows[2], vec![4, 4, 5, 5, 0, 0]);
}

#[test]
fn empty_input_is_rejected() {
    let res = tile_images(&Vec::new());
    assert_eq!(res.unwrap_err(), TileError::EmptyInput);
}

#[test]
fn malformed_image_is_rejected() {
    let bad = Image { width: 2, height: 1, channels: 1, rows: vec![vec![1, 2, 3]] };
    let res = tile_images(&vec![bad]);
    assert_eq!(res.unwrap_err(), TileError::MalformedImage);
}

#[test]
fn zero_sized_image_is_rejected() {
    let empty = Image { width: 0, height: 0, channels: 1, rows: Vec::new() };
    let res = tile_images(&vec![empty]);
    assert_eq!(res.unwrap_err(), TileError::EmptyImage);
}

#[test]
fn channel_mismatch_is_rejected() {
    let a = solid(2, 2, 1, 1);
    let b = solid(2, 2, 3, 2);
    let res = tile_images(&vec![a, b]);
    assert_eq!(res.unwrap_err(), TileError::ChannelMismatch);
}
