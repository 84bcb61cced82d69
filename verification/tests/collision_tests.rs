use bevy_platformer::collision::collision_rects;
use bevy_platformer::plates::{row_plates, Plate};
use bevy_platformer::rects::{merge_plate_rows, Rect};
use bevy_platformer::tiles::{CollisionTiles, GridCoords};

fn tiles_from(rows: &[&str]) -> CollisionTiles {
    // rows[0] is grid row 0 (the bottom row)
    let mut t = CollisionTiles::new();
    for (y, row) in rows.iter().enumerate() {
        for (x, ch) in row.chars().enumerate() {
            if ch == '#' {
                t.insert(GridCoords::new(x as i32, y as i32));
            }
        }
    }
    t
}

fn plate(left: i32, right: i32) -> Plate {
    Plate { left, right }
}

fn rect(left: i32, right: i32, bottom: i32, top: i32) -> Rect {
    Rect { left, right, top, bottom }
}

#[test]
fn tiles_insert_and_contains() {
    let mut t = CollisionTiles::new();
    assert!(!t.contains(GridCoords::new(0, 0)));
    t.insert(GridCoords::new(3, -7));
    t.insert(GridCoords::new(-2147483648, 2147483647));
    t.insert(GridCoords::new(3, -7));
    assert!(t.contains(GridCoords::new(3, -7)));
    assert!(t.contains_xy(-2147483648, 2147483647));
    assert!(!t.contains_xy(-7, 3));
    assert!(!t.contains_xy(2147483647, -2147483648));
}

#[test]
fn row_plates_finds_maximal_runs() {
    let t = tiles_from(&["##.###..#."]);
    assert_eq!(row_plates(&t, 0, 10), vec![plate(0, 1), plate(3, 5), plate(8, 8)]);
}

#[test]
fn row_plates_drops_run_reaching_past_width() {
    // a tile at column `width` keeps the last run open, so it is not listed
    let t = tiles_from(&["#..#####"]);
    assert_eq!(row_plates(&t, 0, 5), vec![plate(0, 0)]);
    // a run that ends exactly at the last column is closed by column `width`
    assert_eq!(row_plates(&t, 0, 8), vec![plate(0, 0), plate(3, 7)]);
}

#[test]
fn row_plates_empty_and_degenerate_widths() {
    let t = tiles_from(&["####"]);
    assert_eq!(row_plates(&t, 0, 0), vec![]);
    assert_eq!(row_plates(&t, 0, -3), vec![]);
    assert_eq!(row_plates(&t, 1, 4), vec![]);
}

#[test]
fn merge_stacks_identical_plates() {
    let rows = vec![
        vec![plate(0, 2)],
        vec![plate(0, 2), plate(5, 6)],
        vec![plate(0, 2), plate(5, 6)],
        vec![plate(5, 6)],
    ];
    let rects = merge_plate_rows(&rows);
    assert_eq!(rects, vec![rect(0, 2, 0, 2), rect(5, 6, 1, 3)]);
}

#[test]
fn merge_breaks_on_different_plates() {
    let rows = vec![vec![plate(0, 3)], vec![plate(0, 2)], vec![plate(0, 3)]];
    let rects = merge_plate_rows(&rows);
    assert_eq!(rects, vec![rect(0, 3, 0, 0), rect(0, 2, 1, 1), rect(0, 3, 2, 2)]);
}

#[test]
fn merge_of_no_rows() {
    let rows: Vec<Vec<Plate>> = vec![];
    assert_eq!(merge_plate_rows(&rows), vec![]);
    let rows: Vec<Vec<Plate>> = vec![vec![], vec![]];
    assert_eq!(merge_plate_rows(&rows), vec![]);
}

#[test]
fn merge_closes_rects_in_row_order() {
    let rows = vec![vec![plate(0, 0), plate(2, 2), plate(4, 4)], vec![plate(2, 2)]];
    let rects = merge_plate_rows(&rows);
    assert_eq!(rects, vec![rect(0, 0, 0, 0), rect(4, 4, 0, 0), rect(2, 2, 0, 1)]);
}

#[test]
fn collision_rects_of_a_small_level() {
    // bottom row first
    let t = tiles_from(&[
        "########",
        "#......#",
        "#..##..#",
        "#..##..#",
    ]);
    let rects = collision_rects(&t, 8, 4);
    assert_eq!(
        rects,
        vec![rect(0, 7, 0, 0), rect(0, 0, 1, 3), rect(3, 4, 2, 3), rect(7, 7, 1, 3)]
    );
}

#[test]
fn collision_rects_of_an_empty_level() {
    let t = CollisionTiles::new();
    assert_eq!(collision_rects(&t, 10, 10), vec![]);
    let t = tiles_from(&["###"]);
    assert_eq!(collision_rects(&t, 3, 0), vec![]);
    assert_eq!(collision_rects(&t, 3, -1), vec![]);
}

fn pattern(x: i32, y: i32) -> bool {
    let v = (x * 7 + y * 13 + (x * y) % 5) % 11;
    v < 6
}

#[test]
fn rects_cover_every_tile_once() {
    let (w, h) = (23, 17);
    let mut t = CollisionTiles::new();
    for y in 0..h {
        for x in 0..w {
            if pattern(x, y) {
                t.insert(GridCoords::new(x, y));
            }
        }
    }
    let rects = collision_rects(&t, w, h);
    for y in 0..h {
        for x in 0..w {
            let n = rects
                .iter()
                .filter(|r| r.left <= x && x <= r.right && r.bottom <= y && y <= r.top)
                .count();
            assert_eq!(n, if pattern(x, y) { 1 } else { 0 }, "cell ({x}, {y})");
        }
    }
    for r in &rects {
        assert!(0 <= r.left && r.left <= r.right && r.right < w);
        assert!(0 <= r.bottom && r.bottom <= r.top && r.top < h);
    }
}

#[test]
fn rects_are_stacked_fully() {
    let (w, h) = (19, 21);
    let mut t = CollisionTiles::new();
    for y in 0..h {
        for x in 0..w {
            if pattern(x, y / 3) {
                t.insert(GridCoords::new(x, y));
            }
        }
    }
    let rects = collision_rects(&t, w, h);
    for a in &rects {
        for b in &rects {
            if a.left == b.left && a.right == b.right {
                assert_ne!(a.top + 1, b.bottom);
            }
        }
    }
}

#[test]
fn tiles_outside_the_grid_are_ignored() {
    let t = tiles_from(&["..##", "####"]);
    // tiles left of column 0 or above the last row play no part
    let mut t2 = tiles_from(&["..#."]);
    t2.insert(GridCoords::new(-1, 0));
    t2.insert(GridCoords::new(1, 5));
    assert_eq!(collision_rects(&t2, 3, 1), vec![rect(2, 2, 0, 0)]);
    // a run running on into column `width` gets no rectangle
    assert_eq!(collision_rects(&t, 3, 1), vec![]);
}

#[test]
fn rect_geometry() {
    let r = rect(2, 5, 1, 1);
    assert_eq!(r.columns(), 4);
    assert_eq!(r.rows(), 1);
    assert_eq!(r.doubled_center_column(), 8);
    assert_eq!(r.doubled_center_row(), 3);
    let mut r = r;
    r.raise_top();
    assert_eq!(r, rect(2, 5, 1, 2));
}
