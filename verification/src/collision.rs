//! The collision rectangles of a level, built from its tiles.
use vstd::prelude::*;
use crate::tiles::CollisionTiles;
use crate::plates::{Plate, is_row_plates, is_row_run, plates_of_row, row_plates};
use crate::rects::{
    Rect, column_bottom, column_rect, closed_in_row, merged_upto, merged_rects, merge_plate_rows,
    next_row, row_views, rows_without_repeats, lemma_column_bottom_bounds,
};

verus! {

/// The plates of the rows `0..height` of a level.
pub open spec fn level_plates(tiles: Set<(int, int)>, width: int, height: int) -> Seq<Seq<Plate>> {
    Seq::new(if height > 0 { height as nat } else { 0 }, |y: int| plates_of_row(tiles, y, width))
}

/// The collision rectangles of a level.
pub open spec fn level_rects(tiles: Set<(int, int)>, width: int, height: int) -> Seq<Rect> {
    merged_rects(level_plates(tiles, width, height))
}

/// Whether the rectangle covers grid cell `(x, y)`.
pub open spec fn covers(r: Rect, x: int, y: int) -> bool {
    r.left <= x <= r.right && r.bottom <= y <= r.top
}

proof fn lemma_plates_no_repeats(tiles: Set<(int, int)>, y: int, width: int, row: Seq<Plate>)
    requires
        is_row_plates(tiles, y, width, row),
    ensures
        row.no_duplicates(),
{
    assert forall|i: int, j: int| 0 <= i < row.len() && 0 <= j < row.len() && i != j implies row[i] != row[j] by {
        assert(is_row_run(tiles, y, width, row[i].left as int, row[i].right as int));
        if i < j {
            assert(row[i].right + 1 < row[j].left);
        } else {
            assert(row[j].right + 1 < row[i].left);
        }
    }
}

proof fn lemma_level_plates(tiles: Set<(int, int)>, width: int, height: int)
    requires
        width <= i32::MAX,
    ensures
        forall|y: int|
            0 <= y < level_plates(tiles, width, height).len() ==> is_row_plates(
                tiles,
                y,
                width,
                #[trigger] level_plates(tiles, width, height)[y],
            ),
        rows_without_repeats(level_plates(tiles, width, height)),
{
    let rows = level_plates(tiles, width, height);
    assert forall|y: int| 0 <= y < rows.len() implies is_row_plates(tiles, y, width, #[trigger] rows[y]) by {
        crate::plates::lemma_plates_of_row(tiles, y, width);
    }
    assert forall|y: int| 0 <= y < rows.len() implies #[trigger] rows[y].no_duplicates() by {
        lemma_plates_no_repeats(tiles, y, width, rows[y]);
    }
}

/// The plate that a rectangle spans.
pub open spec fn rect_plate(r: Rect) -> Plate {
    Plate { left: r.left, right: r.right }
}

/// Each rectangle closed at row `y` is the column of one of the row's
/// plates that the next row lacks; each such plate has its rectangle; and
/// where the row repeats no plate, no rectangle is listed twice.
proof fn lemma_closed_in_row(rows: Seq<Seq<Plate>>, y: int, i: int)
    requires
        0 <= y < rows.len(),
        rows.len() <= i32::MAX,
        0 <= i <= rows[y].len(),
    ensures
        forall|k: int|
            0 <= k < closed_in_row(rows, y, i).len() ==> {
                let r = #[trigger] closed_in_row(rows, y, i)[k];
                &&& r.top == y
                &&& rows[y].take(i).contains(rect_plate(r))
                &&& !next_row(rows, y).contains(rect_plate(r))
                &&& r == column_rect(rows, y, rect_plate(r))
            },
        forall|j: int|
            0 <= j < i && !next_row(rows, y).contains(#[trigger] rows[y][j]) ==> closed_in_row(rows, y, i).contains(
                column_rect(rows, y, rows[y][j]),
            ),
        rows[y].no_duplicates() ==> closed_in_row(rows, y, i).no_duplicates(),
    decreases i,
{
    if i > 0 {
        lemma_closed_in_row(rows, y, i - 1);
        let prev = closed_in_row(rows, y, i - 1);
        let p = rows[y][i - 1];
        let cur = closed_in_row(rows, y, i);
        assert(rows[y].take(i) =~= rows[y].take(i - 1).push(p));
        assert forall|k: int| 0 <= k < cur.len() implies {
            let r = #[trigger] cur[k];
            &&& r.top == y
            &&& rows[y].take(i).contains(rect_plate(r))
            &&& !next_row(rows, y).contains(rect_plate(r))
            &&& r == column_rect(rows, y, rect_plate(r))
        } by {
            if k < prev.len() {
                assert(cur[k] == prev[k]);
                assert(rows[y].take(i - 1).contains(rect_plate(prev[k])));
                let j = choose|j: int| 0 <= j < i - 1 && #[trigger] rows[y].take(i - 1)[j] == rect_plate(prev[k]);
                assert(rows[y].take(i)[j] == rect_plate(prev[k]));
            } else {
                assert(rect_plate(column_rect(rows, y, p)) == p);
                assert(rows[y].take(i)[i - 1] == p);
            }
        }
        assert forall|j: int|
            0 <= j < i && !next_row(rows, y).contains(#[trigger] rows[y][j]) implies cur.contains(
                column_rect(rows, y, rows[y][j]),
            ) by {
            if j < i - 1 {
                let k = choose|k: int| 0 <= k < prev.len() && #[trigger] prev[k] == column_rect(rows, y, rows[y][j]);
                assert(cur[k] == prev[k]);
            } else {
                assert(cur[cur.len() - 1] == column_rect(rows, y, p));
            }
        }
        if rows[y].no_duplicates() && !next_row(rows, y).contains(p) {
            assert forall|a: int, b: int| 0 <= a < b < cur.len() implies cur[a] != cur[b] by {
                if b == cur.len() - 1 && a < prev.len() {
                    assert(cur[a] == prev[a]);
                    let q = rect_plate(prev[a]);
                    assert(rows[y].take(i - 1).contains(q));
                    let j = choose|j: int| 0 <= j < i - 1 && #[trigger] rows[y].take(i - 1)[j] == q;
                    assert(rows[y][j] == q);
                    if cur[a] == cur[b] {
                        assert(rect_plate(cur[b]) == p);
                        assert(rows[y][j] == rows[y][i - 1]);
                    }
                } else {
                    assert(cur[a] == prev[a]);
                    assert(cur[b] == prev[b]);
                }
            }
        }
    }
}

/// What the rectangles closed at the first `m` rows are.
proof fn lemma_merged_upto(rows: Seq<Seq<Plate>>, m: int)
    requires
        0 <= m <= rows.len(),
        rows.len() <= i32::MAX,
    ensures
        forall|k: int|
            0 <= k < merged_upto(rows, m).len() ==> {
                let r = #[trigger] merged_upto(rows, m)[k];
                &&& 0 <= r.top < m
                &&& rows[r.top as int].contains(rect_plate(r))
                &&& !next_row(rows, r.top as int).contains(rect_plate(r))
                &&& r == column_rect(rows, r.top as int, rect_plate(r))
            },
        forall|y: int, p: Plate|
            0 <= y < m && #[trigger] rows[y].contains(p) && !next_row(rows, y).contains(p) ==> merged_upto(
                rows,
                m,
            ).contains(column_rect(rows, y, p)),
        rows_without_repeats(rows) ==> merged_upto(rows, m).no_duplicates(),
    decreases m,
{
    if m > 0 {
        lemma_merged_upto(rows, m - 1);
        let y = m - 1;
        let len = rows[y].len() as int;
        lemma_closed_in_row(rows, y, len);
        let a = merged_upto(rows, m - 1);
        let b = closed_in_row(rows, y, len);
        let c = merged_upto(rows, m);
        assert(c == a + b);
        assert(rows[y].take(len) =~= rows[y]);
        assert forall|k: int| 0 <= k < c.len() implies {
            let r = #[trigger] c[k];
            &&& 0 <= r.top < m
            &&& rows[r.top as int].contains(rect_plate(r))
            &&& !next_row(rows, r.top as int).contains(rect_plate(r))
            &&& r == column_rect(rows, r.top as int, rect_plate(r))
        } by {
            if k < a.len() {
                assert(c[k] == a[k]);
            } else {
                assert(c[k] == b[k - a.len()]);
            }
        }
        assert forall|z: int, p: Plate|
            0 <= z < m && #[trigger] rows[z].contains(p) && !next_row(rows, z).contains(p) implies c.contains(
                column_rect(rows, z, p),
            ) by {
            if z < m - 1 {
                let k = choose|k: int| 0 <= k < a.len() && #[trigger] a[k] == column_rect(rows, z, p);
                assert(c[k] == a[k]);
            } else {
                let j = choose|j: int| 0 <= j < rows[y].len() && #[trigger] rows[y][j] == p;
                let k = choose|k: int| 0 <= k < b.len() && #[trigger] b[k] == column_rect(rows, y, rows[y][j]);
                assert(c[a.len() + k] == b[k]);
            }
        }
        if rows_without_repeats(rows) {
            assert(rows[y].no_duplicates());
            assert forall|i: int, j: int| 0 <= i < j < c.len() implies c[i] != c[j] by {
                if j < a.len() {
                    assert(c[i] == a[i] && c[j] == a[j]);
                } else if i >= a.len() {
                    assert(c[i] == b[i - a.len()] && c[j] == b[j - a.len()]);
                } else {
                    assert(c[i] == a[i] && c[j] == b[j - a.len()]);
                    assert(a[i].top < m - 1);
                }
            }
        }
    }
}

/// The collision rectangles of a level `width` columns wide and `height`
/// rows high: the plates of each row, stacked where consecutive rows hold
/// the same plate.
pub fn collision_rects(tiles: &CollisionTiles, width: i32, height: i32) -> (rects: Vec<Rect>)
    requires
        width < i32::MAX,
    ensures
        rects@ == level_rects(tiles@, width as int, height as int),
{
    let mut plate_stack: Vec<Vec<Plate>> = Vec::new();
    let mut y: i32 = 0;
    while y < height
        invariant
            0 <= y,
            y <= height || y == 0,
            width < i32::MAX,
            plate_stack@.len() == y,
            forall|k: int| 0 <= k < y ==> (#[trigger] plate_stack@[k])@ == plates_of_row(tiles@, k, width as int),
        decreases height - y,
    {
        let row = row_plates(tiles, y, width);
        plate_stack.push(row);
        y = y + 1;
    }
    proof {
        let rows = level_plates(tiles@, width as int, height as int);
        assert(row_views(plate_stack@) =~= rows);
        lemma_level_plates(tiles@, width as int, height as int);
    }
    merge_plate_rows(&plate_stack)
}


/// The rows of a plate's column, from its bottom up to row `y`, all hold
/// the plate, and the row below the column does not.
proof fn lemma_column_rows(rows: Seq<Seq<Plate>>, y: int, p: Plate)
    requires
        0 <= y < rows.len(),
        rows[y].contains(p),
    ensures
        0 <= column_bottom(rows, y, p) <= y,
        forall|z: int| column_bottom(rows, y, p) <= z <= y ==> #[trigger] rows[z].contains(p),
        column_bottom(rows, y, p) == 0 || !rows[column_bottom(rows, y, p) - 1].contains(p),
    decreases y,
{
    if 0 < y && rows[y - 1].contains(p) {
        lemma_column_rows(rows, y - 1, p);
    }
}

/// A column that ends at row `y` reaches down at least to row `a` when
/// every row from `a` to `y` holds the plate.
proof fn lemma_column_reaches(rows: Seq<Seq<Plate>>, y: int, a: int, p: Plate)
    requires
        0 <= a <= y < rows.len(),
        forall|z: int| a <= z <= y ==> #[trigger] rows[z].contains(p),
    ensures
        column_bottom(rows, y, p) <= a,
    decreases y - a,
{
    if y > a {
        assert(rows[y - 1].contains(p));
        lemma_column_reaches(rows, y - 1, a, p);
    } else {
        lemma_column_bottom_bounds(rows, y, p);
    }
}

/// The top of the column of plate `p` that passes through row `y`.
proof fn lemma_column_top(rows: Seq<Seq<Plate>>, y: int, p: Plate) -> (top: int)
    requires
        0 <= y < rows.len(),
        rows[y].contains(p),
    ensures
        y <= top < rows.len(),
        forall|z: int| y <= z <= top ==> #[trigger] rows[z].contains(p),
        !next_row(rows, top).contains(p),
    decreases rows.len() - y,
{
    if next_row(rows, y).contains(p) {
        let top = lemma_column_top(rows, y + 1, p);
        assert forall|z: int| y <= z <= top implies #[trigger] rows[z].contains(p) by {
            if z > y {
                assert(rows[z].contains(p));
            }
        }
        top
    } else {
        y
    }
}

/// The run of tiles through `(x, y)` starts at some column `l`.
proof fn lemma_run_left(tiles: Set<(int, int)>, y: int, x: int) -> (l: int)
    requires
        0 <= x,
        tiles.contains((x, y)),
    ensures
        0 <= l <= x,
        forall|z: int| l <= z <= x ==> #[trigger] tiles.contains((z, y)),
        l == 0 || !tiles.contains((l - 1, y)),
    decreases x,
{
    if x > 0 && tiles.contains((x - 1, y)) {
        let l = lemma_run_left(tiles, y, x - 1);
        assert forall|z: int| l <= z <= x implies #[trigger] tiles.contains((z, y)) by {
            if z < x {
                assert(tiles.contains((z, y)));
            }
        }
        l
    } else {
        x
    }
}

/// The run of tiles through `(x, y)` ends at some column `r` left of
/// column `width` when some column from `x` to `width` holds no tile.
proof fn lemma_run_right(tiles: Set<(int, int)>, y: int, width: int, x: int) -> (r: int)
    requires
        0 <= x < width,
        tiles.contains((x, y)),
        exists|z: int| x <= z <= width && !#[trigger] tiles.contains((z, y)),
    ensures
        x <= r < width,
        forall|z: int| x <= z <= r ==> #[trigger] tiles.contains((z, y)),
        !tiles.contains((r + 1, y)),
    decreases width - x,
{
    if tiles.contains((x + 1, y)) {
        let g = choose|z: int| x <= z <= width && !#[trigger] tiles.contains((z, y));
        assert(x + 1 < g);
        assert(x + 1 <= g <= width && !tiles.contains((g, y)));
        let r = lemma_run_right(tiles, y, width, x + 1);
        assert forall|z: int| x <= z <= r implies #[trigger] tiles.contains((z, y)) by {
            if z > x {
                assert(tiles.contains((z, y)));
            }
        }
        r
    } else {
        x
    }
}

/// What each collision rectangle of a level is: the column, ending at its
/// top row, of a plate of that row.
proof fn lemma_level_rect(tiles: Set<(int, int)>, width: i32, height: i32, k: int)
    requires
        0 <= k < level_rects(tiles, width as int, height as int).len(),
    ensures
        ({
            let rows = level_plates(tiles, width as int, height as int);
            let r = level_rects(tiles, width as int, height as int)[k];
            &&& 0 <= r.top < rows.len()
            &&& rows[r.top as int].contains(rect_plate(r))
            &&& !next_row(rows, r.top as int).contains(rect_plate(r))
            &&& r == column_rect(rows, r.top as int, rect_plate(r))
            &&& is_row_run(tiles, r.top as int, width as int, r.left as int, r.right as int)
            &&& 0 <= r.bottom <= r.top
            &&& forall|z: int| r.bottom <= z <= r.top ==> #[trigger] rows[z].contains(rect_plate(r))
        }),
{
    let rows = level_plates(tiles, width as int, height as int);
    lemma_level_plates(tiles, width as int, height as int);
    lemma_merged_upto(rows, rows.len() as int);
    let r = level_rects(tiles, width as int, height as int)[k];
    let y = r.top as int;
    let j = choose|j: int| 0 <= j < rows[y].len() && #[trigger] rows[y][j] == rect_plate(r);
    assert(is_row_plates(tiles, y, width as int, rows[y]));
    assert(is_row_run(tiles, y, width as int, rows[y][j].left as int, rows[y][j].right as int));
    lemma_column_rows(rows, y, rect_plate(r));
}

/// Every collision rectangle of a level lies inside its grid of `width`
/// columns and `height` rows.
pub proof fn lemma_rects_inside_grid(tiles: Set<(int, int)>, width: i32, height: i32, k: int)
    requires
        0 <= k < level_rects(tiles, width as int, height as int).len(),
    ensures
        ({
            let r = level_rects(tiles, width as int, height as int)[k];
            0 <= r.left <= r.right < width && 0 <= r.bottom <= r.top < height
        }),
{
    lemma_level_rect(tiles, width, height, k);
}

/// A grid cell is covered by a collision rectangle exactly when it holds a
/// tile, unless its run of tiles goes on without a gap up to column
/// `width`: such a run is never closed, so it gets no rectangle.
pub proof fn lemma_rects_cover_tiles(tiles: Set<(int, int)>, width: i32, height: i32, x: int, y: int)
    requires
        0 <= x < width,
        0 <= y < height,
        exists|z: int| x <= z <= width && !#[trigger] tiles.contains((z, y)),
    ensures
        tiles.contains((x, y)) <==> exists|k: int|
            0 <= k < level_rects(tiles, width as int, height as int).len() && covers(
                #[trigger] level_rects(tiles, width as int, height as int)[k],
                x,
                y,
            ),
{
    let rows = level_plates(tiles, width as int, height as int);
    let rects = level_rects(tiles, width as int, height as int);
    lemma_level_plates(tiles, width as int, height as int);
    if tiles.contains((x, y)) {
        let l = lemma_run_left(tiles, y, x);
        let r = lemma_run_right(tiles, y, width as int, x);
        assert forall|z: int| l <= z <= r implies #[trigger] tiles.contains((z, y)) by {
            if z <= x {
                assert(tiles.contains((z, y)));
            } else {
                assert(tiles.contains((z, y)));
            }
        }
        assert(is_row_run(tiles, y, width as int, l, r));
        assert(is_row_plates(tiles, y, width as int, rows[y]));
        let i = choose|i: int| 0 <= i < rows[y].len() && #[trigger] rows[y][i].left == l && rows[y][i].right == r;
        let p = rows[y][i];
        assert(rows[y].contains(p));
        let top = lemma_column_top(rows, y, p);
        lemma_column_reaches(rows, top, y, p);
        lemma_merged_upto(rows, rows.len() as int);
        assert(rows[top].contains(p));
        assert(rects.contains(column_rect(rows, top, p)));
        let k = choose|k: int| 0 <= k < rects.len() && #[trigger] rects[k] == column_rect(rows, top, p);
        lemma_column_rows(rows, top, p);
        assert(rows.len() <= i32::MAX);
        assert(rects[k].bottom as int == column_bottom(rows, top, p));
        assert(rects[k].top as int == top);
        assert(covers(rects[k], x, y));
    } else {
        assert forall|k: int| 0 <= k < rects.len() implies !covers(#[trigger] rects[k], x, y) by {
            lemma_level_rect(tiles, width, height, k);
            let rk = rects[k];
            if covers(rk, x, y) {
                let p = rect_plate(rk);
                assert(rows[y].contains(p));
                let j = choose|j: int| 0 <= j < rows[y].len() && #[trigger] rows[y][j] == p;
                assert(is_row_plates(tiles, y, width as int, rows[y]));
                assert(is_row_run(tiles, y, width as int, rows[y][j].left as int, rows[y][j].right as int));
                assert(tiles.contains((x, y)));
            }
        }
    }
}

/// No grid cell is covered by two collision rectangles.
pub proof fn lemma_rects_disjoint(tiles: Set<(int, int)>, width: i32, height: i32, k1: int, k2: int, x: int, y: int)
    requires
        0 <= k1 < level_rects(tiles, width as int, height as int).len(),
        0 <= k2 < level_rects(tiles, width as int, height as int).len(),
        k1 != k2,
    ensures
        !(covers(level_rects(tiles, width as int, height as int)[k1], x, y) && covers(
            level_rects(tiles, width as int, height as int)[k2],
            x,
            y,
        )),
{
    let rows = level_plates(tiles, width as int, height as int);
    let rects = level_rects(tiles, width as int, height as int);
    lemma_level_plates(tiles, width as int, height as int);
    lemma_merged_upto(rows, rows.len() as int);
    lemma_level_rect(tiles, width, height, k1);
    lemma_level_rect(tiles, width, height, k2);
    let r1 = rects[k1];
    let r2 = rects[k2];
    if covers(r1, x, y) && covers(r2, x, y) {
        let p1 = rect_plate(r1);
        let p2 = rect_plate(r2);
        assert(rows[y].contains(p1));
        assert(rows[y].contains(p2));
        let i1 = choose|i: int| 0 <= i < rows[y].len() && #[trigger] rows[y][i] == p1;
        let i2 = choose|i: int| 0 <= i < rows[y].len() && #[trigger] rows[y][i] == p2;
        assert(is_row_plates(tiles, y, width as int, rows[y]));
        if i1 < i2 {
            assert(rows[y][i1].right + 1 < rows[y][i2].left);
        } else if i2 < i1 {
            assert(rows[y][i2].right + 1 < rows[y][i1].left);
        }
        assert(p1 == p2);
        if r1.top < r2.top {
            assert(rows[r1.top + 1].contains(p2));
        } else if r2.top < r1.top {
            assert(rows[r2.top + 1].contains(p1));
        }
        assert(r1 == r2);
        assert(rects.no_duplicates());
    }
}

/// A collision rectangle is as tall as its plate's stack: no other
/// rectangle of the same columns starts right above it.
pub proof fn lemma_rects_stacked_fully(tiles: Set<(int, int)>, width: i32, height: i32, k1: int, k2: int)
    requires
        0 <= k1 < level_rects(tiles, width as int, height as int).len(),
        0 <= k2 < level_rects(tiles, width as int, height as int).len(),
        level_rects(tiles, width as int, height as int)[k1].left == level_rects(tiles, width as int, height as int)[k2].left,
        level_rects(tiles, width as int, height as int)[k1].right == level_rects(tiles, width as int, height as int)[k2].right,
    ensures
        level_rects(tiles, width as int, height as int)[k1].top + 1 != level_rects(tiles, width as int, height as int)[k2].bottom,
{
    let rows = level_plates(tiles, width as int, height as int);
    let rects = level_rects(tiles, width as int, height as int);
    lemma_level_rect(tiles, width, height, k1);
    lemma_level_rect(tiles, width, height, k2);
    let r1 = rects[k1];
    let r2 = rects[k2];
    if r1.top + 1 == r2.bottom {
        assert(rect_plate(r1) == rect_plate(r2));
        assert(rows[r2.bottom as int].contains(rect_plate(r2)));
    }
}

} // verus!
