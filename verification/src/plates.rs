//! Horizontal runs of collision tiles within one grid row.
use vstd::prelude::*;
use crate::tiles::CollisionTiles;

verus! {

/// A horizontal run of tiles in one row, from column `left` to column
/// `right`, both included.
#[derive(Clone, Copy, Debug, PartialEq, Eq, Structural)]
pub struct Plate {
    pub left: i32,
    pub right: i32,
}

/// `[l, r]` is a maximal run of tiles in row `y` that closes left of column
/// `width`: every column from `l` to `r` holds a tile, the column left of
/// `l` is column `-1` or holds none, and column `r + 1` holds none.
pub open spec fn is_row_run(tiles: Set<(int, int)>, y: int, width: int, l: int, r: int) -> bool {
    &&& 0 <= l <= r < width
    &&& forall|x: int| l <= x <= r ==> #[trigger] tiles.contains((x, y))
    &&& (l == 0 || !tiles.contains((l - 1, y)))
    &&& !tiles.contains((r + 1, y))
}

/// Plates that stand apart from left to right: each ends more than one
/// column before the next one starts.
pub open spec fn plates_ordered(row: Seq<Plate>) -> bool {
    forall|i: int, j: int| 0 <= i < j < row.len() ==> #[trigger] row[i].right + 1 < #[trigger] row[j].left
}

/// `row` lists, from left to right, exactly the maximal runs of tiles of
/// row `y` that close left of column `width`.
pub open spec fn is_row_plates(tiles: Set<(int, int)>, y: int, width: int, row: Seq<Plate>) -> bool {
    &&& forall|i: int|
        0 <= i < row.len() ==> is_row_run(tiles, y, width, #[trigger] row[i].left as int, row[i].right as int)
    &&& plates_ordered(row)
    &&& forall|l: int, r: int|
        #[trigger] is_row_run(tiles, y, width, l, r) ==> exists|i: int|
            0 <= i < row.len() && #[trigger] row[i].left == l && row[i].right == r
}

/// The plates of row `y` that close left of column `width`.
pub open spec fn plates_of_row(tiles: Set<(int, int)>, y: int, width: int) -> Seq<Plate> {
    choose|row: Seq<Plate>| is_row_plates(tiles, y, width, row)
}

proof fn lemma_ordered_lefts(tiles: Set<(int, int)>, y: int, width: int, row: Seq<Plate>, i: int, j: int)
    requires
        is_row_plates(tiles, y, width, row),
        0 <= i < j < row.len(),
    ensures
        row[i].left < row[j].left,
{
    assert(is_row_run(tiles, y, width, row[i].left as int, row[i].right as int));
    assert(row[i].right + 1 < row[j].left);
}

proof fn lemma_same_prefix(tiles: Set<(int, int)>, y: int, width: int, a: Seq<Plate>, b: Seq<Plate>, i: int)
    requires
        is_row_plates(tiles, y, width, a),
        is_row_plates(tiles, y, width, b),
        0 <= i < a.len(),
        i < b.len(),
    ensures
        forall|k: int| 0 <= k <= i ==> a[k] == b[k],
    decreases i,
{
    if i > 0 {
        lemma_same_prefix(tiles, y, width, a, b, i - 1);
    }
    assert(is_row_run(tiles, y, width, a[i].left as int, a[i].right as int));
    let j = choose|j: int| 0 <= j < b.len() && #[trigger] b[j].left == a[i].left && b[j].right == a[i].right;
    assert(b[j] == a[i]);
    if j < i {
        assert(a[j] == b[j]);
        lemma_ordered_lefts(tiles, y, width, a, j, i);
    } else if j > i {
        assert(is_row_run(tiles, y, width, b[i].left as int, b[i].right as int));
        let m = choose|m: int| 0 <= m < a.len() && #[trigger] a[m].left == b[i].left && a[m].right == b[i].right;
        assert(a[m] == b[i]);
        if m < i {
            assert(a[m] == b[m]);
            lemma_ordered_lefts(tiles, y, width, b, m, i);
        } else if m > i {
            lemma_ordered_lefts(tiles, y, width, a, i, m);
            lemma_ordered_lefts(tiles, y, width, b, i, j);
        }
    }
}

proof fn lemma_no_longer(tiles: Set<(int, int)>, y: int, width: int, a: Seq<Plate>, b: Seq<Plate>)
    requires
        is_row_plates(tiles, y, width, a),
        is_row_plates(tiles, y, width, b),
    ensures
        a.len() <= b.len(),
{
    if a.len() > b.len() {
        let i = b.len() as int;
        if i > 0 {
            lemma_same_prefix(tiles, y, width, a, b, i - 1);
        }
        assert(is_row_run(tiles, y, width, a[i].left as int, a[i].right as int));
        let j = choose|j: int| 0 <= j < b.len() && #[trigger] b[j].left == a[i].left && b[j].right == a[i].right;
        assert(a[j] == b[j]);
        lemma_ordered_lefts(tiles, y, width, a, j, i);
    }
}

/// The plates of a row are determined by its tiles: two lists that both
/// hold exactly the row's runs, from left to right, are the same list.
pub proof fn lemma_row_plates_unique(tiles: Set<(int, int)>, y: int, width: int, a: Seq<Plate>, b: Seq<Plate>)
    requires
        is_row_plates(tiles, y, width, a),
        is_row_plates(tiles, y, width, b),
    ensures
        a == b,
{
    lemma_no_longer(tiles, y, width, a, b);
    lemma_no_longer(tiles, y, width, b, a);
    if a.len() > 0 {
        lemma_same_prefix(tiles, y, width, a, b, a.len() - 1);
    }
    assert(a =~= b);
}

/// The state of a left-to-right scan of row `y` that has looked at the
/// columns before `x`: `row` holds the runs closed so far, and `start` is
/// the first column of the run still open, if any.
pub open spec fn scan_inv(
    tiles: Set<(int, int)>,
    y: int,
    width: int,
    x: int,
    row: Seq<Plate>,
    start: Option<int>,
) -> bool {
    &&& 0 <= x
    &&& x <= width + 1 || x == 0
    &&& width <= i32::MAX
    &&& start matches Some(s) ==> {
        &&& 0 <= s < x
        &&& forall|z: int| s <= z < x ==> #[trigger] tiles.contains((z, y))
        &&& (s == 0 || !tiles.contains((s - 1, y)))
        &&& forall|i: int| 0 <= i < row.len() ==> #[trigger] row[i].right + 1 < s
    }
    &&& start is None ==> (x == 0 || !tiles.contains((x - 1, y)))
    &&& forall|i: int|
        0 <= i < row.len() ==> is_row_run(tiles, y, width, #[trigger] row[i].left as int, row[i].right as int)
    &&& forall|i: int| 0 <= i < row.len() ==> #[trigger] row[i].right + 1 < x
    &&& plates_ordered(row)
    &&& forall|l: int, r: int|
        #[trigger] is_row_run(tiles, y, width, l, r) && r + 1 < x ==> exists|i: int|
            0 <= i < row.len() && #[trigger] row[i].left == l && row[i].right == r
}

/// One step of the scan, at column `x`: a tile after a gap opens a run, a
/// gap after a run closes it.
pub open spec fn scan_step(tiles: Set<(int, int)>, y: int, x: int, row: Seq<Plate>, start: Option<int>) -> (
    Seq<Plate>,
    Option<int>,
) {
    let here = tiles.contains((x, y));
    match start {
        Some(s) => if here {
            (row, start)
        } else {
            (row.push(Plate { left: s as i32, right: (x - 1) as i32 }), None)
        },
        None => if here {
            (row, Some(x))
        } else {
            (row, None)
        },
    }
}

pub proof fn lemma_scan_step(
    tiles: Set<(int, int)>,
    y: int,
    width: int,
    x: int,
    row: Seq<Plate>,
    start: Option<int>,
)
    requires
        scan_inv(tiles, y, width, x, row, start),
        x < width + 1,
    ensures
        scan_inv(tiles, y, width, x + 1, scan_step(tiles, y, x, row, start).0, scan_step(tiles, y, x, row, start).1),
{
    let here = tiles.contains((x, y));
    let (row2, start2) = scan_step(tiles, y, x, row, start);
    match start {
        Some(s) => {
            if !here {
                let p = Plate { left: s as i32, right: (x - 1) as i32 };
                assert(row2 == row.push(p));
                assert(row2[row2.len() - 1] == p);
                assert forall|i: int| 0 <= i < row2.len() implies is_row_run(
                    tiles,
                    y,
                    width,
                    #[trigger] row2[i].left as int,
                    row2[i].right as int,
                ) by {
                    if i < row.len() {
                        assert(row2[i] == row[i]);
                    }
                }
                assert forall|l: int, r: int|
                    #[trigger] is_row_run(tiles, y, width, l, r) && r + 1 < x + 1 implies exists|i: int|
                        0 <= i < row2.len() && #[trigger] row2[i].left == l && row2[i].right == r by {
                    if r + 1 < x {
                        let i = choose|i: int| 0 <= i < row.len() && #[trigger] row[i].left == l && row[i].right == r;
                        assert(row2[i] == row[i]);
                    } else {
                        if l < s {
                            assert(tiles.contains((s - 1, y)));
                        } else if s < l {
                            assert(tiles.contains((l - 1, y)));
                        }
                        assert(row2[row2.len() - 1].left == l);
                    }
                }
            }
        },
        None => {
            assert forall|l: int, r: int|
                #[trigger] is_row_run(tiles, y, width, l, r) && r + 1 < x + 1 implies exists|i: int|
                    0 <= i < row2.len() && #[trigger] row2[i].left == l && row2[i].right == r by {
                if r + 1 == x {
                    assert(tiles.contains((r, y)));
                }
            }
        },
    }
}

pub proof fn lemma_scan_done(tiles: Set<(int, int)>, y: int, width: int, x: int, row: Seq<Plate>, start: Option<int>)
    requires
        scan_inv(tiles, y, width, x, row, start),
        !(x < width + 1),
    ensures
        is_row_plates(tiles, y, width, row),
{
    assert forall|l: int, r: int|
        #[trigger] is_row_run(tiles, y, width, l, r) implies exists|i: int|
            0 <= i < row.len() && #[trigger] row[i].left == l && row[i].right == r by {
        assert(r + 1 < x);
    }
}

proof fn lemma_scan_from(tiles: Set<(int, int)>, y: int, width: int, x: int, row: Seq<Plate>, start: Option<int>) -> (res: Seq<Plate>)
    requires
        scan_inv(tiles, y, width, x, row, start),
    ensures
        is_row_plates(tiles, y, width, res),
    decreases width + 1 - x,
{
    if x < width + 1 {
        lemma_scan_step(tiles, y, width, x, row, start);
        let (row2, start2) = scan_step(tiles, y, x, row, start);
        lemma_scan_from(tiles, y, width, x + 1, row2, start2)
    } else {
        lemma_scan_done(tiles, y, width, x, row, start);
        row
    }
}

/// Every row has its plates.
pub proof fn lemma_plates_of_row(tiles: Set<(int, int)>, y: int, width: int)
    requires
        width <= i32::MAX,
    ensures
        is_row_plates(tiles, y, width, plates_of_row(tiles, y, width)),
{
    let row = lemma_scan_from(tiles, y, width, 0, Seq::empty(), None);
    assert(is_row_plates(tiles, y, width, row));
}

/// The optional column as an integer.
pub open spec fn column_of(start: Option<i32>) -> Option<int> {
    match start {
        Some(s) => Some(s as int),
        None => None,
    }
}

/// The plates of row `y`: scanning the columns `0..=width`, a run opens at
/// a tile after a gap and closes at the first gap after it. A run still open
/// after column `width` is not listed.
pub fn row_plates(tiles: &CollisionTiles, y: i32, width: i32) -> (row: Vec<Plate>)
    requires
        width < i32::MAX,
    ensures
        is_row_plates(tiles@, y as int, width as int, row@),
        row@ == plates_of_row(tiles@, y as int, width as int),
{
    let ghost t = tiles@;
    let mut row: Vec<Plate> = Vec::new();
    let mut start: Option<i32> = None;
    let mut x: i32 = 0;
    while x < width + 1
        invariant
            t == tiles@,
            width < i32::MAX,
            scan_inv(t, y as int, width as int, x as int, row@, column_of(start)),
        decreases width + 1 - x,
    {
        proof {
            lemma_scan_step(t, y as int, width as int, x as int, row@, column_of(start));
        }
        let ghost next = scan_step(t, y as int, x as int, row@, column_of(start));
        let here = tiles.contains_xy(x, y);
        match start {
            Some(s) => {
                if !here {
                    row.push(Plate { left: s, right: x - 1 });
                    start = None;
                }
            },
            None => {
                if here {
                    start = Some(x);
                }
            },
        }
        proof {
            assert(row@ =~= next.0);
            assert(column_of(start) == next.1);
        }
        x = x + 1;
    }
    proof {
        lemma_scan_done(t, y as int, width as int, x as int, row@, column_of(start));
        lemma_plates_of_row(t, y as int, width as int);
        lemma_row_plates_unique(t, y as int, width as int, row@, plates_of_row(t, y as int, width as int));
    }
    row
}

} // verus!
