//! Merging the plates of consecutive rows into rectangles.
use vstd::prelude::*;
use bevy::platform::collections::HashMap;
use bevy::platform::hash::FixedHasher;
use crate::plates::Plate;

verus! {

/// Declares `bevy::platform::hash::FixedHasher`, the default hasher of
/// bevy's `HashMap`; nothing of it is visible to proofs.
#[verifier::external_type_specification]
#[verifier::external_body]
pub struct ExFixedHasher(FixedHasher);

/// Declares `bevy::platform::collections::HashMap`; its contents are known
/// to proofs only through `open_rects` and the wrappers below.
#[verifier::external_type_specification]
#[verifier::external_body]
#[verifier::reject_recursive_types(K)]
#[verifier::reject_recursive_types(V)]
#[verifier::reject_recursive_types(S)]
pub struct ExBevyHashMap<K, V, S>(HashMap<K, V, S>);

/// A rectangle of grid cells: columns `left..=right`, rows `bottom..=top`.
#[derive(Clone, Copy, Debug, PartialEq, Eq, Structural)]
pub struct Rect {
    pub left: i32,
    pub right: i32,
    pub top: i32,
    pub bottom: i32,
}

impl Rect {
    /// Grows the rectangle by one row upwards.
    pub fn raise_top(&mut self)
        requires
            old(self).top < i32::MAX,
        ensures
            *final(self) == (Rect { top: (old(self).top + 1) as i32, ..*old(self) }),
    {
        self.top = self.top + 1;
    }

    /// The number of columns the rectangle spans.
    pub fn columns(&self) -> (n: i32)
        requires
            i32::MIN <= self.right - self.left,
            self.right - self.left + 1 <= i32::MAX,
        ensures
            n == self.right - self.left + 1,
    {
        self.right - self.left + 1
    }

    /// The number of rows the rectangle spans.
    pub fn rows(&self) -> (n: i32)
        requires
            i32::MIN <= self.top - self.bottom,
            self.top - self.bottom + 1 <= i32::MAX,
        ensures
            n == self.top - self.bottom + 1,
    {
        self.top - self.bottom + 1
    }

    /// Twice the column coordinate of the rectangle's centre, where column
    /// `c` spans the coordinates from `c` to `c + 1`.
    pub fn doubled_center_column(&self) -> (c: i32)
        requires
            i32::MIN <= self.left + self.right,
            self.left + self.right + 1 <= i32::MAX,
        ensures
            c == self.left + self.right + 1,
    {
        self.left + self.right + 1
    }

    /// Twice the row coordinate of the rectangle's centre, where row `r`
    /// spans the coordinates from `r` to `r + 1`.
    pub fn doubled_center_row(&self) -> (c: i32)
        requires
            i32::MIN <= self.bottom + self.top,
            self.bottom + self.top + 1 <= i32::MAX,
        ensures
            c == self.bottom + self.top + 1,
    {
        self.bottom + self.top + 1
    }
}

/// The key of a plate in the map of open rectangles.
pub type PlateKey = (i32, i32);

pub open spec fn plate_key(p: Plate) -> PlateKey {
    (p.left, p.right)
}

/// The rectangles still growing, each under the key of the plate that it
/// extends.
pub type OpenRects = HashMap<PlateKey, Rect>;

/// What a map of open rectangles holds, as a map from plate keys to
/// rectangles; the wrappers below state how each call changes it.
pub uninterp spec fn open_rects(m: OpenRects) -> Map<PlateKey, Rect>;

/// Calls `bevy::platform::collections::HashMap::new`, which returns an empty
/// map.
#[verifier::external_body]
fn open_rects_new() -> (m: OpenRects)
    ensures
        open_rects(m).dom().is_empty(),
{
    HashMap::new()
}

/// Calls `bevy::platform::collections::HashMap::remove`: where the key was
/// in the map, its entry leaves the map and its value is returned; otherwise
/// the map is unchanged and `None` is returned.
#[verifier::external_body]
fn open_rects_remove(m: &mut OpenRects, key: PlateKey) -> (r: Option<Rect>)
    ensures
        open_rects(*old(m)).contains_key(key) ==> r == Some(open_rects(*old(m))[key]),
        open_rects(*old(m)).contains_key(key) ==> open_rects(*final(m)) == open_rects(*old(m)).remove(key),
        !open_rects(*old(m)).contains_key(key) ==> r is None,
        !open_rects(*old(m)).contains_key(key) ==> open_rects(*final(m)) == open_rects(*old(m)),
{
    m.remove(&key)
}

/// Calls `bevy::platform::collections::HashMap::entry`, then `and_modify`
/// with `Rect::raise_top`, then `or_insert` with `fresh`: a rectangle
/// already under the key grows by one row; otherwise `fresh` goes in under
/// the key. No other entry changes.
#[verifier::external_body]
fn open_rects_extend_or_open(m: &mut OpenRects, key: PlateKey, fresh: Rect)
    requires
        open_rects(*old(m)).contains_key(key) ==> open_rects(*old(m))[key].top < i32::MAX,
    ensures
        open_rects(*old(m)).contains_key(key) ==> open_rects(*final(m)) == open_rects(*old(m)).insert(
            key,
            (Rect { top: (open_rects(*old(m))[key].top + 1) as i32, ..open_rects(*old(m))[key] }),
        ),
        !open_rects(*old(m)).contains_key(key) ==> open_rects(*final(m)) == open_rects(*old(m)).insert(key, fresh),
{
    m.entry(key).and_modify(|rect| rect.raise_top()).or_insert(fresh);
}


/// The plates of each row, as sequences.
pub open spec fn row_views(rows: Seq<Vec<Plate>>) -> Seq<Seq<Plate>> {
    Seq::new(rows.len(), |y: int| rows[y]@)
}

/// The row above row `y`; above the last row there are no plates.
pub open spec fn next_row(rows: Seq<Seq<Plate>>, y: int) -> Seq<Plate> {
    if 0 <= y + 1 < rows.len() {
        rows[y + 1]
    } else {
        Seq::empty()
    }
}

/// The lowest row of the unbroken stack of rows, ending at row `y`, that
/// all hold plate `p`.
pub open spec fn column_bottom(rows: Seq<Seq<Plate>>, y: int, p: Plate) -> int
    decreases y,
{
    if 0 < y && y - 1 < rows.len() && rows[y - 1].contains(p) {
        column_bottom(rows, y - 1, p)
    } else {
        y
    }
}

/// The rectangle of plate `p` whose top row is `y`.
pub open spec fn column_rect(rows: Seq<Seq<Plate>>, y: int, p: Plate) -> Rect {
    Rect { left: p.left, right: p.right, bottom: column_bottom(rows, y, p) as i32, top: y as i32 }
}

/// The rectangles that end at row `y`, among its first `i` plates: one for
/// each plate that the next row does not hold, in the order of the row.
pub open spec fn closed_in_row(rows: Seq<Seq<Plate>>, y: int, i: int) -> Seq<Rect>
    decreases i,
{
    if i <= 0 {
        Seq::empty()
    } else {
        let p = rows[y][i - 1];
        if next_row(rows, y).contains(p) {
            closed_in_row(rows, y, i - 1)
        } else {
            closed_in_row(rows, y, i - 1).push(column_rect(rows, y, p))
        }
    }
}

/// The rectangles that end at one of the first `k` rows, row by row.
pub open spec fn merged_upto(rows: Seq<Seq<Plate>>, k: int) -> Seq<Rect>
    decreases k,
{
    if k <= 0 {
        Seq::empty()
    } else {
        merged_upto(rows, k - 1) + closed_in_row(rows, k - 1, rows[k - 1].len() as int)
    }
}

/// The rectangles that stack identical plates of consecutive rows.
pub open spec fn merged_rects(rows: Seq<Seq<Plate>>) -> Seq<Rect> {
    merged_upto(rows, rows.len() as int)
}

/// No row lists a plate twice.
pub open spec fn rows_without_repeats(rows: Seq<Seq<Plate>>) -> bool {
    forall|y: int| 0 <= y < rows.len() ==> #[trigger] rows[y].no_duplicates()
}

pub proof fn lemma_column_bottom_bounds(rows: Seq<Seq<Plate>>, y: int, p: Plate)
    requires
        0 <= y,
    ensures
        0 <= column_bottom(rows, y, p) <= y,
    decreases y,
{
    if 0 < y && y - 1 < rows.len() && rows[y - 1].contains(p) {
        lemma_column_bottom_bounds(rows, y - 1, p);
    }
}

/// Whether `row` holds plate `p`.
fn row_contains(row: &Vec<Plate>, p: Plate) -> (r: bool)
    ensures
        r == row@.contains(p),
{
    let mut i: usize = 0;
    while i < row.len()
        invariant
            0 <= i <= row@.len(),
            forall|j: int| 0 <= j < i ==> row@[j] != p,
        decreases row@.len() - i,
    {
        if row[i] == p {
            return true;
        }
        i = i + 1;
    }
    false
}

/// Stacks the plates of consecutive rows into rectangles. Going up the
/// rows, a plate that the row below also held extends that plate's open
/// rectangle by one row; any other plate opens a rectangle of one row. A
/// rectangle is closed, and listed, at the first row above it that lacks
/// its plate; past the last row every open rectangle is closed.
pub fn merge_plate_rows(rows: &Vec<Vec<Plate>>) -> (rects: Vec<Rect>)
    requires
        rows@.len() <= i32::MAX,
        rows_without_repeats(row_views(rows@)),
    ensures
        rects@ == merged_rects(row_views(rows@)),
{
    let ghost rs = row_views(rows@);
    let n = rows.len();
    let empty: Vec<Plate> = Vec::new();
    let mut open = open_rects_new();
    let mut rects: Vec<Rect> = Vec::new();
    let mut y: usize = 0;
    while y <= n
        invariant
            n == rows@.len(),
            n <= i32::MAX,
            rs == row_views(rows@),
            rs.len() == n,
            rows_without_repeats(rs),
            empty@.len() == 0,
            y <= n + 1,
            rects@ == merged_upto(rs, y - 1),
            forall|p: Plate|
                #![trigger open_rects(open).contains_key(plate_key(p))]
                open_rects(open).contains_key(plate_key(p)) <==> (1 <= y <= n && rs[y - 1].contains(p)),
            forall|p: Plate|
                1 <= y <= n && #[trigger] rs[y - 1].contains(p) ==> open_rects(open)[plate_key(p)] == column_rect(rs, y - 1, p),
        decreases n + 1 - y,
    {
        let previous: &Vec<Plate> = if y == 0 { &empty } else { &rows[y - 1] };
        let current: &Vec<Plate> = if y < n { &rows[y] } else { &empty };
        let ghost prev = previous@;
        let ghost cur = current@;
        let ghost open0 = open_rects(open);
        proof {
            if y >= 1 {
                assert(prev == rs[y - 1]);
            }
            assert(cur == next_row(rs, y - 1));
        }
        // Close the rectangles whose plate the current row lacks.
        let mut i: usize = 0;
        while i < previous.len()
            invariant
                prev == previous@,
                cur == current@,
                cur == next_row(rs, y - 1),
                y >= 1 ==> prev == rs[y - 1],
                y == 0 ==> prev.len() == 0,
                y <= n,
                n <= i32::MAX,
                rs.len() == n,
                prev.no_duplicates(),
                0 <= i <= prev.len(),
                rects@ == merged_upto(rs, y - 1) + closed_in_row(rs, y - 1, i as int),
                forall|p: Plate|
                    #![trigger open_rects(open).contains_key(plate_key(p))]
                    open_rects(open).contains_key(plate_key(p)) <==> (prev.contains(p) && (cur.contains(p)
                        || !prev.take(i as int).contains(p))),
                forall|p: Plate|
                    #[trigger] prev.contains(p) && (cur.contains(p) || !prev.take(i as int).contains(p))
                        ==> open_rects(open)[plate_key(p)] == column_rect(rs, y - 1, p),
            decreases prev.len() - i,
        {
            let p = previous[i];
            let ghost before = open_rects(open);
            let ghost rects_before = rects@;
            proof {
                assert(prev.take(i + 1) =~= prev.take(i as int).push(p));
                assert(prev.take(i + 1)[i as int] == p);
                assert(prev.contains(p));
            }
            if !row_contains(current, p) {
                proof {
                    if prev.take(i as int).contains(p) {
                        let j = choose|j: int| 0 <= j < i && prev.take(i as int)[j] == p;
                        assert(prev[j] == prev[i as int]);
                    }
                }
                let removed = open_rects_remove(&mut open, (p.left, p.right));
                match removed {
                    Some(rect) => {
                        rects.push(rect);
                    },
                    None => {},
                }
                proof {
                    assert(rects@ =~= rects_before.push(column_rect(rs, y - 1, p)));
                    assert forall|q: Plate|
                        #![trigger open_rects(open).contains_key(plate_key(q))]
                        open_rects(open).contains_key(plate_key(q)) <==> (prev.contains(q) && (cur.contains(q)
                            || !prev.take(i + 1).contains(q))) by {
                        assert(plate_key(q) == plate_key(p) ==> q == p);
                    }
                    assert forall|q: Plate|
                        #[trigger] prev.contains(q) && (cur.contains(q) || !prev.take(i + 1).contains(q))
                            implies open_rects(open)[plate_key(q)] == column_rect(rs, y - 1, q) by {
                        assert(q != p);
                        assert(plate_key(q) == plate_key(p) ==> q == p);
                        assert(plate_key(q) != plate_key(p));
                        assert(before.contains_key(plate_key(q)));
                    }
                }
            } else {
                proof {
                    assert forall|q: Plate|
                        #![trigger open_rects(open).contains_key(plate_key(q))]
                        open_rects(open).contains_key(plate_key(q)) <==> (prev.contains(q) && (cur.contains(q)
                            || !prev.take(i + 1).contains(q))) by {
                        assert(plate_key(q) == plate_key(p) ==> q == p);
                    }
                }
            }
            i = i + 1;
        }
        proof {
            assert(prev.take(prev.len() as int) =~= prev);
            if y >= 1 {
                assert(merged_upto(rs, y as int) == merged_upto(rs, y - 1) + closed_in_row(rs, y - 1, rs[y - 1].len() as int));
            }
        }
        // Extend or open a rectangle for each plate of the current row.
        let ghost open1 = open_rects(open);
        let mut i: usize = 0;
        while i < current.len()
            invariant
                prev == previous@,
                cur == current@,
                y < n ==> cur == rs[y as int],
                y == n ==> cur.len() == 0,
                y >= 1 ==> prev == rs[y - 1],
                y == 0 ==> prev.len() == 0,
                y <= n,
                n <= i32::MAX,
                rs.len() == n,
                cur.no_duplicates(),
                0 <= i <= cur.len(),
                rects@ == merged_upto(rs, y as int),
                forall|p: Plate|
                    #![trigger open_rects(open).contains_key(plate_key(p))]
                    open_rects(open).contains_key(plate_key(p)) <==> (cur.take(i as int).contains(p) || (prev.contains(p)
                        && cur.contains(p))),
                forall|p: Plate|
                    #[trigger] cur.take(i as int).contains(p) ==> open_rects(open)[plate_key(p)] == column_rect(rs, y as int, p),
                forall|p: Plate|
                    !cur.take(i as int).contains(p) && #[trigger] prev.contains(p) && cur.contains(p)
                        ==> open_rects(open)[plate_key(p)] == column_rect(rs, y - 1, p),
            decreases cur.len() - i,
        {
            let p = current[i];
            let ghost before = open_rects(open);
            proof {
                assert(cur.take(i + 1) =~= cur.take(i as int).push(p));
                assert(cur.take(i + 1)[i as int] == p);
                assert(cur.contains(p));
                if cur.take(i as int).contains(p) {
                    let j = choose|j: int| 0 <= j < i && cur.take(i as int)[j] == p;
                    assert(cur[j] == cur[i as int]);
                }
                lemma_column_bottom_bounds(rs, y as int, p);
                if before.contains_key(plate_key(p)) {
                    assert(prev.contains(p));
                    lemma_column_bottom_bounds(rs, y - 1, p);
                }
            }
            let fresh = Rect { left: p.left, right: p.right, bottom: y as i32, top: y as i32 };
            open_rects_extend_or_open(&mut open, (p.left, p.right), fresh);
            proof {
                assert(y < n);
                assert(rs[y as int] == cur);
                assert forall|q: Plate|
                    #![trigger open_rects(open).contains_key(plate_key(q))]
                    open_rects(open).contains_key(plate_key(q)) <==> (cur.take(i + 1).contains(q) || (prev.contains(q)
                        && cur.contains(q))) by {
                    assert(plate_key(q) == plate_key(p) ==> q == p);
                }
                assert forall|q: Plate|
                    #[trigger] cur.take(i + 1).contains(q) implies open_rects(open)[plate_key(q)] == column_rect(rs, y as int, q) by {
                    if q == p {
                        if before.contains_key(plate_key(p)) {
                            assert(y >= 1);
                            assert(rs[y - 1].contains(p));
                            assert(column_bottom(rs, y as int, p) == column_bottom(rs, y - 1, p));
                        } else {
                            assert(!(y >= 1 && rs[y - 1].contains(p)));
                            assert(column_bottom(rs, y as int, p) == y);
                        }
                    } else {
                        assert(plate_key(q) == plate_key(p) ==> q == p);
                        assert(plate_key(q) != plate_key(p));
                        assert(cur.take(i as int).contains(q));
                    }
                }
                assert forall|q: Plate|
                    !cur.take(i + 1).contains(q) && #[trigger] prev.contains(q) && cur.contains(q)
                        implies open_rects(open)[plate_key(q)] == column_rect(rs, y - 1, q) by {
                    assert(q != p);
                    assert(plate_key(q) == plate_key(p) ==> q == p);
                    assert(plate_key(q) != plate_key(p));
                }
            }
            i = i + 1;
        }
        proof {
            assert(cur.take(cur.len() as int) =~= cur);
        }
        y = y + 1;
    }
    rects
}

} // verus!
