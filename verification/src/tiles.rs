//! The collision tiles of one level: a set of integer grid positions.
use vstd::prelude::*;
use std::collections::HashSet;

verus! {

broadcast use vstd::std_specs::hash::group_hash_axioms;

/// A cell position on a level's integer grid.
#[derive(Clone, Copy, Debug, PartialEq, Eq, Structural)]
pub struct GridCoords {
    pub x: i32,
    pub y: i32,
}

impl GridCoords {
    pub fn new(x: i32, y: i32) -> (c: GridCoords)
        ensures
            c.x == x,
            c.y == y,
    {
        GridCoords { x, y }
    }
}

/// The key under which a grid position is stored: the two coordinates,
/// each shifted into `0..2^32`, side by side in one `u64`.
pub open spec fn tile_key(x: i32, y: i32) -> u64 {
    (((x as int) + 0x8000_0000) * 0x1_0000_0000 + ((y as int) + 0x8000_0000)) as u64
}

/// Two grid positions share a key only when they are the same position.
pub proof fn lemma_tile_key_injective(x1: i32, y1: i32, x2: i32, y2: i32)
    ensures
        tile_key(x1, y1) == tile_key(x2, y2) <==> (x1 == x2 && y1 == y2),
{
    let a1 = (x1 as int) + 0x8000_0000;
    let b1 = (y1 as int) + 0x8000_0000;
    let a2 = (x2 as int) + 0x8000_0000;
    let b2 = (y2 as int) + 0x8000_0000;
    assert(0 <= a1 * 0x1_0000_0000 + b1 < 0x1_0000_0000 * 0x1_0000_0000);
    assert(0 <= a2 * 0x1_0000_0000 + b2 < 0x1_0000_0000 * 0x1_0000_0000);
    if a1 * 0x1_0000_0000 + b1 == a2 * 0x1_0000_0000 + b2 {
        if a1 < a2 {
            assert(a1 * 0x1_0000_0000 + b1 < a2 * 0x1_0000_0000);
        } else if a2 < a1 {
            assert(a2 * 0x1_0000_0000 + b2 < a1 * 0x1_0000_0000);
        }
    }
}

fn key_of(x: i32, y: i32) -> (k: u64)
    ensures
        k == tile_key(x, y),
{
    let hi: u64 = ((x as i64) + 0x8000_0000) as u64;
    let lo: u64 = ((y as i64) + 0x8000_0000) as u64;
    assert(hi * 0x1_0000_0000 + lo <= u64::MAX) by (nonlinear_arith)
        requires
            hi < 0x1_0000_0000,
            lo < 0x1_0000_0000,
    ;
    hi * 0x1_0000_0000 + lo
}

/// A set of grid positions, each held as its `tile_key`.
pub struct CollisionTiles {
    keys: HashSet<u64>,
}

impl View for CollisionTiles {
    type V = Set<(int, int)>;

    closed spec fn view(&self) -> Set<(int, int)> {
        Set::new(
            |p: (int, int)|
                i32::MIN <= p.0 <= i32::MAX && i32::MIN <= p.1 <= i32::MAX && self.keys@.contains(
                    tile_key(p.0 as i32, p.1 as i32),
                ),
        )
    }
}

impl CollisionTiles {
    /// An empty set of tiles.
    pub fn new() -> (t: CollisionTiles)
        ensures
            t@ == Set::<(int, int)>::empty(),
    {
        let t = CollisionTiles { keys: HashSet::new() };
        assert(t@ =~= Set::<(int, int)>::empty());
        t
    }

    /// Adds a position; the set is unchanged where it already held it.
    pub fn insert(&mut self, c: GridCoords)
        ensures
            final(self)@ == old(self)@.insert((c.x as int, c.y as int)),
    {
        let k = key_of(c.x, c.y);
        self.keys.insert(k);
        proof {
            assert forall|p: (int, int)|
                #![trigger final(self)@.contains(p)]
                final(self)@.contains(p) == old(self)@.insert((c.x as int, c.y as int)).contains(p) by {
                if i32::MIN <= p.0 <= i32::MAX && i32::MIN <= p.1 <= i32::MAX {
                    lemma_tile_key_injective(p.0 as i32, p.1 as i32, c.x, c.y);
                }
            }
            assert(final(self)@ =~= old(self)@.insert((c.x as int, c.y as int)));
        }
    }

    /// Whether the position is in the set.
    pub fn contains(&self, c: GridCoords) -> (r: bool)
        ensures
            r == self@.contains((c.x as int, c.y as int)),
    {
        let k = key_of(c.x, c.y);
        self.keys.contains(&k)
    }

    /// Whether the position `(x, y)` is in the set.
    pub fn contains_xy(&self, x: i32, y: i32) -> (r: bool)
        ensures
            r == self@.contains((x as int, y as int)),
    {
        self.contains(GridCoords { x, y })
    }
}

} // verus!
