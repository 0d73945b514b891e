//! Total orders used by the sorted lists of the engine.
use vstd::prelude::*;

verus! {

/// A type whose values are ordered by an integer key, one key per value.
pub trait SortKey: Sized + Copy {
    spec fn key(self) -> int;

    /// Tells whether `self` comes strictly before `other`.
    fn precedes(&self, other: &Self) -> (r: bool)
        ensures
            r == (self.key() < other.key()),
    ;

    /// Tells whether `self` and `other` are the same value.
    fn same(&self, other: &Self) -> (r: bool)
        ensures
            r == (*self == *other),
    ;

    /// Different values have different keys.
    proof fn lemma_key_injective(a: Self, b: Self)
        ensures
            a.key() == b.key() ==> a == b,
    ;
}

impl SortKey for u64 {
    open spec fn key(self) -> int {
        self as int
    }

    fn precedes(&self, other: &u64) -> (r: bool) {
        *self < *other
    }

    fn same(&self, other: &u64) -> (r: bool) {
        *self == *other
    }

    proof fn lemma_key_injective(a: u64, b: u64) {
    }
}

/// The coordinate of a partition on the world grid.
#[derive(Clone, Copy, Debug, PartialEq, Eq, Structural, Hash)]
pub struct Coord {
    pub x: i32,
    pub y: i32,
}

/// Number of distinct values of an `i32`.
pub const ROW_SPAN: i64 = 4294967296;

/// Row-major key of a coordinate: by `y`, then by `x`.
pub open spec fn coord_key(x: int, y: int) -> int {
    y * ROW_SPAN + x
}

proof fn lemma_coord_key_order(x1: int, y1: int, x2: int, y2: int)
    requires
        i32::MIN <= x1 <= i32::MAX,
        i32::MIN <= x2 <= i32::MAX,
    ensures
        y1 < y2 ==> coord_key(x1, y1) < coord_key(x2, y2),
        y1 == y2 ==> (coord_key(x1, y1) < coord_key(x2, y2) <==> x1 < x2),
        coord_key(x1, y1) == coord_key(x2, y2) ==> x1 == x2 && y1 == y2,
{
    if y1 < y2 {
        assert(y1 * ROW_SPAN + ROW_SPAN <= y2 * ROW_SPAN) by (nonlinear_arith)
            requires
                y1 < y2,
        ;
    }
    if y2 < y1 {
        assert(y2 * ROW_SPAN + ROW_SPAN <= y1 * ROW_SPAN) by (nonlinear_arith)
            requires
                y2 < y1,
        ;
    }
}

impl Coord {
    pub fn new(x: i32, y: i32) -> (r: Coord)
        ensures
            r == (Coord { x, y }),
    {
        Coord { x, y }
    }
}

impl SortKey for Coord {
    open spec fn key(self) -> int {
        coord_key(self.x as int, self.y as int)
    }

    fn precedes(&self, other: &Coord) -> (r: bool) {
        proof {
            lemma_coord_key_order(self.x as int, self.y as int, other.x as int, other.y as int);
        }
        self.y < other.y || (self.y == other.y && self.x < other.x)
    }

    fn same(&self, other: &Coord) -> (r: bool) {
        self.x == other.x && self.y == other.y
    }

    proof fn lemma_key_injective(a: Coord, b: Coord) {
        lemma_coord_key_order(a.x as int, a.y as int, b.x as int, b.y as int);
    }
}

/// Each element of `s` comes strictly before every later one.
pub open spec fn strictly_ascending<V: SortKey>(s: Seq<V>) -> bool {
    forall|i: int, j: int| 0 <= i < j < s.len() ==> (#[trigger] s[i]).key() < (#[trigger] s[j]).key()
}

} // verus!
