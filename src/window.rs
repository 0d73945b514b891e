//! The square of partitions that an observer keeps loaded.
use vstd::prelude::*;

use crate::order::{coord_key, strictly_ascending, Coord, SortKey};

verus! {

/// `c` lies in the square of side `2 * radius + 1` centred on `center`.
pub open spec fn in_window(c: Coord, center: Coord, radius: int) -> bool {
    &&& center.x - radius <= c.x <= center.x + radius
    &&& center.y - radius <= c.y <= center.y + radius
}

/// The square around `center` stays on the grid of `i32` coordinates.
pub open spec fn window_fits(center: Coord, radius: int) -> bool {
    &&& i32::MIN <= center.x - radius
    &&& center.x + radius <= i32::MAX
    &&& i32::MIN <= center.y - radius
    &&& center.y + radius <= i32::MAX
}

/// The coordinates of the square around `center`, in row-major order.
pub fn window(center: Coord, radius: u32) -> (w: Vec<Coord>)
    requires
        window_fits(center, radius as int),
    ensures
        strictly_ascending(w@),
        forall|c: Coord| w@.contains(c) <==> in_window(c, center, radius as int),
{
    let r = radius as i64;
    let x0 = center.x as i64 - r;
    let x1 = center.x as i64 + r;
    let y1 = center.y as i64 + r;
    let mut w: Vec<Coord> = Vec::new();
    let mut y = center.y as i64 - r;
    while y <= y1
        invariant
            x0 == center.x - radius,
            x1 == center.x + radius,
            y1 == center.y + radius,
            window_fits(center, radius as int),
            center.y - radius <= y <= y1 + 1,
            strictly_ascending(w@),
            forall|k: int| 0 <= k < w@.len() ==> (#[trigger] w@[k]).key() < coord_key(x0 as int, y as int),
            forall|c: Coord| w@.contains(c) <==> (in_window(c, center, radius as int) && c.y < y),
        decreases y1 + 1 - y,
    {
        let mut x = x0;
        while x <= x1
            invariant
                x0 == center.x - radius,
                x1 == center.x + radius,
                y1 == center.y + radius,
                window_fits(center, radius as int),
                center.y - radius <= y <= y1,
                x0 <= x <= x1 + 1,
                strictly_ascending(w@),
                forall|k: int| 0 <= k < w@.len() ==> (#[trigger] w@[k]).key() < coord_key(x as int, y as int),
                forall|c: Coord| w@.contains(c) <==> (in_window(c, center, radius as int) && (c.y < y || (c.y == y && c.x < x))),
            decreases x1 + 1 - x,
        {
            let c = Coord { x: x as i32, y: y as i32 };
            let ghost before = w@;
            w.push(c);
            x = x + 1;
            proof {
                assert forall|d: Coord| w@.contains(d) <==> (in_window(d, center, radius as int) && (d.y < y || (d.y == y && d.x < x))) by {
                    if w@.contains(d) && d != c {
                        let k = choose|k: int| 0 <= k < w@.len() && w@[k] == d;
                        assert(before[k] == d);
                    }
                    if d == c {
                        assert(w@[w@.len() - 1] == c);
                    } else if in_window(d, center, radius as int) && (d.y < y || (d.y == y && d.x < x)) {
                        assert(before.contains(d));
                        let k = choose|k: int| 0 <= k < before.len() && before[k] == d;
                        assert(w@[k] == d);
                    }
                }
            }
        }
        y = y + 1;
        proof {
            assert forall|c: Coord| w@.contains(c) <==> (in_window(c, center, radius as int) && c.y < y) by {}
        }
    }
    w
}

} // verus!
