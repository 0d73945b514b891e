//! From grid coordinates to partition identifiers, one coordinate per partition.
use std::collections::HashMap;
use vstd::prelude::*;

use crate::order::{coord_key, Coord, SortKey};

verus! {

broadcast use vstd::std_specs::hash::group_hash_axioms;

/// Where a coordinate is stored in the table: its row-major key moved into
/// the range of a `u64`.
pub open spec fn slot_of(c: Coord) -> u64 {
    (c.key() + 9223372039002259456) as u64
}

proof fn lemma_slot(a: Coord, b: Coord)
    ensures
        slot_of(a) as int == a.key() + 9223372039002259456,
        slot_of(a) == slot_of(b) ==> a == b,
{
    assert((a.y + 2147483648) * 4294967296 <= 4294967295 * 4294967296) by (nonlinear_arith)
        requires
            a.y + 2147483648 <= 4294967295,
    ;
    assert((a.y + 2147483648) * 4294967296 >= 0) by (nonlinear_arith)
        requires
            a.y + 2147483648 >= 0,
    ;
    assert((b.y + 2147483648) * 4294967296 <= 4294967295 * 4294967296) by (nonlinear_arith)
        requires
            b.y + 2147483648 <= 4294967295,
    ;
    assert((b.y + 2147483648) * 4294967296 >= 0) by (nonlinear_arith)
        requires
            b.y + 2147483648 >= 0,
    ;
    Coord::lemma_key_injective(a, b);
}

fn slot(c: &Coord) -> (r: u64)
    ensures
        r == slot_of(*c),
{
    let row: u64 = (c.y as i64 + 2147483648i64) as u64;
    let col: u64 = (c.x as i64 + 2147483648i64) as u64;
    assert(row * 4294967296 <= 4294967295 * 4294967296) by (nonlinear_arith)
        requires
            row <= 4294967295,
    ;
    assert(coord_key(c.x as int, c.y as int) == c.y * 4294967296 + c.x);
    assert((c.y + 2147483648) * 4294967296 == c.y * 4294967296 + 2147483648 * 4294967296) by (nonlinear_arith);
    proof {
        lemma_slot(*c, *c);
    }
    row * 4294967296 + col
}

/// No two coordinates name the same partition.
pub open spec fn one_place_each(m: Map<Coord, u64>) -> bool {
    forall|a: Coord, b: Coord|
        #![trigger m[a], m[b]]
        m.contains_key(a) && m.contains_key(b) && m[a] == m[b] ==> a == b
}

/// The partitions of the world, each found by its grid coordinate.
pub struct PartitionIndex {
    cells: HashMap<u64, u64>,
    places: HashMap<u64, Coord>,
}

impl View for PartitionIndex {
    type V = Map<Coord, u64>;

    closed spec fn view(&self) -> Map<Coord, u64> {
        Map::new(|c: Coord| self.cells@.contains_key(slot_of(c)), |c: Coord| self.cells@[slot_of(c)])
    }
}

impl PartitionIndex {
    /// The table from coordinates and the table from partitions agree.
    pub closed spec fn wf(&self) -> bool {
        &&& forall|c: Coord| #[trigger] self.cells@.contains_key(slot_of(c)) ==> {
            &&& self.places@.contains_key(self.cells@[slot_of(c)])
            &&& self.places@[self.cells@[slot_of(c)]] == c
        }
        &&& forall|id: u64| #[trigger] self.places@.contains_key(id) ==> {
            &&& self.cells@.contains_key(slot_of(self.places@[id]))
            &&& self.cells@[slot_of(self.places@[id])] == id
        }
    }

    /// A partition is registered at one coordinate at most.
    pub proof fn lemma_one_place_each(&self)
        requires
            self.wf(),
        ensures
            one_place_each(self@),
    {
        assert forall|a: Coord, b: Coord|
            #![trigger self@[a], self@[b]]
            self@.contains_key(a) && self@.contains_key(b) && self@[a] == self@[b] implies a == b by {
            assert(self.cells@.contains_key(slot_of(a)));
            assert(self.cells@.contains_key(slot_of(b)));
        }
    }

    pub fn new() -> (r: PartitionIndex)
        ensures
            r.wf(),
            r@ == Map::<Coord, u64>::empty(),
    {
        let r = PartitionIndex { cells: HashMap::new(), places: HashMap::new() };
        assert(r@ =~= Map::<Coord, u64>::empty());
        r
    }

    /// Places partition `id` at `coord`. A partition that stood at `coord`
    /// before is dropped, and `id` leaves the coordinate it had before.
    pub fn register(&mut self, coord: Coord, id: u64)
        requires
            old(self).wf(),
        ensures
            final(self).wf(),
            forall|c: Coord| #[trigger] final(self)@.contains_key(c) <==> (c == coord || (old(self)@.contains_key(c) && old(self)@[c] != id)),
            forall|c: Coord| #[trigger] final(self)@.contains_key(c) ==> final(self)@[c] == (if c == coord { id } else { old(self)@[c] }),
    {
        let ghost pre = *self;
        let k = slot(&coord);
        match self.places.remove(&id) {
            Some(before) => {
                let kb = slot(&before);
                self.cells.remove(&kb);
            },
            None => {},
        }
        match self.cells.remove(&k) {
            Some(displaced) => {
                self.places.remove(&displaced);
            },
            None => {},
        }
        self.cells.insert(k, id);
        self.places.insert(id, coord);
        proof {
            assert forall|c: Coord| #[trigger] self@.contains_key(c) <==> (c == coord || (pre@.contains_key(c) && pre@[c] != id)) by {
                lemma_slot(c, coord);
                if pre.places@.contains_key(id) {
                    lemma_slot(c, pre.places@[id]);
                }
            }
            assert forall|c: Coord| #[trigger] self@.contains_key(c) implies self@[c] == (if c == coord { id } else { pre@[c] }) by {
                lemma_slot(c, coord);
                if pre.places@.contains_key(id) {
                    lemma_slot(c, pre.places@[id]);
                }
            }
            assert forall|c: Coord| #[trigger] self.cells@.contains_key(slot_of(c)) implies {
                &&& self.places@.contains_key(self.cells@[slot_of(c)])
                &&& self.places@[self.cells@[slot_of(c)]] == c
            } by {
                lemma_slot(c, coord);
                if pre.places@.contains_key(id) {
                    lemma_slot(c, pre.places@[id]);
                }
                if pre.cells@.contains_key(slot_of(coord)) {
                    assert(pre.places@[pre.cells@[slot_of(coord)]] == coord);
                }
            }
            assert forall|i: u64| #[trigger] self.places@.contains_key(i) implies {
                &&& self.cells@.contains_key(slot_of(self.places@[i]))
                &&& self.cells@[slot_of(self.places@[i])] == i
            } by {
                if i != id {
                    assert(pre.places@.contains_key(i));
                    let c = pre.places@[i];
                    lemma_slot(c, coord);
                    if pre.places@.contains_key(id) {
                        lemma_slot(c, pre.places@[id]);
                    }
                }
            }
        }
    }

    /// Forgets the partition at `coord`, if there is one.
    pub fn unregister(&mut self, coord: Coord)
        requires
            old(self).wf(),
        ensures
            final(self).wf(),
            final(self)@ == old(self)@.remove(coord),
    {
        let ghost pre = *self;
        let k = slot(&coord);
        match self.cells.remove(&k) {
            Some(id) => {
                self.places.remove(&id);
            },
            None => {},
        }
        proof {
            assert forall|c: Coord| #![auto] self@.contains_key(c) == pre@.remove(coord).contains_key(c)
                && (self@.contains_key(c) ==> self@[c] == pre@.remove(coord)[c]) by {
                lemma_slot(c, coord);
            }
            assert(self@ =~= pre@.remove(coord));
            assert forall|i: u64| #[trigger] self.places@.contains_key(i) implies {
                &&& self.cells@.contains_key(slot_of(self.places@[i]))
                &&& self.cells@[slot_of(self.places@[i])] == i
            } by {
                lemma_slot(pre.places@[i], coord);
            }
        }
    }

    /// The partition at `coord`, if one is registered there.
    pub fn lookup(&self, coord: &Coord) -> (r: Option<u64>)
        ensures
            r == (if self@.contains_key(*coord) { Some(self@[*coord]) } else { None::<u64> }),
    {
        let k = slot(coord);
        match self.cells.get(&k) {
            Some(id) => Some(*id),
            None => None,
        }
    }
}

} // verus!
