//! Which partition each entity occupies, and the occupants of each partition.
use std::collections::HashMap;
use vstd::prelude::*;

verus! {

broadcast use vstd::std_specs::hash::group_hash_axioms;

/// Taking out the element at `i` of a list without duplicates takes out that
/// value and no other.
proof fn lemma_remove_at(s: Seq<u64>, i: int)
    requires
        s.no_duplicates(),
        0 <= i < s.len(),
    ensures
        s.remove(i).no_duplicates(),
        forall|x: u64| #[trigger] s.remove(i).contains(x) <==> (s.contains(x) && x != s[i]),
        s.remove(i) == s.remove_value(s[i]),
{
    let t = s.remove(i);
    assert forall|x: u64| #[trigger] t.contains(x) <==> (s.contains(x) && x != s[i]) by {
        if t.contains(x) {
            let k = choose|k: int| 0 <= k < t.len() && t[k] == x;
            if k < i {
                assert(s[k] == x);
            } else {
                assert(s[k + 1] == x);
            }
        }
        if s.contains(x) && x != s[i] {
            let k = choose|k: int| 0 <= k < s.len() && s[k] == x;
            if k < i {
                assert(t[k] == x);
            } else {
                assert(t[k - 1] == x);
            }
        }
    }
    s.index_of_first_ensures(s[i]);
    match s.index_of_first(s[i]) {
        Some(j) => {
            assert(j == i);
        },
        None => {},
    }
}

/// Takes the value `e` out of `v`, which holds it at most once.
fn remove_value(v: &mut Vec<u64>, e: u64)
    requires
        old(v)@.no_duplicates(),
    ensures
        final(v)@ == old(v)@.remove_value(e),
        final(v)@.no_duplicates(),
        forall|x: u64| #[trigger] final(v)@.contains(x) <==> (old(v)@.contains(x) && x != e),
{
    let mut i: usize = 0;
    while i < v.len() && v[i] != e
        invariant
            0 <= i <= v.len(),
            forall|k: int| 0 <= k < i ==> v@[k] != e,
        decreases v.len() - i,
    {
        i = i + 1;
    }
    if i < v.len() {
        proof {
            lemma_remove_at(v@, i as int);
        }
        v.remove(i);
    } else {
        proof {
            v@.index_of_first_ensures(e);
        }
    }
}

/// What `update_occupant(e, p)` returning `prev` did to a tracker.
pub open spec fn occupant_updated(pre: OccupancyTracker, post: OccupancyTracker, e: u64, p: u64, prev: Option<u64>) -> bool {
    &&& prev == pre.location(e)
    &&& post.location(e) == Some(p)
    &&& forall|x: u64| x != e ==> post.location(x) == pre.location(x)
    &&& prev == Some(p) ==> forall|q: u64| post.occupants(q) == pre.occupants(q)
    &&& prev != Some(p) ==> post.occupants(p) == pre.occupants(p).push(e)
    &&& forall|q: u64| prev == Some(q) && q != p ==> post.occupants(q) == pre.occupants(q).remove_value(e)
    &&& forall|q: u64| q != p && prev != Some(q) ==> post.occupants(q) == pre.occupants(q)
}

/// What `remove_occupant(e)` returning `prev` did to a tracker.
pub open spec fn occupant_removed(pre: OccupancyTracker, post: OccupancyTracker, e: u64, prev: Option<u64>) -> bool {
    &&& prev == pre.location(e)
    &&& post.location(e) == None::<u64>
    &&& forall|x: u64| x != e ==> post.location(x) == pre.location(x)
    &&& forall|q: u64| prev == Some(q) ==> post.occupants(q) == pre.occupants(q).remove_value(e)
    &&& forall|q: u64| prev != Some(q) ==> post.occupants(q) == pre.occupants(q)
}

/// What `remove_partition(p)` did to a tracker.
pub open spec fn partition_emptied(pre: OccupancyTracker, post: OccupancyTracker, p: u64) -> bool {
    &&& post.occupants(p) == Seq::<u64>::empty()
    &&& forall|q: u64| q != p ==> post.occupants(q) == pre.occupants(q)
    &&& forall|x: u64| post.location(x) == (if pre.location(x) == Some(p) {
        None::<u64>
    } else {
        pre.location(x)
    })
}

/// Entities and the partitions they occupy, recorded both ways.
pub struct OccupancyTracker {
    occupants: HashMap<u64, Vec<u64>>,
    located: HashMap<u64, u64>,
}

impl OccupancyTracker {
    /// The occupants of partition `p`, in order of arrival.
    pub closed spec fn occupants(&self, p: u64) -> Seq<u64> {
        if self.occupants@.contains_key(p) {
            self.occupants@[p]@
        } else {
            Seq::empty()
        }
    }

    /// The partition that entity `e` is recorded in, if any.
    pub closed spec fn location(&self, e: u64) -> Option<u64> {
        if self.located@.contains_key(e) {
            Some(self.located@[e])
        } else {
            None
        }
    }

    /// Each occupant list is free of duplicates, and an entity is recorded in
    /// partition `p` exactly when it is among the occupants of `p`.
    pub open spec fn wf(&self) -> bool {
        &&& forall|p: u64| (#[trigger] self.occupants(p)).no_duplicates()
        &&& forall|e: u64, p: u64|
            #![trigger self.occupants(p).contains(e)]
            #![trigger self.location(e), self.occupants(p)]
            (self.location(e) == Some(p)) <==> self.occupants(p).contains(e)
    }

    pub fn new() -> (r: OccupancyTracker)
        ensures
            r.wf(),
            forall|p: u64| r.occupants(p) == Seq::<u64>::empty(),
            forall|e: u64| r.location(e) == None::<u64>,
    {
        OccupancyTracker { occupants: HashMap::new(), located: HashMap::new() }
    }

    /// Records `e` in partition `p` and returns the partition it was in before.
    /// A newcomer joins the end of the occupants of `p`; one that moves leaves
    /// its old partition; one that stays changes nothing.
    pub fn update_occupant(&mut self, e: u64, p: u64) -> (prev: Option<u64>)
        requires
            old(self).wf(),
        ensures
            final(self).wf(),
            occupant_updated(*old(self), *final(self), e, p, prev),
    {
        let ghost pre = *self;
        let ghost mut left: Seq<u64> = Seq::empty();
        let prev = self.located.insert(e, p);
        assert(prev == pre.location(e));
        match prev {
            Some(q) => {
                if q == p {
                    assert forall|x: u64| #![auto] self.location(x) == pre.location(x) by {}
                    assert forall|q: u64| #![auto] self.occupants(q) == pre.occupants(q) by {}
                    assert forall|q: u64| #![auto] self.occupants(q).no_duplicates() by {
                        assert(pre.occupants(q).no_duplicates());
                    }
                    assert forall|x: u64, q: u64| #![auto] (self.location(x) == Some(q)) <==> self.occupants(q).contains(x) by {
                        assert((pre.location(x) == Some(q)) <==> pre.occupants(q).contains(x));
                    }
                    return prev;
                }
                let mut from = match self.occupants.remove(&q) {
                    Some(v) => v,
                    None => Vec::new(),
                };
                assert(from@ == pre.occupants(q));
                remove_value(&mut from, e);
                proof {
                    left = from@;
                }
                self.occupants.insert(q, from);
                assert(self.occupants(q) == left);
            },
            None => {},
        }
        let ghost mid = *self;
        let mut to = match self.occupants.remove(&p) {
            Some(v) => v,
            None => Vec::new(),
        };
        assert(to@ == pre.occupants(p));
        assert(!to@.contains(e));
        to.push(e);
        self.occupants.insert(p, to);
        proof {
            assert(self.occupants(p) == pre.occupants(p).push(e));
            assert forall|x: u64| x != e implies self.location(x) == pre.location(x) by {}
            assert forall|q: u64| q != p && prev != Some(q) implies self.occupants(q) == pre.occupants(q) by {}
            assert forall|q: u64| prev == Some(q) && q != p implies self.occupants(q) == pre.occupants(q).remove_value(e) by {
                assert(self.occupants(q) == mid.occupants(q));
            }
            assert forall|q: u64| #![auto] self.occupants(q).no_duplicates() by {
                assert(pre.occupants(q).no_duplicates());
                if prev == Some(q) && q != p {
                    assert(self.occupants(q) == left);
                }
                if q == p {
                    let s = self.occupants(p);
                    assert forall|a: int, b: int| 0 <= a < b < s.len() implies s[a] != s[b] by {
                        if b == s.len() - 1 {
                            assert(pre.occupants(p).contains(s[a]));
                        }
                    }
                }
            }
            assert forall|x: u64, q: u64| #![auto] (self.location(x) == Some(q)) <==> self.occupants(q).contains(x) by {
                assert((pre.location(x) == Some(q)) <==> pre.occupants(q).contains(x));
                assert((pre.location(e) == Some(q)) <==> pre.occupants(q).contains(e));
                if prev == Some(q) && q != p {
                    assert(self.occupants(q) == left);
                    assert(left.contains(x) <==> (pre.occupants(q).contains(x) && x != e));
                }
                if q == p {
                    if self.occupants(p).contains(x) && x != e {
                        let k = choose|k: int| 0 <= k < self.occupants(p).len() && self.occupants(p)[k] == x;
                        assert(pre.occupants(p)[k] == x);
                    }
                    if x != e {
                        if pre.occupants(p).contains(x) {
                            let k = choose|k: int| 0 <= k < pre.occupants(p).len() && pre.occupants(p)[k] == x;
                            assert(self.occupants(p)[k] == x);
                        }
                    } else {
                        assert(self.occupants(p)[self.occupants(p).len() - 1] == e);
                    }
                }
            }
        }
        prev
    }

    /// Forgets where `e` is and returns the partition it was in.
    pub fn remove_occupant(&mut self, e: u64) -> (prev: Option<u64>)
        requires
            old(self).wf(),
        ensures
            final(self).wf(),
            occupant_removed(*old(self), *final(self), e, prev),
    {
        let ghost pre = *self;
        let prev = self.located.remove(&e);
        assert(prev == pre.location(e));
        match prev {
            Some(q) => {
                let mut from = match self.occupants.remove(&q) {
                    Some(v) => v,
                    None => Vec::new(),
                };
                assert(from@ == pre.occupants(q));
                remove_value(&mut from, e);
                self.occupants.insert(q, from);
            },
            None => {},
        }
        proof {
            assert forall|x: u64| x != e implies self.location(x) == pre.location(x) by {}
            assert forall|q: u64| prev != Some(q) implies self.occupants(q) == pre.occupants(q) by {}
            assert forall|q: u64| #![auto] self.occupants(q).no_duplicates() by {
                assert(pre.occupants(q).no_duplicates());
            }
            assert forall|x: u64, q: u64| #![auto] (self.location(x) == Some(q)) <==> self.occupants(q).contains(x) by {
                assert((pre.location(x) == Some(q)) <==> pre.occupants(q).contains(x));
            }
        }
        prev
    }

    /// Empties partition `p` and returns its former occupants, none of which
    /// is then recorded anywhere.
    pub fn remove_partition(&mut self, p: u64) -> (gone: Vec<u64>)
        requires
            old(self).wf(),
        ensures
            final(self).wf(),
            gone@ == old(self).occupants(p),
            partition_emptied(*old(self), *final(self), p),
    {
        let ghost pre = *self;
        let gone = match self.occupants.remove(&p) {
            Some(v) => v,
            None => Vec::new(),
        };
        assert(gone@ == pre.occupants(p));
        let mut i: usize = 0;
        while i < gone.len()
            invariant
                gone@ == pre.occupants(p),
                pre.wf(),
                0 <= i <= gone.len(),
                self.occupants@ == pre.occupants@.remove(p),
                forall|x: u64| #![auto] self.location(x) == (if gone@.take(i as int).contains(x) {
                    None::<u64>
                } else {
                    pre.location(x)
                }),
            decreases gone.len() - i,
        {
            let x = gone[i];
            let ghost before = *self;
            self.located.remove(&x);
            assert forall|y: u64| #![auto] self.location(y) == (if y == x { None::<u64> } else { before.location(y) }) by {}
            i = i + 1;
            proof {
                let t = gone@.take(i as int);
                assert(t == gone@.take(i - 1).push(x));
                assert forall|y: u64| #![auto] self.location(y) == (if t.contains(y) { None::<u64> } else { pre.location(y) }) by {
                    if y != x && t.contains(y) {
                        let k = choose|k: int| 0 <= k < t.len() && t[k] == y;
                        assert(gone@.take(i - 1)[k] == y);
                    }
                    if y == x {
                        assert(t[i - 1] == x);
                    }
                }
            }
        }
        proof {
            assert(gone@.take(i as int) =~= gone@);
            assert forall|x: u64| #![auto] self.location(x) == (if pre.location(x) == Some(p) { None::<u64> } else { pre.location(x) }) by {
                assert((pre.location(x) == Some(p)) <==> pre.occupants(p).contains(x));
            }
            assert forall|q: u64| #![auto] self.occupants(q).no_duplicates() by {
                assert(pre.occupants(q).no_duplicates());
            }
            assert forall|x: u64, q: u64| #![auto] (self.location(x) == Some(q)) <==> self.occupants(q).contains(x) by {
                assert((pre.location(x) == Some(q)) <==> pre.occupants(q).contains(x));
                assert((pre.location(x) == Some(p)) <==> pre.occupants(p).contains(x));
            }
        }
        gone
    }

    /// A copy of the occupants of `p`.
    pub fn occupants_of(&self, p: u64) -> (r: Vec<u64>)
        ensures
            r@ == self.occupants(p),
    {
        let mut r: Vec<u64> = Vec::new();
        match self.occupants.get(&p) {
            Some(list) => {
                let mut i: usize = 0;
                while i < list.len()
                    invariant
                        self.occupants@.contains_key(p),
                        *list == self.occupants@[p],
                        0 <= i <= list.len(),
                        r@ == list@.take(i as int),
                    decreases list.len() - i,
                {
                    r.push(list[i]);
                    i = i + 1;
                    assert(r@ =~= list@.take(i as int));
                }
                assert(r@ =~= list@);
            },
            None => {
                assert(r@ =~= self.occupants(p));
            },
        }
        r
    }

    /// The partition `e` is recorded in.
    pub fn location_of(&self, e: u64) -> (r: Option<u64>)
        ensures
            r == self.location(e),
    {
        match self.located.get(&e) {
            Some(p) => Some(*p),
            None => None,
        }
    }
}

} // verus!
