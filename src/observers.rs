//! Which observers have each partition loaded.
use std::collections::HashMap;
use vstd::prelude::*;

use crate::order::strictly_ascending;

verus! {

broadcast use vstd::std_specs::hash::group_hash_axioms;

/// For every partition, the observers that have it loaded, kept strictly
/// ascending so that membership tests and diffs stay cheap.
pub struct ObserverRegistry {
    lists: HashMap<u64, Vec<u64>>,
}

/// What one call of `add_observer(p, o)` that returned `r` did to a registry.
pub open spec fn adds_observer(pre: ObserverRegistry, post: ObserverRegistry, p: u64, o: u64, r: bool) -> bool {
    &&& r == !pre.observers(p).contains(o)
    &&& forall|x: u64| post.observers(p).contains(x) <==> (pre.observers(p).contains(x) || x == o)
    &&& !r ==> post.observers(p) == pre.observers(p)
    &&& forall|q: u64| q != p ==> post.observers(q) == pre.observers(q)
}

/// What one call of `remove_observer(p, o)` that returned `r` did to a registry.
pub open spec fn removes_observer(pre: ObserverRegistry, post: ObserverRegistry, p: u64, o: u64, r: bool) -> bool {
    &&& r == pre.observers(p).contains(o)
    &&& forall|x: u64| post.observers(p).contains(x) <==> (pre.observers(p).contains(x) && x != o)
    &&& !r ==> post.observers(p) == pre.observers(p)
    &&& forall|q: u64| q != p ==> post.observers(q) == pre.observers(q)
}

impl ObserverRegistry {
    /// The observers of partition `p`, ascending; none for an unknown partition.
    pub closed spec fn observers(&self, p: u64) -> Seq<u64> {
        if self.lists@.contains_key(p) {
            self.lists@[p]@
        } else {
            Seq::empty()
        }
    }

    /// Every observer list is strictly ascending, hence free of duplicates.
    pub open spec fn wf(&self) -> bool {
        forall|p: u64| strictly_ascending(#[trigger] self.observers(p))
    }

    pub fn new() -> (r: ObserverRegistry)
        ensures
            r.wf(),
            forall|p: u64| r.observers(p) == Seq::<u64>::empty(),
    {
        ObserverRegistry { lists: HashMap::new() }
    }

    /// Inserts `o` at its place in the list of `p`. Returns whether it was
    /// missing; when it was already there the list is left as it is.
    pub fn add_observer(&mut self, p: u64, o: u64) -> (r: bool)
        requires
            old(self).wf(),
        ensures
            final(self).wf(),
            adds_observer(*old(self), *final(self), p, o, r),
    {
        let ghost pre = *self;
        let mut list = match self.lists.remove(&p) {
            Some(l) => l,
            None => Vec::new(),
        };
        assert(list@ == pre.observers(p));
        let mut idx: usize = 0;
        while idx < list.len() && list[idx] < o
            invariant
                list@ == pre.observers(p),
                strictly_ascending(list@),
                0 <= idx <= list.len(),
                forall|k: int| 0 <= k < idx ==> list@[k] < o,
            decreases list.len() - idx,
        {
            idx = idx + 1;
        }
        if idx < list.len() && list[idx] == o {
            assert(pre.observers(p)[idx as int] == o);
            self.lists.insert(p, list);
            assert(self.observers(p) == pre.observers(p));
            assert forall|q: u64| q != p implies self.observers(q) == pre.observers(q) by {}
                assert forall|q: u64| #![auto] strictly_ascending(self.observers(q)) by {
                    if q != p {
                        assert(self.observers(q) == pre.observers(q));
                    }
                }
            return false;
        }
        proof {
            assert forall|k: int| 0 <= k < list@.len() implies list@[k] != o by {
                if k >= idx {
                    assert(list@[idx as int] <= list@[k]);
                }
            }
            assert(!pre.observers(p).contains(o));
        }
        list.insert(idx, o);
        assert(strictly_ascending(list@)) by {
            assert forall|a: int, b: int| 0 <= a < b < list@.len() implies (#[trigger] list@[a]) < (#[trigger] list@[b]) by {
                let s = pre.observers(p);
                if b < idx {
                    assert(list@[a] == s[a] && list@[b] == s[b]);
                } else if b == idx {
                    assert(list@[a] == s[a]);
                } else if a < idx {
                    assert(list@[a] == s[a] && list@[b] == s[b - 1]);
                    assert(s[b - 1] >= s[idx as int]);
                } else if a == idx {
                    assert(list@[b] == s[b - 1]);
                    assert(s[b - 1] >= s[idx as int]);
                } else {
                    assert(list@[a] == s[a - 1] && list@[b] == s[b - 1]);
                }
            }
        }
        self.lists.insert(p, list);
        proof {
            let s = pre.observers(p);
            assert(self.observers(p) == s.insert(idx as int, o));
            assert forall|x: u64| self.observers(p).contains(x) <==> (s.contains(x) || x == o) by {
                if s.contains(x) {
                    let k = choose|k: int| 0 <= k < s.len() && s[k] == x;
                    if k < idx {
                        assert(self.observers(p)[k] == x);
                    } else {
                        assert(self.observers(p)[k + 1] == x);
                    }
                }
                if x == o {
                    assert(self.observers(p)[idx as int] == x);
                }
                if self.observers(p).contains(x) {
                    let k = choose|k: int| 0 <= k < self.observers(p).len() && self.observers(p)[k] == x;
                    if k < idx {
                        assert(s[k] == x);
                    } else if k > idx {
                        assert(s[k - 1] == x);
                    }
                }
            }
            assert forall|q: u64| q != p implies self.observers(q) == pre.observers(q) by {}
                assert forall|q: u64| #![auto] strictly_ascending(self.observers(q)) by {
                    if q != p {
                        assert(self.observers(q) == pre.observers(q));
                    }
                }
        }
        true
    }

    /// Takes `o` out of the list of `p`. Returns whether it was there.
    pub fn remove_observer(&mut self, p: u64, o: u64) -> (r: bool)
        requires
            old(self).wf(),
        ensures
            final(self).wf(),
            removes_observer(*old(self), *final(self), p, o, r),
    {
        let ghost pre = *self;
        let mut list = match self.lists.remove(&p) {
            Some(l) => l,
            None => Vec::new(),
        };
        let ghost s = pre.observers(p);
        assert(list@ == s);
        let mut idx: usize = 0;
        while idx < list.len() && list[idx] != o
            invariant
                list@ == s,
                strictly_ascending(s),
                0 <= idx <= list.len(),
                forall|k: int| 0 <= k < idx ==> s[k] != o,
            decreases list.len() - idx,
        {
            idx = idx + 1;
        }
        if idx == list.len() {
            self.lists.insert(p, list);
            proof {
                assert(self.observers(p) == s);
                assert forall|q: u64| q != p implies self.observers(q) == pre.observers(q) by {}
                assert forall|q: u64| #![auto] strictly_ascending(self.observers(q)) by {
                    if q != p {
                        assert(self.observers(q) == pre.observers(q));
                    }
                }
            }
            return false;
        }
        list.remove(idx);
        proof {
            assert forall|a: int, b: int| 0 <= a < b < list@.len() implies (#[trigger] list@[a]) < (#[trigger] list@[b]) by {
                if b < idx {
                } else if a < idx {
                    assert(list@[b] == s[b + 1]);
                } else {
                    assert(list@[a] == s[a + 1] && list@[b] == s[b + 1]);
                }
            }
        }
        self.lists.insert(p, list);
        proof {
            let t = self.observers(p);
            assert(t == s.remove(idx as int));
            assert forall|x: u64| t.contains(x) <==> (s.contains(x) && x != o) by {
                if s.contains(x) && x != o {
                    let k = choose|k: int| 0 <= k < s.len() && s[k] == x;
                    if k < idx {
                        assert(t[k] == x);
                    } else {
                        assert(t[k - 1] == x);
                    }
                }
                if t.contains(x) {
                    let k = choose|k: int| 0 <= k < t.len() && t[k] == x;
                    if k < idx {
                        assert(s[k] == x);
                    } else {
                        assert(s[k + 1] == x);
                        assert(s[idx as int] < s[k + 1]);
                    }
                }
            }
            assert(s.contains(o)) by {
                assert(s[idx as int] == o);
            }
            assert forall|q: u64| q != p implies self.observers(q) == pre.observers(q) by {}
                assert forall|q: u64| #![auto] strictly_ascending(self.observers(q)) by {
                    if q != p {
                        assert(self.observers(q) == pre.observers(q));
                    }
                }
        }
        true
    }

    /// A copy of the observer list of `p`.
    pub fn observers_of(&self, p: u64) -> (r: Vec<u64>)
        ensures
            r@ == self.observers(p),
    {
        let mut r: Vec<u64> = Vec::new();
        match self.lists.get(&p) {
            Some(list) => {
                let mut i: usize = 0;
                while i < list.len()
                    invariant
                        self.lists@.contains_key(p),
                        *list == self.lists@[p],
                        0 <= i <= list.len(),
                        r@ == list@.take(i as int),
                    decreases list.len() - i,
                {
                    r.push(list[i]);
                    i = i + 1;
                    assert(r@ =~= list@.take(i as int));
                }
                assert(r@ =~= list@);
            },
            None => {
                assert(r@ =~= self.observers(p));
            },
        }
        r
    }

    /// Forgets the list of `p`, as when the partition itself is torn down.
    pub fn remove_partition(&mut self, p: u64)
        requires
            old(self).wf(),
        ensures
            final(self).wf(),
            final(self).observers(p) == Seq::<u64>::empty(),
            forall|q: u64| q != p ==> final(self).observers(q) == old(self).observers(q),
    {
        self.lists.remove(&p);
        assert forall|q: u64| #![auto] strictly_ascending(self.observers(q)) by {
            if q != p {
                assert(self.observers(q) == old(self).observers(q));
            }
        }
    }
}

} // verus!
