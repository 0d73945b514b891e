//! The interest-management engine: occupancy, observers, view windows and
//! the messages that keep every client's view in step.
use std::collections::HashMap;
use vstd::prelude::*;

use crate::dispatch::{
    fan_out_entity, fan_out_observer, to_observer, to_observers, AttributeKind, Message, Notice,
};
use crate::observers::{adds_observer, removes_observer, ObserverRegistry};
use crate::occupancy::{occupant_removed, occupant_updated, partition_emptied, OccupancyTracker};
use crate::order::{strictly_ascending, Coord};
use crate::partition_index::{one_place_each, PartitionIndex};
use crate::sorted_diff::{diff_sorted, lemma_minus_contains, minus};
use crate::window::{in_window, window, window_fits};

verus! {

broadcast use vstd::std_specs::hash::group_hash_axioms;

/// What an entity's arrival in `p` (from `prev`) tells the observers.
pub open spec fn move_messages(e: u64, prev: Option<u64>, p: u64, reg: ObserverRegistry, ctl: Map<u64, u64>) -> Seq<Message> {
    match prev {
        None => to_observers(e, reg.observers(p), ctl, Notice::Spawn),
        Some(q) => if q == p {
            Seq::empty()
        } else {
            to_observers(e, minus(reg.observers(q), reg.observers(p)), ctl, Notice::Despawn)
                + to_observers(e, minus(reg.observers(p), reg.observers(q)), ctl, Notice::Spawn)
        },
    }
}

/// What observer `o` loading partition `p` at `c` is told.
pub open spec fn load_messages(o: u64, p: u64, c: Coord, reg: ObserverRegistry, occ: OccupancyTracker, ctl: Map<u64, u64>) -> Seq<Message> {
    if reg.observers(p).contains(o) {
        Seq::empty()
    } else {
        seq![Message::LoadRegion { observer: o, coord: c }] + to_observer(o, occ.occupants(p), ctl, Notice::Spawn)
    }
}

/// What observer `o` unloading partition `p` at `c` is told.
pub open spec fn unload_messages(o: u64, p: u64, c: Coord, reg: ObserverRegistry, occ: OccupancyTracker, ctl: Map<u64, u64>) -> Seq<Message> {
    if reg.observers(p).contains(o) {
        seq![Message::UnloadRegion { observer: o, coord: c }] + to_observer(o, occ.occupants(p), ctl, Notice::Despawn)
    } else {
        Seq::empty()
    }
}

/// What observer `o` is told when it loads (`load`) or unloads the
/// partition at `c`; nothing when no partition stands there.
pub open spec fn step_messages(o: u64, c: Coord, load: bool, idx: Map<Coord, u64>, reg: ObserverRegistry, occ: OccupancyTracker, ctl: Map<u64, u64>) -> Seq<Message> {
    if !idx.contains_key(c) {
        Seq::empty()
    } else if load {
        load_messages(o, idx[c], c, reg, occ, ctl)
    } else {
        unload_messages(o, idx[c], c, reg, occ, ctl)
    }
}

/// The messages of loading (or unloading) each of `cs` in turn.
pub open spec fn sweep_messages(o: u64, cs: Seq<Coord>, load: bool, idx: Map<Coord, u64>, reg: ObserverRegistry, occ: OccupancyTracker, ctl: Map<u64, u64>) -> Seq<Message>
    decreases cs.len(),
{
    if cs.len() == 0 {
        Seq::empty()
    } else {
        sweep_messages(o, cs.drop_last(), load, idx, reg, occ, ctl) + step_messages(o, cs.last(), load, idx, reg, occ, ctl)
    }
}

/// Some coordinate of `cs` holds partition `p`.
pub open spec fn reaches(cs: Seq<Coord>, idx: Map<Coord, u64>, p: u64) -> bool {
    exists|c: Coord| cs.contains(c) && idx.contains_key(c) && idx[c] == p
}

/// `post` is `pre` with `o` added to (`load`) or taken from the partitions at
/// the coordinates `cs`, and nothing else changed.
pub open spec fn swept(pre: ObserverRegistry, post: ObserverRegistry, o: u64, cs: Seq<Coord>, load: bool, idx: Map<Coord, u64>) -> bool {
    &&& forall|c: Coord, x: u64|
        #![trigger cs.contains(c), post.observers(idx[c]).contains(x)]
        cs.contains(c) && idx.contains_key(c) ==> (post.observers(idx[c]).contains(x) <==> if load {
            pre.observers(idx[c]).contains(x) || x == o
        } else {
            pre.observers(idx[c]).contains(x) && x != o
        })
    &&& forall|p: u64| !reaches(cs, idx, p) ==> #[trigger] post.observers(p) == pre.observers(p)
}

/// The despawns of tearing a partition down: each of `es` for each of `obs`.
pub open spec fn teardown_messages(es: Seq<u64>, obs: Seq<u64>, ctl: Map<u64, u64>) -> Seq<Message>
    decreases es.len(),
{
    if es.len() == 0 {
        Seq::empty()
    } else {
        teardown_messages(es.drop_last(), obs, ctl) + to_observers(es.last(), obs, ctl, Notice::Despawn)
    }
}

/// `post` is `pre` with `o` added to the partitions at `enter` and taken
/// from those at `leave`, and nothing else changed.
pub open spec fn rewindowed(pre: ObserverRegistry, post: ObserverRegistry, o: u64, enter: Seq<Coord>, leave: Seq<Coord>, idx: Map<Coord, u64>) -> bool {
    &&& forall|c: Coord, x: u64|
        #![trigger enter.contains(c), post.observers(idx[c]).contains(x)]
        enter.contains(c) && idx.contains_key(c) ==> (post.observers(idx[c]).contains(x) <==> (pre.observers(idx[c]).contains(x) || x == o))
    &&& forall|c: Coord, x: u64|
        #![trigger leave.contains(c), post.observers(idx[c]).contains(x)]
        leave.contains(c) && idx.contains_key(c) ==> (post.observers(idx[c]).contains(x) <==> (pre.observers(idx[c]).contains(x) && x != o))
    &&& forall|p: u64| !reaches(enter, idx, p) && !reaches(leave, idx, p) ==> #[trigger] post.observers(p) == pre.observers(p)
}

/// Sweeping the same coordinates over registries that agree on their
/// partitions says the same.
proof fn lemma_sweep_frame(o: u64, cs: Seq<Coord>, load: bool, idx: Map<Coord, u64>, r1: ObserverRegistry, r2: ObserverRegistry, occ: OccupancyTracker, ctl: Map<u64, u64>)
    requires
        forall|c: Coord| cs.contains(c) && idx.contains_key(c) ==> r1.observers(idx[c]) == r2.observers(idx[c]),
    ensures
        sweep_messages(o, cs, load, idx, r1, occ, ctl) == sweep_messages(o, cs, load, idx, r2, occ, ctl),
    decreases cs.len(),
{
    if cs.len() > 0 {
        let t = cs.drop_last();
        assert forall|c: Coord| t.contains(c) && idx.contains_key(c) implies r1.observers(idx[c]) == r2.observers(idx[c]) by {
            let k = choose|k: int| 0 <= k < t.len() && t[k] == c;
            assert(cs[k] == c);
            assert(cs.contains(c));
        }
        lemma_sweep_frame(o, t, load, idx, r1, r2, occ, ctl);
        assert(cs.contains(cs.last()));
    }
}

/// The whole state of interest management for one world.
pub struct Engine {
    index: PartitionIndex,
    occupancy: OccupancyTracker,
    registry: ObserverRegistry,
    controllers: HashMap<u64, u64>,
    windows: HashMap<u64, Vec<Coord>>,
    radius: u32,
}

impl Engine {
    /// Partitions by coordinate.
    pub closed spec fn index(&self) -> Map<Coord, u64> {
        self.index@
    }

    pub closed spec fn occupancy(&self) -> OccupancyTracker {
        self.occupancy
    }

    pub closed spec fn registry(&self) -> ObserverRegistry {
        self.registry
    }

    /// For each connected observer, the entity it controls.
    pub closed spec fn controllers(&self) -> Map<u64, u64> {
        self.controllers@
    }

    /// The coordinates that observer `o` has loaded, ascending.
    pub closed spec fn window(&self, o: u64) -> Seq<Coord> {
        if self.windows@.contains_key(o) {
            self.windows@[o]@
        } else {
            Seq::empty()
        }
    }

    /// How many partitions a window reaches on each side of its centre.
    pub closed spec fn radius(&self) -> int {
        self.radius as int
    }

    pub closed spec fn wf(&self) -> bool {
        &&& self.index.wf()
        &&& self.occupancy.wf()
        &&& self.registry.wf()
        &&& forall|o: u64| strictly_ascending(#[trigger] self.window(o))
    }

    /// What a valid engine guarantees of its parts.
    pub proof fn lemma_wf(&self)
        requires
            self.wf(),
        ensures
            self.occupancy().wf(),
            self.registry().wf(),
            one_place_each(self.index()),
            forall|o: u64| strictly_ascending(#[trigger] self.window(o)),
    {
        self.index.lemma_one_place_each();
    }

    proof fn lemma_windows_kept(pre: Engine, post: Engine)
        requires
            forall|o: u64| strictly_ascending(#[trigger] pre.window(o)),
            post.windows == pre.windows,
        ensures
            forall|o: u64| strictly_ascending(#[trigger] post.window(o)),
    {
        assert forall|o: u64| strictly_ascending(#[trigger] post.window(o)) by {
            assert(post.window(o) == pre.window(o));
        }
    }

    /// Only the windows and the controllers are the same in `self` and `other`.
    pub open spec fn same_viewers(&self, other: &Engine) -> bool {
        &&& self.controllers() == other.controllers()
        &&& forall|o: u64| #[trigger] self.window(o) == other.window(o)
        &&& self.radius() == other.radius()
    }

    /// An engine with no partition, entity or observer; windows reach
    /// `radius` partitions on each side.
    pub fn new(radius: u32) -> (r: Engine)
        ensures
            r.wf(),
            r.radius() == radius,
            r.index() == Map::<Coord, u64>::empty(),
            forall|p: u64| r.occupancy().occupants(p) == Seq::<u64>::empty(),
            forall|e: u64| r.occupancy().location(e) == None::<u64>,
            forall|p: u64| r.registry().observers(p) == Seq::<u64>::empty(),
            r.controllers() == Map::<u64, u64>::empty(),
            forall|o: u64| r.window(o) == Seq::<Coord>::empty(),
    {
        let r = Engine {
            index: PartitionIndex::new(),
            occupancy: OccupancyTracker::new(),
            registry: ObserverRegistry::new(),
            controllers: HashMap::new(),
            windows: HashMap::new(),
            radius,
        };
        assert(r.controllers() =~= Map::<u64, u64>::empty());
        r
    }

    /// Places partition `id` at `coord` (see `PartitionIndex::register`).
    pub fn register_partition(&mut self, coord: Coord, id: u64)
        requires
            old(self).wf(),
        ensures
            final(self).wf(),
            forall|c: Coord| #[trigger] final(self).index().contains_key(c) <==> (c == coord || (old(self).index().contains_key(c) && old(self).index()[c] != id)),
            forall|c: Coord| #[trigger] final(self).index().contains_key(c) ==> final(self).index()[c] == (if c == coord { id } else { old(self).index()[c] }),
            final(self).occupancy() == old(self).occupancy(),
            final(self).registry() == old(self).registry(),
            final(self).same_viewers(&*old(self)),
    {
        self.index.register(coord, id);
        proof {
            Self::lemma_windows_kept(*old(self), *self);
        }
    }

    /// Forgets the partition at `coord`.
    pub fn unregister_partition(&mut self, coord: Coord)
        requires
            old(self).wf(),
        ensures
            final(self).wf(),
            final(self).index() == old(self).index().remove(coord),
            final(self).occupancy() == old(self).occupancy(),
            final(self).registry() == old(self).registry(),
            final(self).same_viewers(&*old(self)),
    {
        self.index.unregister(coord);
        proof {
            Self::lemma_windows_kept(*old(self), *self);
        }
    }

    /// The partition at `coord`.
    pub fn lookup(&self, coord: Coord) -> (r: Option<u64>)
        ensures
            r == (if self.index().contains_key(coord) { Some(self.index()[coord]) } else { None::<u64> }),
    {
        self.index.lookup(&coord)
    }

    /// Records that observer `o` controls entity `e`: `o` is never told about `e`.
    pub fn connect_observer(&mut self, o: u64, e: u64)
        requires
            old(self).wf(),
        ensures
            final(self).wf(),
            final(self).controllers() == old(self).controllers().insert(o, e),
            final(self).index() == old(self).index(),
            final(self).occupancy() == old(self).occupancy(),
            final(self).registry() == old(self).registry(),
            forall|x: u64| #[trigger] final(self).window(x) == old(self).window(x),
    {
        self.controllers.insert(o, e);
        proof {
            Self::lemma_windows_kept(*old(self), *self);
        }
    }

    /// Moves entity `e` into partition `p`, or spawns it there if it was
    /// nowhere, and tells the observers that gain or lose sight of it.
    /// Returns the partition it was in before.
    pub fn update_occupant(&mut self, e: u64, p: u64, out: &mut Vec<Message>) -> (prev: Option<u64>)
        requires
            old(self).wf(),
        ensures
            final(self).wf(),
            occupant_updated(old(self).occupancy(), final(self).occupancy(), e, p, prev),
            final(out)@ == old(out)@ + move_messages(e, prev, p, old(self).registry(), old(self).controllers()),
            final(self).index() == old(self).index(),
            final(self).registry() == old(self).registry(),
            final(self).same_viewers(&*old(self)),
    {
        let prev = self.occupancy.update_occupant(e, p);
        match prev {
            None => {
                let obs = self.registry.observers_of(p);
                fan_out_entity(e, &obs, &self.controllers, Notice::Spawn, out);
            },
            Some(q) => {
                if q != p {
                    let from = self.registry.observers_of(q);
                    let to = self.registry.observers_of(p);
                    let (gone, came) = diff_sorted(&from, &to);
                    fan_out_entity(e, &gone, &self.controllers, Notice::Despawn, out);
                    fan_out_entity(e, &came, &self.controllers, Notice::Spawn, out);
                    assert(out@ =~= old(out)@ + move_messages(e, prev, p, self.registry(), self.controllers()));
                }
            },
        }
        proof {
            Self::lemma_windows_kept(*old(self), *self);
        }
        prev
    }

    /// Takes entity `e` out of the world and tells the observers of its
    /// partition. Returns `None`, and says nothing, when `e` was nowhere: a
    /// spawn was missed upstream.
    pub fn remove_occupant(&mut self, e: u64, out: &mut Vec<Message>) -> (prev: Option<u64>)
        requires
            old(self).wf(),
        ensures
            final(self).wf(),
            occupant_removed(old(self).occupancy(), final(self).occupancy(), e, prev),
            final(out)@ == old(out)@ + match prev {
                Some(q) => to_observers(e, old(self).registry().observers(q), old(self).controllers(), Notice::Despawn),
                None => Seq::<Message>::empty(),
            },
            final(self).index() == old(self).index(),
            final(self).registry() == old(self).registry(),
            final(self).same_viewers(&*old(self)),
    {
        let prev = self.occupancy.remove_occupant(e);
        match prev {
            Some(q) => {
                let obs = self.registry.observers_of(q);
                fan_out_entity(e, &obs, &self.controllers, Notice::Despawn, out);
            },
            None => {
                assert(out@ =~= old(out)@ + Seq::<Message>::empty());
            },
        }
        proof {
            Self::lemma_windows_kept(*old(self), *self);
        }
        prev
    }

    /// Tells the observers of entity `e`'s partition that its attribute
    /// `attribute` changed; an entity that is nowhere has no observers.
    pub fn attribute_update(&self, e: u64, attribute: AttributeKind, out: &mut Vec<Message>)
        requires
            self.wf(),
        ensures
            final(out)@ == old(out)@ + match self.occupancy().location(e) {
                Some(p) => to_observers(e, self.registry().observers(p), self.controllers(), Notice::Update(attribute)),
                None => Seq::<Message>::empty(),
            },
    {
        match self.occupancy.location_of(e) {
            Some(p) => {
                let obs = self.registry.observers_of(p);
                fan_out_entity(e, &obs, &self.controllers, Notice::Update(attribute), out);
            },
            None => {
                assert(out@ =~= old(out)@ + Seq::<Message>::empty());
            },
        }
    }

    /// Observer `o` loads partition `p`, found at `c`. The first time, the
    /// client is told to load the region and is sent every current occupant;
    /// when `o` already observes `p` nothing happens. Returns whether `o` was added.
    pub fn load_region(&mut self, o: u64, p: u64, c: Coord, out: &mut Vec<Message>) -> (r: bool)
        requires
            old(self).wf(),
        ensures
            final(self).wf(),
            adds_observer(old(self).registry(), final(self).registry(), p, o, r),
            final(out)@ == old(out)@ + load_messages(o, p, c, old(self).registry(), old(self).occupancy(), old(self).controllers()),
            final(self).index() == old(self).index(),
            final(self).occupancy() == old(self).occupancy(),
            final(self).same_viewers(&*old(self)),
    {
        let r = self.registry.add_observer(p, o);
        if r {
            out.push(Message::LoadRegion { observer: o, coord: c });
            let occupants = self.occupancy.occupants_of(p);
            fan_out_observer(o, &occupants, &self.controllers, Notice::Spawn, out);
        }
        assert(out@ =~= old(out)@ + load_messages(o, p, c, old(self).registry(), self.occupancy(), self.controllers()));
        proof {
            Self::lemma_windows_kept(*old(self), *self);
        }
        r
    }

    /// Observer `o` unloads partition `p`, found at `c`: if it observed `p`,
    /// the client is told to unload the region and every occupant is
    /// despawned for it. Returns whether `o` was removed.
    pub fn unload_region(&mut self, o: u64, p: u64, c: Coord, out: &mut Vec<Message>) -> (r: bool)
        requires
            old(self).wf(),
        ensures
            final(self).wf(),
            removes_observer(old(self).registry(), final(self).registry(), p, o, r),
            final(out)@ == old(out)@ + unload_messages(o, p, c, old(self).registry(), old(self).occupancy(), old(self).controllers()),
            final(self).index() == old(self).index(),
            final(self).occupancy() == old(self).occupancy(),
            final(self).same_viewers(&*old(self)),
    {
        let r = self.registry.remove_observer(p, o);
        if r {
            out.push(Message::UnloadRegion { observer: o, coord: c });
            let occupants = self.occupancy.occupants_of(p);
            fan_out_observer(o, &occupants, &self.controllers, Notice::Despawn, out);
        }
        assert(out@ =~= old(out)@ + unload_messages(o, p, c, old(self).registry(), self.occupancy(), self.controllers()));
        proof {
            Self::lemma_windows_kept(*old(self), *self);
        }
        r
    }

    /// Loads (or unloads) for observer `o` the partition at each of `cs`.
    fn sweep(&mut self, o: u64, cs: &Vec<Coord>, load: bool, out: &mut Vec<Message>)
        requires
            old(self).wf(),
            strictly_ascending(cs@),
        ensures
            final(self).wf(),
            final(out)@ == old(out)@ + sweep_messages(o, cs@, load, old(self).index(), old(self).registry(), old(self).occupancy(), old(self).controllers()),
            swept(old(self).registry(), final(self).registry(), o, cs@, load, old(self).index()),
            final(self).index() == old(self).index(),
            final(self).occupancy() == old(self).occupancy(),
            final(self).same_viewers(&*old(self)),
    {
        let ghost pre = *self;
        let ghost start = out@;
        let ghost idx = self.index();
        proof {
            self.lemma_wf();
        }
        let mut i: usize = 0;
        while i < cs.len()
            invariant
                self.wf(),
                pre.wf(),
                one_place_each(idx),
                idx == pre.index(),
                strictly_ascending(cs@),
                0 <= i <= cs.len(),
                self.index() == idx,
                self.occupancy() == pre.occupancy(),
                self.same_viewers(&pre),
                out@ == start + sweep_messages(o, cs@.take(i as int), load, idx, pre.registry, pre.occupancy, pre.controllers@),
                swept(pre.registry, self.registry, o, cs@.take(i as int), load, idx),
            decreases cs.len() - i,
        {
            let c = cs[i];
            let ghost t = cs@.take(i as int);
            let ghost cur = self.registry;
            proof {
                assert(cs@.take(i + 1) =~= t.push(c));
                assert(t.push(c).drop_last() =~= t);
                assert(!t.contains(c)) by {
                    if t.contains(c) {
                        let k = choose|k: int| 0 <= k < t.len() && t[k] == c;
                        assert(cs@[k] == cs@[i as int]);
                    }
                }
                if idx.contains_key(c) {
                    assert(!reaches(t, idx, idx[c])) by {
                        if reaches(t, idx, idx[c]) {
                            let d = choose|d: Coord| t.contains(d) && idx.contains_key(d) && idx[d] == idx[c];
                            assert(d == c);
                        }
                    }
                    assert(cur.observers(idx[c]) == pre.registry.observers(idx[c]));
                }
            }
            match self.index.lookup(&c) {
                Some(p) => {
                    if load {
                        self.load_region(o, p, c, out);
                    } else {
                        self.unload_region(o, p, c, out);
                    }
                },
                None => {},
            }
            i = i + 1;
            proof {
                let t2 = cs@.take(i as int);
                assert(t2 == t.push(c));
                assert(out@ =~= start + sweep_messages(o, t2, load, idx, pre.registry, pre.occupancy, pre.controllers@));
                assert forall|d: Coord, x: u64|
                    #![trigger t2.contains(d), self.registry.observers(idx[d]).contains(x)]
                    t2.contains(d) && idx.contains_key(d) implies (self.registry.observers(idx[d]).contains(x) <==> if load {
                        pre.registry.observers(idx[d]).contains(x) || x == o
                    } else {
                        pre.registry.observers(idx[d]).contains(x) && x != o
                    }) by {
                    if d != c {
                        assert(t.contains(d));
                        if idx.contains_key(c) {
                            assert(idx[d] != idx[c]);
                        }
                        assert(self.registry.observers(idx[d]) == cur.observers(idx[d]));
                        assert(cur.observers(idx[d]).contains(x) <==> if load {
                            pre.registry.observers(idx[d]).contains(x) || x == o
                        } else {
                            pre.registry.observers(idx[d]).contains(x) && x != o
                        });
                    }
                }
                assert forall|q: u64| !reaches(t2, idx, q) implies #[trigger] self.registry.observers(q) == pre.registry.observers(q) by {
                    assert(!reaches(t, idx, q)) by {
                        if reaches(t, idx, q) {
                            let d = choose|d: Coord| t.contains(d) && idx.contains_key(d) && idx[d] == q;
                            assert(t2.contains(d));
                        }
                    }
                    if idx.contains_key(c) {
                        assert(t2.contains(c));
                        assert(idx[c] != q);
                    }
                    assert(cur.observers(q) == pre.registry.observers(q));
                }
            }
        }
        proof {
            assert(cs@.take(i as int) =~= cs@);
        }
    }

    /// Takes partition `p` down: each occupant is despawned for each
    /// observer of `p`, then its occupants and observers are forgotten.
    pub fn remove_partition(&mut self, p: u64, out: &mut Vec<Message>)
        requires
            old(self).wf(),
        ensures
            final(self).wf(),
            partition_emptied(old(self).occupancy(), final(self).occupancy(), p),
            final(self).registry().observers(p) == Seq::<u64>::empty(),
            forall|q: u64| q != p ==> final(self).registry().observers(q) == old(self).registry().observers(q),
            final(out)@ == old(out)@ + teardown_messages(old(self).occupancy().occupants(p), old(self).registry().observers(p), old(self).controllers()),
            final(self).index() == old(self).index(),
            final(self).same_viewers(&*old(self)),
    {
        let ghost start = out@;
        let gone = self.occupancy.remove_partition(p);
        let obs = self.registry.observers_of(p);
        let mut i: usize = 0;
        while i < gone.len()
            invariant
                0 <= i <= gone.len(),
                out@ == start + teardown_messages(gone@.take(i as int), obs@, self.controllers@),
            decreases gone.len() - i,
        {
            fan_out_entity(gone[i], &obs, &self.controllers, Notice::Despawn, out);
            i = i + 1;
            assert(gone@.take(i as int).drop_last() =~= gone@.take(i - 1));
        }
        assert(gone@.take(i as int) =~= gone@);
        self.registry.remove_partition(p);
        proof {
            Self::lemma_windows_kept(*old(self), *self);
        }
    }

    /// Observer `o` now stands at partition coordinate `center`. Its window
    /// becomes the square around `center`; it loads the partitions that
    /// entered the window, then unloads those that left it.
    pub fn move_observer(&mut self, o: u64, center: Coord, out: &mut Vec<Message>)
        requires
            old(self).wf(),
            window_fits(center, old(self).radius()),
        ensures
            final(self).wf(),
            forall|c: Coord| final(self).window(o).contains(c) <==> in_window(c, center, old(self).radius()),
            forall|x: u64| x != o ==> #[trigger] final(self).window(x) == old(self).window(x),
            final(out)@ == old(out)@
                + sweep_messages(o, minus(final(self).window(o), old(self).window(o)), true, old(self).index(), old(self).registry(), old(self).occupancy(), old(self).controllers())
                + sweep_messages(o, minus(old(self).window(o), final(self).window(o)), false, old(self).index(), old(self).registry(), old(self).occupancy(), old(self).controllers()),
            rewindowed(old(self).registry(), final(self).registry(), o, minus(final(self).window(o), old(self).window(o)), minus(old(self).window(o), final(self).window(o)), old(self).index()),
            final(self).controllers() == old(self).controllers(),
            final(self).radius() == old(self).radius(),
            final(self).index() == old(self).index(),
            final(self).occupancy() == old(self).occupancy(),
    {
        let ghost pre = *self;
        let ghost idx = self.index();
        proof {
            self.lemma_wf();
        }
        let w = window(center, self.radius);
        let before = match self.windows.remove(&o) {
            Some(v) => v,
            None => Vec::new(),
        };
        assert(before@ == pre.window(o));
        assert forall|x: u64| #![auto] strictly_ascending(self.window(x)) by {
            if x != o {
                assert(self.window(x) == pre.window(x));
            }
        }
        let (leaving, entering) = diff_sorted(&before, &w);
        let ghost mid0 = *self;
        self.sweep(o, &entering, true, out);
        let ghost mid = *self;
        self.sweep(o, &leaving, false, out);
        let ghost mid2 = *self;
        self.windows.insert(o, w);
        proof {
            let e = entering@;
            let l = leaving@;
            assert(self.window(o) == w@);
            assert forall|x: u64| x != o implies #[trigger] self.window(x) == pre.window(x) by {
                assert(mid.window(x) == mid0.window(x));
                assert(mid2.window(x) == mid.window(x));
                assert(self.window(x) == mid2.window(x));
                assert(mid0.window(x) == pre.window(x));
            }
            assert forall|x: u64| #![auto] strictly_ascending(self.window(x)) by {
                if x != o {
                    assert(self.window(x) == pre.window(x));
                }
            }
            // A partition reached from a coordinate that left the window is
            // reached from no coordinate that entered it, and the other way round.
            assert forall|c: Coord| l.contains(c) && idx.contains_key(c) implies !reaches(e, idx, idx[c]) by {
                lemma_minus_contains(before@, w@, c);
                if reaches(e, idx, idx[c]) {
                    let d = choose|d: Coord| e.contains(d) && idx.contains_key(d) && idx[d] == idx[c];
                    lemma_minus_contains(w@, before@, d);
                    assert(d == c);
                }
            }
            assert forall|c: Coord| e.contains(c) && idx.contains_key(c) implies !reaches(l, idx, idx[c]) by {
                lemma_minus_contains(w@, before@, c);
                if reaches(l, idx, idx[c]) {
                    let d = choose|d: Coord| l.contains(d) && idx.contains_key(d) && idx[d] == idx[c];
                    lemma_minus_contains(before@, w@, d);
                    assert(d == c);
                }
            }
            assert forall|c: Coord| l.contains(c) && idx.contains_key(c) implies mid.registry.observers(idx[c]) == pre.registry.observers(idx[c]) by {
                assert(!reaches(e, idx, idx[c]));
            }
            lemma_sweep_frame(o, l, false, idx, mid.registry, pre.registry, pre.occupancy, pre.controllers@);
            assert forall|c: Coord, x: u64|
                #![trigger e.contains(c), self.registry.observers(idx[c]).contains(x)]
                e.contains(c) && idx.contains_key(c) implies (self.registry.observers(idx[c]).contains(x) <==> (pre.registry.observers(idx[c]).contains(x) || x == o)) by {
                assert(!reaches(l, idx, idx[c]));
                assert(self.registry.observers(idx[c]) == mid.registry.observers(idx[c]));
            }
            assert forall|c: Coord, x: u64|
                #![trigger l.contains(c), self.registry.observers(idx[c]).contains(x)]
                l.contains(c) && idx.contains_key(c) implies (self.registry.observers(idx[c]).contains(x) <==> (pre.registry.observers(idx[c]).contains(x) && x != o)) by {
                assert(!reaches(e, idx, idx[c]));
                assert(mid.registry.observers(idx[c]) == pre.registry.observers(idx[c]));
            }
            assert forall|q: u64| !reaches(e, idx, q) && !reaches(l, idx, q) implies #[trigger] self.registry.observers(q) == pre.registry.observers(q) by {
                assert(mid.registry.observers(q) == pre.registry.observers(q));
            }
        }
    }

    /// Observer `o` disconnects: every partition of its window is unloaded
    /// for it, and its window and controlled entity are forgotten.
    pub fn disconnect_observer(&mut self, o: u64, out: &mut Vec<Message>)
        requires
            old(self).wf(),
        ensures
            final(self).wf(),
            final(out)@ == old(out)@ + sweep_messages(o, old(self).window(o), false, old(self).index(), old(self).registry(), old(self).occupancy(), old(self).controllers()),
            swept(old(self).registry(), final(self).registry(), o, old(self).window(o), false, old(self).index()),
            final(self).window(o) == Seq::<Coord>::empty(),
            forall|x: u64| x != o ==> #[trigger] final(self).window(x) == old(self).window(x),
            final(self).controllers() == old(self).controllers().remove(o),
            final(self).radius() == old(self).radius(),
            final(self).index() == old(self).index(),
            final(self).occupancy() == old(self).occupancy(),
    {
        let ghost pre = *self;
        let before = match self.windows.remove(&o) {
            Some(v) => v,
            None => Vec::new(),
        };
        assert(before@ == pre.window(o));
        assert forall|x: u64| #![auto] strictly_ascending(self.window(x)) by {
            if x != o {
                assert(self.window(x) == pre.window(x));
            }
        }
        let ghost mid0 = *self;
        self.sweep(o, &before, false, out);
        let ghost mid = *self;
        self.controllers.remove(&o);
        proof {
            assert forall|x: u64| #![auto] self.window(x) == mid0.window(x) by {
                assert(mid.window(x) == mid0.window(x));
            }
            assert forall|x: u64| #![auto] strictly_ascending(self.window(x)) by {
                assert(self.window(x) == mid0.window(x));
            }
            assert forall|x: u64| x != o implies #[trigger] self.window(x) == pre.window(x) by {
                assert(self.window(x) == mid0.window(x));
            }
            assert(self.window(o) == mid0.window(o));
        }
    }

    /// The loaded window of observer `o`.
    pub fn window_of(&self, o: u64) -> (r: Vec<Coord>)
        ensures
            r@ == self.window(o),
    {
        let mut r: Vec<Coord> = Vec::new();
        match self.windows.get(&o) {
            Some(w) => {
                let mut i: usize = 0;
                while i < w.len()
                    invariant
                        self.windows@.contains_key(o),
                        *w == self.windows@[o],
                        0 <= i <= w.len(),
                        r@ == w@.take(i as int),
                    decreases w.len() - i,
                {
                    r.push(w[i]);
                    i = i + 1;
                    assert(r@ =~= w@.take(i as int));
                }
                assert(r@ =~= w@);
            },
            None => {
                assert(r@ =~= self.window(o));
            },
        }
        r
    }

    /// The observers of partition `p`, ascending.
    pub fn observers_of(&self, p: u64) -> (r: Vec<u64>)
        ensures
            r@ == self.registry().observers(p),
    {
        self.registry.observers_of(p)
    }

    /// The occupants of partition `p`.
    pub fn occupants_of(&self, p: u64) -> (r: Vec<u64>)
        ensures
            r@ == self.occupancy().occupants(p),
    {
        self.occupancy.occupants_of(p)
    }

    /// The partition entity `e` is in.
    pub fn location_of(&self, e: u64) -> (r: Option<u64>)
        ensures
            r == self.occupancy().location(e),
    {
        self.occupancy.location_of(e)
    }
}

} // verus!
