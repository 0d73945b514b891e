//! Properties that hold of every state and every operation of the engine.
use vstd::prelude::*;

use crate::dispatch::{
    controls, is_self_notice, lemma_fan_out_skips_self, message_of, to_observer, to_observers,
    Message, Notice,
};
use crate::engine::{
    load_messages, move_messages, reaches, rewindowed, step_messages, swept, sweep_messages,
    teardown_messages, unload_messages, Engine,
};
use crate::observers::{adds_observer, removes_observer, ObserverRegistry};
use crate::occupancy::{occupant_removed, occupant_updated, partition_emptied, OccupancyTracker};
use crate::order::{strictly_ascending, Coord};
use crate::partition_index::one_place_each;
use crate::sorted_diff::{lemma_minus_contains, minus};

verus! {

/// No message of `ms` tells an observer about the entity it controls.
pub open spec fn free_of_self_notices(ms: Seq<Message>, ctl: Map<u64, u64>) -> bool {
    forall|i: int| 0 <= i < ms.len() ==> !is_self_notice(#[trigger] ms[i], ctl)
}

/// In a valid engine every observer list is strictly ascending, so free of
/// duplicates; each operation keeps the engine valid.
pub proof fn law_observer_lists_sorted(engine: Engine, p: u64)
    requires
        engine.wf(),
    ensures
        strictly_ascending(engine.registry().observers(p)),
        engine.registry().observers(p).no_duplicates(),
{
    engine.lemma_wf();
    let s = engine.registry().observers(p);
    assert(strictly_ascending(s));
    assert forall|i: int, j: int| 0 <= i < s.len() && 0 <= j < s.len() && i != j implies s[i] != s[j] by {
        if i < j {
            assert(s[i] < s[j]);
        } else {
            assert(s[j] < s[i]);
        }
    }
}

/// In a valid engine an entity is recorded in partition `p` exactly when it
/// is one of the occupants of `p`; each operation keeps the engine valid.
pub proof fn law_occupancy_bijection(engine: Engine, e: u64, p: u64)
    requires
        engine.wf(),
    ensures
        (engine.occupancy().location(e) == Some(p)) <==> engine.occupancy().occupants(p).contains(e),
{
    engine.lemma_wf();
    let occ = engine.occupancy();
    assert((occ.location(e) == Some(p)) <==> occ.occupants(p).contains(e));
}

proof fn lemma_join_clean(a: Seq<Message>, b: Seq<Message>, ctl: Map<u64, u64>)
    requires
        free_of_self_notices(a, ctl),
        free_of_self_notices(b, ctl),
    ensures
        free_of_self_notices(a + b, ctl),
{
    assert forall|i: int| 0 <= i < (a + b).len() implies !is_self_notice(#[trigger] (a + b)[i], ctl) by {
        if i >= a.len() {
            assert((a + b)[i] == b[i - a.len()]);
        }
    }
}

proof fn lemma_to_observers_clean(e: u64, s: Seq<u64>, ctl: Map<u64, u64>, n: Notice)
    ensures
        free_of_self_notices(to_observers(e, s, ctl, n), ctl),
        forall|o: u64| free_of_self_notices(#[trigger] to_observer(o, s, ctl, n), ctl),
{
    lemma_fan_out_skips_self(0, e, s, ctl, n);
    assert forall|o: u64| free_of_self_notices(#[trigger] to_observer(o, s, ctl, n), ctl) by {
        lemma_fan_out_skips_self(o, e, s, ctl, n);
    }
}

proof fn lemma_load_clean(o: u64, p: u64, c: Coord, load: bool, reg: ObserverRegistry, occ: OccupancyTracker, ctl: Map<u64, u64>)
    ensures
        free_of_self_notices(load_messages(o, p, c, reg, occ, ctl), ctl),
        free_of_self_notices(unload_messages(o, p, c, reg, occ, ctl), ctl),
{
    lemma_to_observers_clean(0, occ.occupants(p), ctl, Notice::Spawn);
    lemma_to_observers_clean(0, occ.occupants(p), ctl, Notice::Despawn);
    let l = seq![Message::LoadRegion { observer: o, coord: c }];
    let u = seq![Message::UnloadRegion { observer: o, coord: c }];
    assert(free_of_self_notices(l, ctl));
    assert(free_of_self_notices(u, ctl));
    lemma_join_clean(l, to_observer(o, occ.occupants(p), ctl, Notice::Spawn), ctl);
    lemma_join_clean(u, to_observer(o, occ.occupants(p), ctl, Notice::Despawn), ctl);
}

/// An observer is never told about the entity it controls: not when an
/// entity arrives, moves or leaves, not when a partition is loaded, unloaded
/// or torn down, and not when a window moves or its observer disconnects.
pub proof fn law_no_self_observation(
    o: u64,
    e: u64,
    prev: Option<u64>,
    p: u64,
    c: Coord,
    cs: Seq<Coord>,
    load: bool,
    es: Seq<u64>,
    obs: Seq<u64>,
    idx: Map<Coord, u64>,
    reg: ObserverRegistry,
    occ: OccupancyTracker,
    ctl: Map<u64, u64>,
    n: Notice,
)
    ensures
        free_of_self_notices(move_messages(e, prev, p, reg, ctl), ctl),
        free_of_self_notices(to_observers(e, obs, ctl, n), ctl),
        free_of_self_notices(load_messages(o, p, c, reg, occ, ctl), ctl),
        free_of_self_notices(unload_messages(o, p, c, reg, occ, ctl), ctl),
        free_of_self_notices(sweep_messages(o, cs, load, idx, reg, occ, ctl), ctl),
        free_of_self_notices(teardown_messages(es, obs, ctl), ctl),
    decreases cs.len() + es.len(),
{
    lemma_to_observers_clean(e, obs, ctl, n);
    lemma_load_clean(o, p, c, load, reg, occ, ctl);
    match prev {
        None => {
            lemma_to_observers_clean(e, reg.observers(p), ctl, Notice::Spawn);
        },
        Some(q) => {
            if q != p {
                let gone = crate::sorted_diff::minus(reg.observers(q), reg.observers(p));
                let came = crate::sorted_diff::minus(reg.observers(p), reg.observers(q));
                lemma_to_observers_clean(e, gone, ctl, Notice::Despawn);
                lemma_to_observers_clean(e, came, ctl, Notice::Spawn);
                lemma_join_clean(to_observers(e, gone, ctl, Notice::Despawn), to_observers(e, came, ctl, Notice::Spawn), ctl);
            }
        },
    }
    if cs.len() > 0 {
        law_no_self_observation(o, e, prev, p, c, cs.drop_last(), load, Seq::empty(), obs, idx, reg, occ, ctl, n);
        let d = cs.last();
        if idx.contains_key(d) {
            lemma_load_clean(o, idx[d], d, load, reg, occ, ctl);
        }
        lemma_join_clean(
            sweep_messages(o, cs.drop_last(), load, idx, reg, occ, ctl),
            crate::engine::step_messages(o, d, load, idx, reg, occ, ctl),
            ctl,
        );
    }
    if es.len() > 0 {
        law_no_self_observation(o, e, prev, p, c, Seq::empty(), load, es.drop_last(), obs, idx, reg, occ, ctl, n);
        lemma_to_observers_clean(es.last(), obs, ctl, Notice::Despawn);
        lemma_join_clean(teardown_messages(es.drop_last(), obs, ctl), to_observers(es.last(), obs, ctl, Notice::Despawn), ctl);
    }
}

/// Adding the same observer to the same partition twice leaves one entry,
/// and only the first addition loads the partition and spawns its
/// occupants; the second says nothing.
pub proof fn law_add_observer_idempotent(
    r0: ObserverRegistry,
    r1: ObserverRegistry,
    r2: ObserverRegistry,
    p: u64,
    o: u64,
    first: bool,
    second: bool,
    c: Coord,
    occ: OccupancyTracker,
    ctl: Map<u64, u64>,
)
    requires
        r1.wf(),
        adds_observer(r0, r1, p, o, first),
        adds_observer(r1, r2, p, o, second),
    ensures
        !second,
        r2.observers(p) == r1.observers(p),
        r2.observers(p).contains(o),
        forall|i: int, j: int|
            0 <= i < r2.observers(p).len() && 0 <= j < r2.observers(p).len() && r2.observers(p)[i] == o && r2.observers(p)[j] == o ==> i == j,
        load_messages(o, p, c, r1, occ, ctl) == Seq::<Message>::empty(),
        first ==> load_messages(o, p, c, r0, occ, ctl) == seq![Message::LoadRegion { observer: o, coord: c }] + to_observer(o, occ.occupants(p), ctl, Notice::Spawn),
{
    assert(r1.observers(p).contains(o));
    let s = r1.observers(p);
    assert(strictly_ascending(s));
    assert forall|i: int, j: int| 0 <= i < s.len() && 0 <= j < s.len() && s[i] == o && s[j] == o implies i == j by {
        if i < j {
            assert(s[i] < s[j]);
        } else if j < i {
            assert(s[j] < s[i]);
        }
    }
}

/// Observer `o` is shown entity `e`: `e` stands in a partition that `o`
/// observes, and `o` does not control `e`.
pub open spec fn shown(occ: OccupancyTracker, reg: ObserverRegistry, ctl: Map<u64, u64>, o: u64, e: u64) -> bool {
    match occ.location(e) {
        Some(p) => reg.observers(p).contains(o) && !controls(ctl, o, e),
        None => false,
    }
}

/// A fan-out about `e` holds the notice for `o` exactly when `o` is listed
/// and does not control `e`, and holds nothing else.
proof fn lemma_to_observers_has(e: u64, s: Seq<u64>, ctl: Map<u64, u64>, n: Notice)
    ensures
        forall|m: Message| #[trigger] to_observers(e, s, ctl, n).contains(m) <==> exists|o: u64| s.contains(o) && !controls(ctl, o, e) && m == message_of(o, e, n),
{
    let pred = |o: u64| !controls(ctl, o, e);
    let g = |o: u64| message_of(o, e, n);
    let f = s.filter(pred);
    assert forall|m: Message| #[trigger] to_observers(e, s, ctl, n).contains(m) <==> exists|o: u64| s.contains(o) && !controls(ctl, o, e) && m == message_of(o, e, n) by {
        if to_observers(e, s, ctl, n).contains(m) {
            let i = choose|i: int| 0 <= i < f.len() && f.map_values(g)[i] == m;
            s.lemma_filter_pred(pred, i);
            s.lemma_filter_contains_rev(pred, f[i]);
            assert(f.contains(f[i]));
        }
        if exists|o: u64| s.contains(o) && !controls(ctl, o, e) && m == message_of(o, e, n) {
            let o = choose|o: u64| s.contains(o) && !controls(ctl, o, e) && m == message_of(o, e, n);
            let k = choose|k: int| 0 <= k < s.len() && s[k] == o;
            s.lemma_filter_contains(pred, k);
            let i = choose|i: int| 0 <= i < f.len() && f[i] == o;
            assert(f.map_values(g)[i] == m);
        }
    }
}

/// A fan-out to `o` holds the notice about `e` exactly when `e` is listed
/// and not controlled by `o`, and holds nothing else.
proof fn lemma_to_observer_has(o: u64, s: Seq<u64>, ctl: Map<u64, u64>, n: Notice)
    ensures
        forall|m: Message| #[trigger] to_observer(o, s, ctl, n).contains(m) <==> exists|e: u64| s.contains(e) && !controls(ctl, o, e) && m == message_of(o, e, n),
{
    let pred = |e: u64| !controls(ctl, o, e);
    let g = |e: u64| message_of(o, e, n);
    let f = s.filter(pred);
    assert forall|m: Message| #[trigger] to_observer(o, s, ctl, n).contains(m) <==> exists|e: u64| s.contains(e) && !controls(ctl, o, e) && m == message_of(o, e, n) by {
        if to_observer(o, s, ctl, n).contains(m) {
            let i = choose|i: int| 0 <= i < f.len() && f.map_values(g)[i] == m;
            s.lemma_filter_pred(pred, i);
            s.lemma_filter_contains_rev(pred, f[i]);
            assert(f.contains(f[i]));
        }
        if exists|e: u64| s.contains(e) && !controls(ctl, o, e) && m == message_of(o, e, n) {
            let e = choose|e: u64| s.contains(e) && !controls(ctl, o, e) && m == message_of(o, e, n);
            let k = choose|k: int| 0 <= k < s.len() && s[k] == e;
            s.lemma_filter_contains(pred, k);
            let i = choose|i: int| 0 <= i < f.len() && f[i] == e;
            assert(f.map_values(g)[i] == m);
        }
    }
}

proof fn lemma_join_has(a: Seq<Message>, b: Seq<Message>, m: Message)
    ensures
        (a + b).contains(m) <==> (a.contains(m) || b.contains(m)),
{
    if (a + b).contains(m) {
        let i = choose|i: int| 0 <= i < (a + b).len() && (a + b)[i] == m;
        if i >= a.len() {
            assert(b[i - a.len()] == m);
        }
    }
    if a.contains(m) {
        let i = choose|i: int| 0 <= i < a.len() && a[i] == m;
        assert((a + b)[i] == m);
    }
    if b.contains(m) {
        let i = choose|i: int| 0 <= i < b.len() && b[i] == m;
        assert((a + b)[i + a.len()] == m);
    }
}

/// When entity `e` arrives in or moves to partition `p`, an observer is sent
/// a spawn of `e` exactly when it starts to be shown `e`, and a despawn
/// exactly when it stops; nothing is said of any other entity.
pub proof fn law_move_balance(pre: OccupancyTracker, post: OccupancyTracker, reg: ObserverRegistry, ctl: Map<u64, u64>, e: u64, p: u64, prev: Option<u64>, o: u64)
    requires
        occupant_updated(pre, post, e, p, prev),
    ensures
        move_messages(e, prev, p, reg, ctl).contains(Message::Spawn { observer: o, entity: e })
            <==> (!shown(pre, reg, ctl, o, e) && shown(post, reg, ctl, o, e)),
        move_messages(e, prev, p, reg, ctl).contains(Message::Despawn { observer: o, entity: e })
            <==> (shown(pre, reg, ctl, o, e) && !shown(post, reg, ctl, o, e)),
        forall|i: int| 0 <= i < move_messages(e, prev, p, reg, ctl).len() ==> match #[trigger] move_messages(e, prev, p, reg, ctl)[i] {
            Message::Spawn { entity, .. } => entity == e,
            Message::Despawn { entity, .. } => entity == e,
            _ => false,
        },
{
    let spawn = Message::Spawn { observer: o, entity: e };
    let despawn = Message::Despawn { observer: o, entity: e };
    let ms = move_messages(e, prev, p, reg, ctl);
    match prev {
        None => {
            lemma_to_observers_has(e, reg.observers(p), ctl, Notice::Spawn);
            assert(ms.contains(spawn) ==> reg.observers(p).contains(o) && !controls(ctl, o, e));
            assert forall|i: int| 0 <= i < ms.len() implies match #[trigger] ms[i] {
                Message::Spawn { entity, .. } => entity == e,
                Message::Despawn { entity, .. } => entity == e,
                _ => false,
            } by {
                assert(ms.contains(ms[i]));
            }
        },
        Some(q) => {
            if q != p {
                let gone = minus(reg.observers(q), reg.observers(p));
                let came = minus(reg.observers(p), reg.observers(q));
                let a = to_observers(e, gone, ctl, Notice::Despawn);
                let b = to_observers(e, came, ctl, Notice::Spawn);
                lemma_to_observers_has(e, gone, ctl, Notice::Despawn);
                lemma_to_observers_has(e, came, ctl, Notice::Spawn);
                lemma_minus_contains(reg.observers(q), reg.observers(p), o);
                lemma_minus_contains(reg.observers(p), reg.observers(q), o);
                lemma_join_has(a, b, spawn);
                lemma_join_has(a, b, despawn);
                assert(a.contains(spawn) ==> gone.contains(o)) by {
                    if a.contains(spawn) {
                        let x = choose|x: u64| gone.contains(x) && !controls(ctl, x, e) && spawn == message_of(x, e, Notice::Despawn);
                    }
                }
                assert(b.contains(despawn) ==> came.contains(o)) by {
                    if b.contains(despawn) {
                        let x = choose|x: u64| came.contains(x) && !controls(ctl, x, e) && despawn == message_of(x, e, Notice::Spawn);
                    }
                }
                assert(a.contains(despawn) ==> gone.contains(o) && !controls(ctl, o, e));
                assert(b.contains(spawn) ==> came.contains(o) && !controls(ctl, o, e));
                assert forall|i: int| 0 <= i < ms.len() implies match #[trigger] ms[i] {
                    Message::Spawn { entity, .. } => entity == e,
                    Message::Despawn { entity, .. } => entity == e,
                    _ => false,
                } by {
                    lemma_join_has(a, b, ms[i]);
                    assert(ms.contains(ms[i]));
                }
            }
        },
    }
}

/// When entity `e` is removed, an observer is sent a despawn of `e` exactly
/// when it was shown `e`, and never a spawn.
pub proof fn law_removal_balance(pre: OccupancyTracker, post: OccupancyTracker, reg: ObserverRegistry, ctl: Map<u64, u64>, e: u64, prev: Option<u64>, o: u64)
    requires
        occupant_removed(pre, post, e, prev),
    ensures
        ({
            let ms = match prev {
                Some(q) => to_observers(e, reg.observers(q), ctl, Notice::Despawn),
                None => Seq::<Message>::empty(),
            };
            &&& ms.contains(Message::Despawn { observer: o, entity: e }) <==> (shown(pre, reg, ctl, o, e) && !shown(post, reg, ctl, o, e))
            &&& !ms.contains(Message::Spawn { observer: o, entity: e })
        }),
{
    match prev {
        Some(q) => {
            lemma_to_observers_has(e, reg.observers(q), ctl, Notice::Despawn);
            let ms = to_observers(e, reg.observers(q), ctl, Notice::Despawn);
            assert(ms.contains(Message::Spawn { observer: o, entity: e }) ==> false) by {
                if ms.contains(Message::Spawn { observer: o, entity: e }) {
                    let x = choose|x: u64| reg.observers(q).contains(x) && !controls(ctl, x, e) && Message::Spawn { observer: o, entity: e } == message_of(x, e, Notice::Despawn);
                }
            }
        },
        None => {},
    }
}

/// When observer `o` loads partition `p`, it is sent a spawn of an entity
/// exactly when it starts to be shown that entity, and never a despawn.
pub proof fn law_load_balance(pre: ObserverRegistry, post: ObserverRegistry, occ: OccupancyTracker, ctl: Map<u64, u64>, o: u64, p: u64, c: Coord, r: bool, e: u64)
    requires
        occ.wf(),
        adds_observer(pre, post, p, o, r),
    ensures
        load_messages(o, p, c, pre, occ, ctl).contains(Message::Spawn { observer: o, entity: e })
            <==> (!shown(occ, pre, ctl, o, e) && shown(occ, post, ctl, o, e)),
        !load_messages(o, p, c, pre, occ, ctl).contains(Message::Despawn { observer: o, entity: e }),
{
    let spawn = Message::Spawn { observer: o, entity: e };
    let despawn = Message::Despawn { observer: o, entity: e };
    assert((occ.location(e) == Some(p)) <==> occ.occupants(p).contains(e));
    if !pre.observers(p).contains(o) {
        let head = seq![Message::LoadRegion { observer: o, coord: c }];
        let tail = to_observer(o, occ.occupants(p), ctl, Notice::Spawn);
        lemma_to_observer_has(o, occ.occupants(p), ctl, Notice::Spawn);
        lemma_join_has(head, tail, spawn);
        lemma_join_has(head, tail, despawn);
        assert(!head.contains(spawn)) by {
            if head.contains(spawn) {
                assert(head[0] == spawn);
            }
        }
        assert(!head.contains(despawn)) by {
            if head.contains(despawn) {
                assert(head[0] == despawn);
            }
        }
        assert(tail.contains(despawn) ==> false) by {
            if tail.contains(despawn) {
                let x = choose|x: u64| occ.occupants(p).contains(x) && !controls(ctl, o, x) && despawn == message_of(o, x, Notice::Spawn);
            }
        }
        assert(post.observers(p).contains(o));
        match occ.location(e) {
            Some(q) => {
                if q != p {
                    assert(post.observers(q) == pre.observers(q));
                }
            },
            None => {},
        }
    } else {
        match occ.location(e) {
            Some(q) => {
                if q != p {
                    assert(post.observers(q) == pre.observers(q));
                }
            },
            None => {},
        }
    }
}

/// When observer `o` unloads partition `p`, it is sent a despawn of an
/// entity exactly when it stops being shown that entity, and never a spawn.
pub proof fn law_unload_balance(pre: ObserverRegistry, post: ObserverRegistry, occ: OccupancyTracker, ctl: Map<u64, u64>, o: u64, p: u64, c: Coord, r: bool, e: u64)
    requires
        occ.wf(),
        removes_observer(pre, post, p, o, r),
    ensures
        unload_messages(o, p, c, pre, occ, ctl).contains(Message::Despawn { observer: o, entity: e })
            <==> (shown(occ, pre, ctl, o, e) && !shown(occ, post, ctl, o, e)),
        !unload_messages(o, p, c, pre, occ, ctl).contains(Message::Spawn { observer: o, entity: e }),
{
    let spawn = Message::Spawn { observer: o, entity: e };
    let despawn = Message::Despawn { observer: o, entity: e };
    assert((occ.location(e) == Some(p)) <==> occ.occupants(p).contains(e));
    if pre.observers(p).contains(o) {
        let head = seq![Message::UnloadRegion { observer: o, coord: c }];
        let tail = to_observer(o, occ.occupants(p), ctl, Notice::Despawn);
        lemma_to_observer_has(o, occ.occupants(p), ctl, Notice::Despawn);
        lemma_join_has(head, tail, spawn);
        lemma_join_has(head, tail, despawn);
        assert(!head.contains(spawn)) by {
            if head.contains(spawn) {
                assert(head[0] == spawn);
            }
        }
        assert(!head.contains(despawn)) by {
            if head.contains(despawn) {
                assert(head[0] == despawn);
            }
        }
        assert(tail.contains(spawn) ==> false) by {
            if tail.contains(spawn) {
                let x = choose|x: u64| occ.occupants(p).contains(x) && !controls(ctl, o, x) && spawn == message_of(o, x, Notice::Despawn);
            }
        }
        assert(!post.observers(p).contains(o));
        match occ.location(e) {
            Some(q) => {
                if q != p {
                    assert(post.observers(q) == pre.observers(q));
                }
            },
            None => {},
        }
    } else {
        match occ.location(e) {
            Some(q) => {
                if q != p {
                    assert(post.observers(q) == pre.observers(q));
                }
            },
            None => {},
        }
    }
}

proof fn lemma_sweep_has(o: u64, cs: Seq<Coord>, load: bool, idx: Map<Coord, u64>, reg: ObserverRegistry, occ: OccupancyTracker, ctl: Map<u64, u64>, m: Message)
    ensures
        sweep_messages(o, cs, load, idx, reg, occ, ctl).contains(m)
            <==> exists|c: Coord| cs.contains(c) && #[trigger] step_messages(o, c, load, idx, reg, occ, ctl).contains(m),
    decreases cs.len(),
{
    if cs.len() > 0 {
        let t = cs.drop_last();
        lemma_sweep_has(o, t, load, idx, reg, occ, ctl, m);
        lemma_join_has(sweep_messages(o, t, load, idx, reg, occ, ctl), step_messages(o, cs.last(), load, idx, reg, occ, ctl), m);
        assert(cs.contains(cs.last()));
        if exists|c: Coord| cs.contains(c) && #[trigger] step_messages(o, c, load, idx, reg, occ, ctl).contains(m) {
            let c = choose|c: Coord| cs.contains(c) && #[trigger] step_messages(o, c, load, idx, reg, occ, ctl).contains(m);
            if c != cs.last() {
                let k = choose|k: int| 0 <= k < cs.len() && cs[k] == c;
                assert(t[k] == c);
            }
        }
        if exists|c: Coord| t.contains(c) && #[trigger] step_messages(o, c, load, idx, reg, occ, ctl).contains(m) {
            let c = choose|c: Coord| t.contains(c) && #[trigger] step_messages(o, c, load, idx, reg, occ, ctl).contains(m);
            let k = choose|k: int| 0 <= k < t.len() && t[k] == c;
            assert(cs[k] == c);
        }
    } else {
        assert(!sweep_messages(o, cs, load, idx, reg, occ, ctl).contains(m));
    }
}

/// The spawn and the despawn of `e` that loading or unloading the partition
/// at `c` sends to `o`.
proof fn lemma_step_has(o: u64, c: Coord, load: bool, idx: Map<Coord, u64>, reg: ObserverRegistry, occ: OccupancyTracker, ctl: Map<u64, u64>, e: u64)
    ensures
        step_messages(o, c, load, idx, reg, occ, ctl).contains(Message::Spawn { observer: o, entity: e })
            <==> (idx.contains_key(c) && load && !reg.observers(idx[c]).contains(o) && occ.occupants(idx[c]).contains(e) && !controls(ctl, o, e)),
        step_messages(o, c, load, idx, reg, occ, ctl).contains(Message::Despawn { observer: o, entity: e })
            <==> (idx.contains_key(c) && !load && reg.observers(idx[c]).contains(o) && occ.occupants(idx[c]).contains(e) && !controls(ctl, o, e)),
{
    let spawn = Message::Spawn { observer: o, entity: e };
    let despawn = Message::Despawn { observer: o, entity: e };
    if idx.contains_key(c) {
        let p = idx[c];
        let n = if load { Notice::Spawn } else { Notice::Despawn };
        let head = if load {
            seq![Message::LoadRegion { observer: o, coord: c }]
        } else {
            seq![Message::UnloadRegion { observer: o, coord: c }]
        };
        let tail = to_observer(o, occ.occupants(p), ctl, n);
        lemma_to_observer_has(o, occ.occupants(p), ctl, n);
        lemma_join_has(head, tail, spawn);
        lemma_join_has(head, tail, despawn);
        assert(!head.contains(spawn)) by {
            if head.contains(spawn) {
                assert(head[0] == spawn);
            }
        }
        assert(!head.contains(despawn)) by {
            if head.contains(despawn) {
                assert(head[0] == despawn);
            }
        }
        if tail.contains(spawn) {
            let x = choose|x: u64| occ.occupants(p).contains(x) && !controls(ctl, o, x) && spawn == message_of(o, x, n);
        }
        if tail.contains(despawn) {
            let x = choose|x: u64| occ.occupants(p).contains(x) && !controls(ctl, o, x) && despawn == message_of(o, x, n);
        }
    }
}

/// When observer `o`'s window moves, loading the partitions that entered it
/// and unloading those that left, `o` is sent a spawn of an entity exactly
/// when it starts to be shown that entity and a despawn exactly when it stops.
pub proof fn law_window_balance(
    pre: ObserverRegistry,
    post: ObserverRegistry,
    occ: OccupancyTracker,
    ctl: Map<u64, u64>,
    o: u64,
    enter: Seq<Coord>,
    leave: Seq<Coord>,
    idx: Map<Coord, u64>,
    e: u64,
)
    requires
        occ.wf(),
        one_place_each(idx),
        forall|c: Coord| !(enter.contains(c) && leave.contains(c)),
        rewindowed(pre, post, o, enter, leave, idx),
    ensures
        ({
            let ms = sweep_messages(o, enter, true, idx, pre, occ, ctl) + sweep_messages(o, leave, false, idx, pre, occ, ctl);
            &&& ms.contains(Message::Spawn { observer: o, entity: e }) <==> (!shown(occ, pre, ctl, o, e) && shown(occ, post, ctl, o, e))
            &&& ms.contains(Message::Despawn { observer: o, entity: e }) <==> (shown(occ, pre, ctl, o, e) && !shown(occ, post, ctl, o, e))
        }),
{
    let spawn = Message::Spawn { observer: o, entity: e };
    let despawn = Message::Despawn { observer: o, entity: e };
    let a = sweep_messages(o, enter, true, idx, pre, occ, ctl);
    let b = sweep_messages(o, leave, false, idx, pre, occ, ctl);
    lemma_join_has(a, b, spawn);
    lemma_join_has(a, b, despawn);
    lemma_sweep_has(o, enter, true, idx, pre, occ, ctl, spawn);
    lemma_sweep_has(o, enter, true, idx, pre, occ, ctl, despawn);
    lemma_sweep_has(o, leave, false, idx, pre, occ, ctl, spawn);
    lemma_sweep_has(o, leave, false, idx, pre, occ, ctl, despawn);
    assert forall|c: Coord| #![all_triggers] true implies {
        &&& step_messages(o, c, true, idx, pre, occ, ctl).contains(spawn)
            <==> (idx.contains_key(c) && !pre.observers(idx[c]).contains(o) && occ.occupants(idx[c]).contains(e) && !controls(ctl, o, e))
        &&& !step_messages(o, c, true, idx, pre, occ, ctl).contains(despawn)
        &&& step_messages(o, c, false, idx, pre, occ, ctl).contains(despawn)
            <==> (idx.contains_key(c) && pre.observers(idx[c]).contains(o) && occ.occupants(idx[c]).contains(e) && !controls(ctl, o, e))
        &&& !step_messages(o, c, false, idx, pre, occ, ctl).contains(spawn)
    } by {
        lemma_step_has(o, c, true, idx, pre, occ, ctl, e);
        lemma_step_has(o, c, false, idx, pre, occ, ctl, e);
    }
    match occ.location(e) {
        None => {
            assert forall|c: Coord| idx.contains_key(c) implies !occ.occupants(idx[c]).contains(e) by {
                assert((occ.location(e) == Some(idx[c])) <==> occ.occupants(idx[c]).contains(e));
            }
            assert(!a.contains(spawn));
            assert(!b.contains(despawn));
        },
        Some(p) => {
            assert forall|c: Coord| idx.contains_key(c) && idx[c] != p implies !occ.occupants(idx[c]).contains(e) by {
                assert((occ.location(e) == Some(idx[c])) <==> occ.occupants(idx[c]).contains(e));
            }
            assert(occ.occupants(p).contains(e));
            if reaches(enter, idx, p) {
                let c = choose|c: Coord| enter.contains(c) && idx.contains_key(c) && idx[c] == p;
                assert(!reaches(leave, idx, p)) by {
                    if reaches(leave, idx, p) {
                        let d = choose|d: Coord| leave.contains(d) && idx.contains_key(d) && idx[d] == p;
                        assert(d == c);
                    }
                }
                assert(post.observers(p).contains(o) <==> (pre.observers(p).contains(o) || o == o));
                assert(forall|x: Coord| leave.contains(x) && idx.contains_key(x) ==> idx[x] != p);
                assert(!b.contains(despawn));
                if a.contains(spawn) {
                    let d = choose|d: Coord| enter.contains(d) && #[trigger] step_messages(o, d, true, idx, pre, occ, ctl).contains(spawn);
                    assert(idx[d] == p);
                }
                if !shown(occ, pre, ctl, o, e) && shown(occ, post, ctl, o, e) {
                    assert(step_messages(o, c, true, idx, pre, occ, ctl).contains(spawn));
                }
            } else if reaches(leave, idx, p) {
                let c = choose|c: Coord| leave.contains(c) && idx.contains_key(c) && idx[c] == p;
                assert(forall|x: Coord| enter.contains(x) && idx.contains_key(x) ==> idx[x] != p);
                assert(post.observers(p).contains(o) <==> (pre.observers(p).contains(o) && o != o));
                assert(!a.contains(spawn));
                if b.contains(despawn) {
                    let d = choose|d: Coord| leave.contains(d) && #[trigger] step_messages(o, d, false, idx, pre, occ, ctl).contains(despawn);
                    assert(idx[d] == p);
                }
                if shown(occ, pre, ctl, o, e) && !shown(occ, post, ctl, o, e) {
                    assert(step_messages(o, c, false, idx, pre, occ, ctl).contains(despawn));
                }
            } else {
                assert(post.observers(p) == pre.observers(p));
                assert(forall|x: Coord| enter.contains(x) && idx.contains_key(x) ==> idx[x] != p);
                assert(forall|x: Coord| leave.contains(x) && idx.contains_key(x) ==> idx[x] != p);
                assert(!a.contains(spawn));
                assert(!b.contains(despawn));
            }
        },
    }
}

/// When observer `o` disconnects, unloading every partition of its window,
/// it is sent a despawn of an entity exactly when it stops being shown that
/// entity, and never a spawn.
pub proof fn law_disconnect_balance(
    pre: ObserverRegistry,
    post: ObserverRegistry,
    occ: OccupancyTracker,
    ctl: Map<u64, u64>,
    o: u64,
    w: Seq<Coord>,
    idx: Map<Coord, u64>,
    e: u64,
)
    requires
        occ.wf(),
        one_place_each(idx),
        swept(pre, post, o, w, false, idx),
    ensures
        sweep_messages(o, w, false, idx, pre, occ, ctl).contains(Message::Despawn { observer: o, entity: e })
            <==> (shown(occ, pre, ctl, o, e) && !shown(occ, post, ctl, o, e)),
        !sweep_messages(o, w, false, idx, pre, occ, ctl).contains(Message::Spawn { observer: o, entity: e }),
{
    let none = Seq::<Coord>::empty();
    assert forall|p: u64| !reaches(none, idx, p) && !reaches(w, idx, p) implies #[trigger] post.observers(p) == pre.observers(p) by {}
    assert(rewindowed(pre, post, o, none, w, idx));
    law_window_balance(pre, post, occ, ctl, o, none, w, idx, e);
    assert(sweep_messages(o, none, true, idx, pre, occ, ctl) + sweep_messages(o, w, false, idx, pre, occ, ctl)
        == sweep_messages(o, w, false, idx, pre, occ, ctl));
}

proof fn lemma_teardown_has(es: Seq<u64>, obs: Seq<u64>, ctl: Map<u64, u64>, o: u64, e: u64)
    ensures
        teardown_messages(es, obs, ctl).contains(Message::Despawn { observer: o, entity: e })
            <==> (es.contains(e) && obs.contains(o) && !controls(ctl, o, e)),
        !teardown_messages(es, obs, ctl).contains(Message::Spawn { observer: o, entity: e }),
    decreases es.len(),
{
    let spawn = Message::Spawn { observer: o, entity: e };
    let despawn = Message::Despawn { observer: o, entity: e };
    if es.len() > 0 {
        let t = es.drop_last();
        let x = es.last();
        let tail = to_observers(x, obs, ctl, Notice::Despawn);
        lemma_teardown_has(t, obs, ctl, o, e);
        lemma_to_observers_has(x, obs, ctl, Notice::Despawn);
        lemma_join_has(teardown_messages(t, obs, ctl), tail, spawn);
        lemma_join_has(teardown_messages(t, obs, ctl), tail, despawn);
        if tail.contains(spawn) {
            let y = choose|y: u64| obs.contains(y) && !controls(ctl, y, x) && spawn == message_of(y, x, Notice::Despawn);
        }
        if tail.contains(despawn) {
            let y = choose|y: u64| obs.contains(y) && !controls(ctl, y, x) && despawn == message_of(y, x, Notice::Despawn);
        }
        assert(es.contains(e) <==> (t.contains(e) || x == e)) by {
            if es.contains(e) && x != e {
                let k = choose|k: int| 0 <= k < es.len() && es[k] == e;
                assert(t[k] == e);
            }
            if t.contains(e) {
                let k = choose|k: int| 0 <= k < t.len() && t[k] == e;
                assert(es[k] == e);
            }
            if x == e {
                assert(es[es.len() - 1] == e);
            }
        }
    }
}

/// When partition `p` is torn down, an observer is sent a despawn of an
/// entity exactly when it stops being shown that entity, and never a spawn.
pub proof fn law_teardown_balance(
    pre: OccupancyTracker,
    post: OccupancyTracker,
    reg: ObserverRegistry,
    reg2: ObserverRegistry,
    ctl: Map<u64, u64>,
    p: u64,
    o: u64,
    e: u64,
)
    requires
        pre.wf(),
        partition_emptied(pre, post, p),
        reg2.observers(p) == Seq::<u64>::empty(),
        forall|q: u64| q != p ==> reg2.observers(q) == reg.observers(q),
    ensures
        teardown_messages(pre.occupants(p), reg.observers(p), ctl).contains(Message::Despawn { observer: o, entity: e })
            <==> (shown(pre, reg, ctl, o, e) && !shown(post, reg2, ctl, o, e)),
        !teardown_messages(pre.occupants(p), reg.observers(p), ctl).contains(Message::Spawn { observer: o, entity: e }),
{
    lemma_teardown_has(pre.occupants(p), reg.observers(p), ctl, o, e);
    assert((pre.location(e) == Some(p)) <==> pre.occupants(p).contains(e));
    match pre.location(e) {
        Some(q) => {
            if q != p {
                assert(reg2.observers(q) == reg.observers(q));
            }
        },
        None => {},
    }
}

} // verus!
