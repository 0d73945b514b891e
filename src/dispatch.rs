//! Outbound messages, and their fan-out to observers.
use std::collections::HashMap;
use vstd::prelude::*;

use crate::order::Coord;

verus! {

broadcast use vstd::std_specs::hash::group_hash_axioms;

/// The replicated attributes of an entity.
#[derive(Clone, Copy, Debug, PartialEq, Eq, Structural)]
pub enum AttributeKind {
    Position,
    Orientation,
    Name,
    Class,
}

impl AttributeKind {
    /// Discrete attributes go reliably; continuous ones are superseded by the
    /// next value and go unreliably.
    pub fn is_reliable(&self) -> (r: bool)
        ensures
            r == (*self == AttributeKind::Name || *self == AttributeKind::Class),
    {
        match self {
            AttributeKind::Name | AttributeKind::Class => true,
            AttributeKind::Position | AttributeKind::Orientation => false,
        }
    }
}

/// A message for one observer's client. The state that a spawn carries and
/// the value of an update are read from their owners when the message is sent.
#[derive(Clone, Copy, Debug, PartialEq, Eq, Structural)]
pub enum Message {
    LoadRegion { observer: u64, coord: Coord },
    UnloadRegion { observer: u64, coord: Coord },
    Spawn { observer: u64, entity: u64 },
    Despawn { observer: u64, entity: u64 },
    Update { observer: u64, entity: u64, attribute: AttributeKind },
}

impl Message {
    /// Whether the message needs the reliable, ordered delivery class.
    pub fn is_reliable(&self) -> (r: bool)
        ensures
            r == match *self {
                Message::Update { attribute, .. } => attribute == AttributeKind::Name || attribute == AttributeKind::Class,
                _ => true,
            },
    {
        match self {
            Message::Update { attribute, .. } => attribute.is_reliable(),
            _ => true,
        }
    }
}

/// What is said of an entity to an observer.
#[derive(Clone, Copy, Debug, PartialEq, Eq, Structural)]
pub enum Notice {
    Spawn,
    Despawn,
    Update(AttributeKind),
}

pub open spec fn message_of(o: u64, e: u64, n: Notice) -> Message {
    match n {
        Notice::Spawn => Message::Spawn { observer: o, entity: e },
        Notice::Despawn => Message::Despawn { observer: o, entity: e },
        Notice::Update(a) => Message::Update { observer: o, entity: e, attribute: a },
    }
}

fn make_message(o: u64, e: u64, n: Notice) -> (m: Message)
    ensures
        m == message_of(o, e, n),
{
    match n {
        Notice::Spawn => Message::Spawn { observer: o, entity: e },
        Notice::Despawn => Message::Despawn { observer: o, entity: e },
        Notice::Update(a) => Message::Update { observer: o, entity: e, attribute: a },
    }
}

/// Observer `o` controls entity `e`, by the table of controlled entities `ctl`.
pub open spec fn controls(ctl: Map<u64, u64>, o: u64, e: u64) -> bool {
    ctl.contains_key(o) && ctl[o] == e
}

/// `m` tells an observer about the entity it controls itself.
pub open spec fn is_self_notice(m: Message, ctl: Map<u64, u64>) -> bool {
    match m {
        Message::Spawn { observer, entity } => controls(ctl, observer, entity),
        Message::Despawn { observer, entity } => controls(ctl, observer, entity),
        Message::Update { observer, entity, .. } => controls(ctl, observer, entity),
        _ => false,
    }
}

/// Notice `n` about entity `e` for each of `observers` but the one that controls `e`.
pub open spec fn to_observers(e: u64, observers: Seq<u64>, ctl: Map<u64, u64>, n: Notice) -> Seq<Message> {
    observers.filter(|o: u64| !controls(ctl, o, e)).map_values(|o: u64| message_of(o, e, n))
}

/// Notice `n` for observer `o` about each of `entities` but the one it controls.
pub open spec fn to_observer(o: u64, entities: Seq<u64>, ctl: Map<u64, u64>, n: Notice) -> Seq<Message> {
    entities.filter(|e: u64| !controls(ctl, o, e)).map_values(|e: u64| message_of(o, e, n))
}

/// No message of a fan-out goes to an observer about the entity it controls.
pub proof fn lemma_fan_out_skips_self(o: u64, e: u64, s: Seq<u64>, ctl: Map<u64, u64>, n: Notice)
    ensures
        forall|i: int| 0 <= i < to_observers(e, s, ctl, n).len() ==> !is_self_notice(#[trigger] to_observers(e, s, ctl, n)[i], ctl),
        forall|i: int| 0 <= i < to_observer(o, s, ctl, n).len() ==> !is_self_notice(#[trigger] to_observer(o, s, ctl, n)[i], ctl),
{
    let f1 = s.filter(|x: u64| !controls(ctl, x, e));
    let f2 = s.filter(|x: u64| !controls(ctl, o, x));
    assert forall|i: int| 0 <= i < to_observers(e, s, ctl, n).len() implies !is_self_notice(#[trigger] to_observers(e, s, ctl, n)[i], ctl) by {
        s.lemma_filter_pred(|x: u64| !controls(ctl, x, e), i);
    }
    assert forall|i: int| 0 <= i < to_observer(o, s, ctl, n).len() implies !is_self_notice(#[trigger] to_observer(o, s, ctl, n)[i], ctl) by {
        s.lemma_filter_pred(|x: u64| !controls(ctl, o, x), i);
    }
}

/// Appends notice `n` about `e` for each of `observers` but the one controlling `e`.
pub fn fan_out_entity(e: u64, observers: &Vec<u64>, ctl: &HashMap<u64, u64>, n: Notice, out: &mut Vec<Message>)
    ensures
        final(out)@ == old(out)@ + to_observers(e, observers@, ctl@, n),
{
    let ghost start = old(out)@;
    let ghost pred = |o: u64| !controls(ctl@, o, e);
    let ghost f = |o: u64| message_of(o, e, n);
    let mut i: usize = 0;
    while i < observers.len()
        invariant
            0 <= i <= observers.len(),
            pred == (|o: u64| !controls(ctl@, o, e)),
            f == (|o: u64| message_of(o, e, n)),
            out@ == start + observers@.take(i as int).filter(pred).map_values(f),
        decreases observers.len() - i,
    {
        let o = observers[i];
        let ghost t = observers@.take(i as int);
        assert(observers@.take(i + 1) == t.push(o));
        proof {
            t.lemma_filter_push(o, pred);
        }
        let own = match ctl.get(&o) {
            Some(c) => *c == e,
            None => false,
        };
        if !own {
            let m = make_message(o, e, n);
            out.push(m);
            assert(t.push(o).filter(pred).map_values(f) =~= t.filter(pred).map_values(f).push(m));
        }
        i = i + 1;
        assert(out@ =~= start + observers@.take(i as int).filter(pred).map_values(f));
    }
    assert(observers@.take(i as int) =~= observers@);
}

/// Appends notice `n` for observer `o` about each of `entities` but the one it controls.
pub fn fan_out_observer(o: u64, entities: &Vec<u64>, ctl: &HashMap<u64, u64>, n: Notice, out: &mut Vec<Message>)
    ensures
        final(out)@ == old(out)@ + to_observer(o, entities@, ctl@, n),
{
    let ghost start = old(out)@;
    let ghost pred = |e: u64| !controls(ctl@, o, e);
    let ghost f = |e: u64| message_of(o, e, n);
    let own = match ctl.get(&o) {
        Some(c) => Some(*c),
        None => None,
    };
    let mut i: usize = 0;
    while i < entities.len()
        invariant
            0 <= i <= entities.len(),
            own == (if ctl@.contains_key(o) { Some(ctl@[o]) } else { None::<u64> }),
            pred == (|e: u64| !controls(ctl@, o, e)),
            f == (|e: u64| message_of(o, e, n)),
            out@ == start + entities@.take(i as int).filter(pred).map_values(f),
        decreases entities.len() - i,
    {
        let e = entities[i];
        let ghost t = entities@.take(i as int);
        assert(entities@.take(i + 1) == t.push(e));
        proof {
            t.lemma_filter_push(e, pred);
        }
        if own != Some(e) {
            let m = make_message(o, e, n);
            out.push(m);
            assert(t.push(e).filter(pred).map_values(f) =~= t.filter(pred).map_values(f).push(m));
        }
        i = i + 1;
        assert(out@ =~= start + entities@.take(i as int).filter(pred).map_values(f));
    }
    assert(entities@.take(i as int) =~= entities@);
}

} // verus!
