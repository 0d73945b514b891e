//! One-pass difference of two ascending lists.
use vstd::prelude::*;

use crate::order::{strictly_ascending, SortKey};

verus! {

/// The elements of `a` that `b` lacks, in the order of `a`.
pub open spec fn minus<V>(a: Seq<V>, b: Seq<V>) -> Seq<V> {
    a.filter(|x: V| !b.contains(x))
}

/// Walks two strictly ascending lists with one cursor each and returns
/// `(removed, added)`: the elements only in `old` and those only in `new`.
/// Each step moves at least one cursor, so the work is linear in
/// `old.len() + new.len()`.
pub fn diff_sorted<V: SortKey>(old: &Vec<V>, new: &Vec<V>) -> (r: (Vec<V>, Vec<V>))
    requires
        strictly_ascending(old@),
        strictly_ascending(new@),
    ensures
        r.0@ == minus(old@, new@),
        r.1@ == minus(new@, old@),
        strictly_ascending(r.0@),
        strictly_ascending(r.1@),
{
    let mut removed: Vec<V> = Vec::new();
    let mut added: Vec<V> = Vec::new();
    let mut i: usize = 0;
    let mut j: usize = 0;
    let ghost a = old@;
    let ghost b = new@;
    while i < old.len() || j < new.len()
        invariant
            a == old@,
            b == new@,
            strictly_ascending(a),
            strictly_ascending(b),
            0 <= i <= a.len(),
            0 <= j <= b.len(),
            removed@ == minus(a.take(i as int), b),
            added@ == minus(b.take(j as int), a),
            forall|k: int| 0 <= k < i && b.contains(#[trigger] a[k]) ==> b.take(j as int).contains(a[k]),
            forall|k: int| 0 <= k < j && a.contains(#[trigger] b[k]) ==> a.take(i as int).contains(b[k]),
            strictly_ascending(removed@),
            strictly_ascending(added@),
            i < a.len() ==> forall|k: int| 0 <= k < removed@.len() ==> (#[trigger] removed@[k]).key() < a[i as int].key(),
            j < b.len() ==> forall|k: int| 0 <= k < added@.len() ==> (#[trigger] added@[k]).key() < b[j as int].key(),
        decreases a.len() - i + b.len() - j,
    {
        let ghost i0 = i as int;
        let ghost j0 = j as int;
        proof {
            if i0 < a.len() {
                assert(a.take(i0 + 1) =~= a.take(i0).push(a[i0]));
            }
            if j0 < b.len() {
                assert(b.take(j0 + 1) =~= b.take(j0).push(b[j0]));
            }
        }
        let take_old = if i < old.len() && j < new.len() {
            let x = old[i];
            let y = new[j];
            if x.precedes(&y) {
                1u8
            } else if y.precedes(&x) {
                2u8
            } else {
                0u8
            }
        } else if i < old.len() {
            1u8
        } else {
            2u8
        };
        if take_old == 1 {
            let x = old[i];
            proof {
                // x is nowhere in `new`: not among the passed elements (they
                // are all in `old` before x), not among the rest (all larger).
                if b.contains(x) {
                    let k = choose|k: int| 0 <= k < b.len() && b[k] == x;
                    if k < j0 {
                        assert(a.contains(b[k]));
                        assert(a.take(i0).contains(b[k]));
                        let m = choose|m: int| 0 <= m < i0 && a.take(i0)[m] == b[k];
                        assert(a[m] == a[i0]);
                    } else {
                        assert(b[j0].key() <= b[k].key());
                    }
                }
                a.take(i0).lemma_filter_push(x, |v: V| !b.contains(v));
            }
            removed.push(x);
            i = i + 1;
        } else if take_old == 2 {
            let y = new[j];
            proof {
                if a.contains(y) {
                    let k = choose|k: int| 0 <= k < a.len() && a[k] == y;
                    if k < i0 {
                        assert(b.contains(a[k]));
                        assert(b.take(j0).contains(a[k]));
                        let m = choose|m: int| 0 <= m < j0 && b.take(j0)[m] == a[k];
                        assert(b[m] == b[j0]);
                    } else {
                        assert(a[i0].key() <= a[k].key());
                    }
                }
                b.take(j0).lemma_filter_push(y, |v: V| !a.contains(v));
            }
            added.push(y);
            j = j + 1;
        } else {
            proof {
                V::lemma_key_injective(a[i0], b[j0]);
                assert(a[i0] == b[j0]);
                assert(b.contains(a[i0]));
                assert(a.contains(b[j0]));
                a.take(i0).lemma_filter_push(a[i0], |v: V| !b.contains(v));
                b.take(j0).lemma_filter_push(b[j0], |v: V| !a.contains(v));
                assert(b.take(j0 + 1)[j0] == a[i0]);
                assert(a.take(i0 + 1)[i0] == b[j0]);
            }
            i = i + 1;
            j = j + 1;
        }
        proof {
            assert forall|k: int| 0 <= k < i && b.contains(#[trigger] a[k]) implies b.take(j as int).contains(a[k]) by {
                if k < i0 {
                    let m = choose|m: int| 0 <= m < j0 && b.take(j0)[m] == a[k];
                    assert(b.take(j as int)[m] == a[k]);
                }
            }
            assert forall|k: int| 0 <= k < j && a.contains(#[trigger] b[k]) implies a.take(i as int).contains(b[k]) by {
                if k < j0 {
                    let m = choose|m: int| 0 <= m < i0 && a.take(i0)[m] == b[k];
                    assert(a.take(i as int)[m] == b[k]);
                }
            }
        }
    }
    assert(a.take(a.len() as int) =~= a);
    assert(b.take(b.len() as int) =~= b);
    (removed, added)
}

/// An element is in `minus(a, b)` exactly when it is in `a` and not in `b`.
pub proof fn lemma_minus_contains<V>(a: Seq<V>, b: Seq<V>, x: V)
    ensures
        minus(a, b).contains(x) <==> (a.contains(x) && !b.contains(x)),
{
    let pred = |y: V| !b.contains(y);
    if minus(a, b).contains(x) {
        let i = choose|i: int| 0 <= i < minus(a, b).len() && minus(a, b)[i] == x;
        a.lemma_filter_pred(pred, i);
        a.lemma_filter_contains_rev(pred, x);
    }
    if a.contains(x) && !b.contains(x) {
        let i = choose|i: int| 0 <= i < a.len() && a[i] == x;
        a.lemma_filter_contains(pred, i);
    }
}

} // verus!
