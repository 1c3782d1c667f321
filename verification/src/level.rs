use vstd::prelude::*;

verus! {

use crate::{key_le, sorted_events};
use vstd::seq_lib::lemma_sorted_unique;
use vstd::multiset::Multiset;
use vstd::multiset::group_multiset_axioms;
use vstd::seq_lib::group_to_multiset_ensures;

/// One resolution step: how one event updates the per-stage anchors.
/// `anchors[s - 1]` is the timestamp at which stage `s` was first validly
/// completed, or `None` while it was not. A stage-1 event seeds the single
/// tracked attempt; a stage-s event (s > 1) completes its stage only when the
/// previous stage is anchored, this stage is not, and the delta from the
/// previous anchor stays within the window.
pub open spec fn apply_event(anchors: Seq<Option<u64>>, ev: (u64, u8), w: u64) -> Seq<Option<u64>> {
    let s = ev.1 as int;
    if s < 1 || s > anchors.len() {
        anchors
    } else if s == 1 {
        if anchors[0] is None {
            anchors.update(0, Some(ev.0))
        } else {
            anchors
        }
    } else if anchors[s - 1] is None && anchors[s - 2] is Some && anchors[s - 2]->Some_0 <= ev.0
        && ev.0 - anchors[s - 2]->Some_0 <= w {
        anchors.update(s - 1, Some(ev.0))
    } else {
        anchors
    }
}

/// The anchors after one linear pass over the whole event sequence.
pub open spec fn anchors_of(s: Seq<(u64, u8)>, n: nat, w: u64) -> Seq<Option<u64>>
    decreases s.len(),
{
    if s.len() == 0 {
        Seq::new(n, |i: int| None)
    } else {
        apply_event(anchors_of(s.drop_last(), n, w), s.last(), w)
    }
}

/// How many leading anchors, starting at position `i`, are set without a gap.
pub open spec fn leading_set_from(anchors: Seq<Option<u64>>, i: int) -> nat
    decreases anchors.len() - i,
{
    if i < 0 || i >= anchors.len() || anchors[i] is None {
        0
    } else {
        (leading_set_from(anchors, i + 1) + 1) as nat
    }
}

/// The funnel level of an event sequence processed in the given order: the
/// largest s such that stages 1..s were all anchored with no gap; 0 when stage
/// 1 never fired. A single-stage funnel short-circuits: any non-empty buffer
/// resolves to 1, with no window check.
pub open spec fn resolved_level(s: Seq<(u64, u8)>, n: nat, w: u64) -> nat {
    if n == 1 {
        if s.len() == 0 {
            0
        } else {
            1
        }
    } else {
        leading_set_from(anchors_of(s, n, w), 0)
    }
}

/// The ordering key is a total order, in the sense vstd's sorting lemmas use.
pub proof fn lemma_key_le_total_ordering()
    ensures
        vstd::relations::total_ordering(|a: (u64, u8), b: (u64, u8)| key_le(a, b)),
{
    let leq = |a: (u64, u8), b: (u64, u8)| key_le(a, b);
    assert forall|x: (u64, u8), y: (u64, u8)| #[trigger] leq(x, y) && #[trigger] leq(y, x) implies x
        == y by {
        assert(x.0 == y.0 && x.1 == y.1);
    }
    assert forall|x: (u64, u8)| #[trigger] leq(x, x) by {}
    assert forall|x: (u64, u8), y: (u64, u8), z: (u64, u8)|
        #[trigger] leq(x, y) && #[trigger] leq(y, z) implies leq(x, z) by {}
    assert forall|x: (u64, u8), y: (u64, u8)| !(#[trigger] leq(x, y)) implies leq(y, x) by {}
}

/// `sorted_events` agrees with vstd's `sorted_by` under the ordering key.
pub proof fn lemma_sorted_events_is_sorted_by(s: Seq<(u64, u8)>)
    requires
        sorted_events(s),
    ensures
        vstd::relations::sorted_by(s, |a: (u64, u8), b: (u64, u8)| key_le(a, b)),
{
}

/// Merge order is irrelevant: two sorted sequences carrying the same event
/// multiset are the same sequence, and therefore resolve to the same level.
/// Together with `lemma_merge_multisets_commute_associate` this shows that any
/// merge tree over the same partial states yields the same resolved level.
pub proof fn lemma_level_determined_by_multiset(
    s1: Seq<(u64, u8)>,
    s2: Seq<(u64, u8)>,
    n: nat,
    w: u64,
)
    requires
        sorted_events(s1),
        sorted_events(s2),
        s1.to_multiset() == s2.to_multiset(),
    ensures
        s1 == s2,
        resolved_level(s1, n, w) == resolved_level(s2, n, w),
{
    let leq = |a: (u64, u8), b: (u64, u8)| key_le(a, b);
    lemma_key_le_total_ordering();
    lemma_sorted_events_is_sorted_by(s1);
    lemma_sorted_events_is_sorted_by(s2);
    lemma_sorted_unique(s1, s2, leq);
}

/// Combining event multisets is commutative and associative, so partial states
/// may be merged pairwise in any order and any tree shape.
pub proof fn lemma_merge_multisets_commute_associate(
    a: Multiset<(u64, u8)>,
    b: Multiset<(u64, u8)>,
    c: Multiset<(u64, u8)>,
)
    ensures
        a.add(b) == b.add(a),
        a.add(b).add(c) == a.add(b.add(c)),
{
    broadcast use group_multiset_axioms;

    assert(a.add(b) =~= b.add(a));
    assert(a.add(b).add(c) =~= a.add(b.add(c)));
}

/// Merge identity: a state absorbed from an empty partial state carries the
/// same event multiset, so its sorted form and its resolved level are
/// unchanged.
pub proof fn lemma_merge_identity(s: Seq<(u64, u8)>, t: Seq<(u64, u8)>, n: nat, w: u64)
    requires
        sorted_events(s),
        sorted_events(t),
        t.to_multiset() == s.to_multiset().add(Seq::<(u64, u8)>::empty().to_multiset()),
    ensures
        t == s,
        resolved_level(t, n, w) == resolved_level(s, n, w),
{
    broadcast use group_multiset_axioms;
    broadcast use group_to_multiset_ensures;

    assert(Seq::<(u64, u8)>::empty().to_multiset() =~= Multiset::<(u64, u8)>::empty());
    assert(t.to_multiset() =~= s.to_multiset());
    lemma_level_determined_by_multiset(t, s, n, w);
}

/// Processing further events never unsets an anchor and never moves one.
pub open spec fn anchors_extend(a: Seq<Option<u64>>, b: Seq<Option<u64>>) -> bool {
    a.len() == b.len() && forall|k: int| 0 <= k < a.len() && a[k] is Some ==> b[k] == a[k]
}

proof fn lemma_apply_event_extends(a: Seq<Option<u64>>, ev: (u64, u8), w: u64)
    ensures
        anchors_extend(a, apply_event(a, ev, w)),
{
}

proof fn lemma_anchors_extend_trans(a: Seq<Option<u64>>, b: Seq<Option<u64>>, c: Seq<Option<u64>>)
    requires
        anchors_extend(a, b),
        anchors_extend(b, c),
    ensures
        anchors_extend(a, c),
{
}

proof fn lemma_anchors_of_append(s: Seq<(u64, u8)>, t: Seq<(u64, u8)>, n: nat, w: u64)
    ensures
        anchors_extend(anchors_of(s, n, w), anchors_of(s + t, n, w)),
    decreases t.len(),
{
    if t.len() == 0 {
        assert(s + t =~= s);
        assert(anchors_extend(anchors_of(s, n, w), anchors_of(s + t, n, w)));
    } else {
        let t0 = t.drop_last();
        lemma_anchors_of_append(s, t0, n, w);
        assert((s + t).drop_last() =~= s + t0);
        assert((s + t).len() > 0);
        assert((s + t).last() == t.last());
        lemma_apply_event_extends(anchors_of(s + t0, n, w), t.last(), w);
        lemma_anchors_extend_trans(
            anchors_of(s, n, w),
            anchors_of(s + t0, n, w),
            anchors_of(s + t, n, w),
        );
    }
}

proof fn lemma_leading_set_monotone(a: Seq<Option<u64>>, b: Seq<Option<u64>>, i: int)
    requires
        anchors_extend(a, b),
    ensures
        leading_set_from(a, i) <= leading_set_from(b, i),
    decreases a.len() - i,
{
    if 0 <= i < a.len() && a[i] is Some {
        lemma_leading_set_monotone(a, b, i + 1);
    }
}

/// Monotonicity: events added at the end of the pass never decrease the
/// resolved level. (This covers adding later qualifying events to a state:
/// anchors only ever gain entries as the pass continues.)
pub proof fn lemma_level_monotonic(s: Seq<(u64, u8)>, t: Seq<(u64, u8)>, n: nat, w: u64)
    ensures
        resolved_level(s, n, w) <= resolved_level(s + t, n, w),
{
    if n == 1 {
        if s.len() > 0 {
            assert((s + t).len() > 0);
        }
    } else {
        lemma_anchors_of_append(s, t, n, w);
        lemma_leading_set_monotone(anchors_of(s, n, w), anchors_of(s + t, n, w), 0);
    }
}

/// Window boundary: with stage 1 anchored at `a`, a stage-2 event at `t`
/// completes stage 2 exactly when `t - a <= w`; one unit past the window does
/// not count.
pub proof fn lemma_window_boundary(a: u64, t: u64, w: u64, n: nat)
    requires
        n >= 2,
        a <= t,
    ensures
        t - a <= w ==> resolved_level(seq![(a, 1u8), (t, 2u8)], n, w) == 2,
        t - a > w ==> resolved_level(seq![(a, 1u8), (t, 2u8)], n, w) == 1,
{
    let s = seq![(a, 1u8), (t, 2u8)];
    let base = Seq::new(n, |i: int| None::<u64>);
    assert(s.drop_last() =~= seq![(a, 1u8)]);
    assert(seq![(a, 1u8)].drop_last() =~= Seq::<(u64, u8)>::empty());
    let a1 = anchors_of(seq![(a, 1u8)], n, w);
    assert(anchors_of(Seq::<(u64, u8)>::empty(), n, w) =~= base);
    assert(a1 =~= base.update(0, Some(a)));
    let a2 = anchors_of(s, n, w);
    assert(a2 == apply_event(a1, (t, 2u8), w));
    if t - a <= w {
        assert(a2 =~= a1.update(1, Some(t)));
        assert(leading_set_from(a2, 2) == 0) by {
            if n > 2 {
                assert(a2[2] is None);
            }
        }
        assert(a2[0] == Some(a));
        assert(a2[1] == Some(t));
        assert(leading_set_from(a2, 1) == 1);
        assert(leading_set_from(a2, 0) == 2);
    } else {
        assert(a2 == a1);
        assert(a2[1] is None);
        assert(leading_set_from(a2, 1) == 0);
        assert(leading_set_from(a2, 0) == 1);
    }
}

} // verus!
