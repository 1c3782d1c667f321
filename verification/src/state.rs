use vstd::prelude::*;

verus! {

use crate::{key_le, sorted_events};
use vstd::seq_lib::group_to_multiset_ensures;
use vstd::multiset::group_multiset_axioms;
use vstd::multiset::Multiset;

/// Per-group aggregation state: the observed (timestamp, stage) events together
/// with a flag recording whether `events_list` is currently in
/// (timestamp ascending, stage ascending) order. The flag is an optimization
/// hint: it may be true only when the buffer genuinely is sorted.
pub struct AggregateWindowFunnelState {
    pub events_list: Vec<(u64, u8)>,
    pub sorted: bool,
}

/// Executable comparison on the (timestamp, stage) ordering key.
pub fn key_le_exec(a: (u64, u8), b: (u64, u8)) -> (r: bool)
    ensures
        r == key_le(a, b),
{
    a.0 < b.0 || (a.0 == b.0 && a.1 <= b.1)
}

/// Appending an element that is at least the last element keeps a sorted
/// sequence sorted.
pub proof fn lemma_sorted_push(s: Seq<(u64, u8)>, x: (u64, u8))
    requires
        sorted_events(s),
        s.len() == 0 || key_le(s[s.len() - 1], x),
    ensures
        sorted_events(s.push(x)),
{
    assert forall|i: int, j: int| 0 <= i < j < s.push(x).len() implies key_le(
        s.push(x)[i],
        s.push(x)[j],
    ) by {
        if j < s.len() {
            assert(key_le(s[i], s[j]));
        } else {
            if i < s.len() - 1 {
                assert(key_le(s[i], s[s.len() - 1]));
            }
        }
    }
}

/// Exchanging two positions of a sequence leaves its multiset unchanged.
pub proof fn lemma_swap_preserves_multiset(s: Seq<(u64, u8)>, i: int, j: int)
    requires
        0 <= i < s.len(),
        0 <= j < s.len(),
        i != j,
    ensures
        s.update(i, s[j]).update(j, s[i]).to_multiset() == s.to_multiset(),
{
    broadcast use group_multiset_axioms;
    broadcast use group_to_multiset_ensures;
    broadcast use vstd::seq_lib::to_multiset_update;

    let s1 = s.update(i, s[j]);
    let s2 = s1.update(j, s[i]);
    assert(s1[j] == s[j]);
    assert(s1.to_multiset() == s.to_multiset().insert(s[j]).remove(s[i]));
    assert(s2.to_multiset() == s1.to_multiset().insert(s[i]).remove(s1[j]));
    assert(s.to_multiset().contains(s[i]));
    assert(s.to_multiset().contains(s[j]));
    assert(s2.to_multiset() =~= s.to_multiset());
}

impl AggregateWindowFunnelState {
    /// The sorted flag may only be set when the events really are in order.
    pub open spec fn well_formed(self) -> bool {
        self.sorted ==> sorted_events(self.events_list@)
    }

    /// A freshly created state is empty and (vacuously) sorted.
    pub fn new() -> (s: Self)
        ensures
            s.events_list@ =~= Seq::<(u64, u8)>::empty(),
            s.sorted,
            s.well_formed(),
    {
        AggregateWindowFunnelState { events_list: Vec::new(), sorted: true }
    }

    /// Unconditional append. The sorted flag stays true only if the buffer was
    /// sorted before and the new ordering key is at least the previous last key.
    pub fn add(&mut self, timestamp: u64, event: u8)
        requires
            old(self).well_formed(),
        ensures
            final(self).well_formed(),
            final(self).events_list@ == old(self).events_list@.push((timestamp, event)),
            final(self).sorted == (old(self).sorted && (old(self).events_list@.len() == 0
                || key_le(
                old(self).events_list@[old(self).events_list@.len() - 1],
                (timestamp, event),
            ))),
    {
        if self.sorted && self.events_list.len() > 0 {
            let last = self.events_list[self.events_list.len() - 1];
            if last.0 == timestamp {
                self.sorted = last.1 <= event;
            } else {
                self.sorted = last.0 <= timestamp;
            }
        }
        self.events_list.push((timestamp, event));
        proof {
            if self.sorted {
                lemma_sorted_push(old(self).events_list@, (timestamp, event));
            }
        }
    }

    /// Brings the buffer into (timestamp, stage) order. A no-op when the sorted
    /// flag already vouches for the order.
    pub fn sort(&mut self)
        requires
            old(self).well_formed(),
        ensures
            final(self).well_formed(),
            final(self).sorted,
            sorted_events(final(self).events_list@),
            final(self).events_list@.to_multiset() == old(self).events_list@.to_multiset(),
            old(self).sorted ==> final(self).events_list@ == old(self).events_list@,
    {
        if self.sorted {
            return ;
        }
        let n = self.events_list.len();
        if n <= 1 {
            self.sorted = true;
            return ;
        }
        let mut i: usize = 1;
        while i < n
            invariant
                1 <= i <= n,
                n == self.events_list@.len(),
                self.events_list@.to_multiset() == old(self).events_list@.to_multiset(),
                sorted_events(self.events_list@.take(i as int)),
                self.sorted == old(self).sorted,
            decreases n - i,
        {
            proof {
                let v = self.events_list@;
                assert forall|p: int, q: int|
                    0 <= p < q <= i && p != i && q != i implies key_le(
                    #[trigger] v[p],
                    #[trigger] v[q],
                ) by {
                    assert(v.take(i as int)[p] == v[p]);
                    assert(v.take(i as int)[q] == v[q]);
                    assert(key_le(v.take(i as int)[p], v.take(i as int)[q]));
                }
            }
            let mut j: usize = i;
            while j > 0 && !key_le_exec(self.events_list[j - 1], self.events_list[j])
                invariant
                    0 <= j <= i < n,
                    n == self.events_list@.len(),
                    self.events_list@.to_multiset() == old(self).events_list@.to_multiset(),
                    forall|p: int, q: int|
                        0 <= p < q <= i && p != j && q != j ==> key_le(
                            #[trigger] self.events_list@[p],
                            #[trigger] self.events_list@[q],
                        ),
                    forall|q: int|
                        j < q <= i ==> key_le(
                            self.events_list@[j as int],
                            #[trigger] self.events_list@[q],
                        ),
                    self.sorted == old(self).sorted,
                decreases j,
            {
                let a = self.events_list[j - 1];
                let b = self.events_list[j];
                let ghost prev = self.events_list@;
                self.events_list.set(j - 1, b);
                self.events_list.set(j, a);
                proof {
                    lemma_swap_preserves_multiset(prev, j - 1, j as int);
                    assert(self.events_list@ =~= prev.update(j - 1, prev[j as int]).update(
                        j as int,
                        prev[j - 1],
                    ));
                }
                j = j - 1;
            }
            proof {
                assert forall|p: int, q: int| 0 <= p < q <= i implies key_le(
                    #[trigger] self.events_list@[p],
                    #[trigger] self.events_list@[q],
                ) by {
                    let v = self.events_list@;
                    if p == j && q > j {
                        assert(key_le(v[p], v[q]));
                    } else if q == j {
                        // loop exited with j == 0 or key_le(v[j-1], v[j]); q == j > 0 here
                        assert(j > 0 && key_le(v[j - 1], v[j as int]));
                        if p < j - 1 {
                            assert(key_le(v[p], v[j - 1]));
                        }
                    }
                }
                assert(sorted_events(self.events_list@.take(i + 1))) by {
                    let t = self.events_list@.take(i + 1);
                    assert forall|p: int, q: int| 0 <= p < q < t.len() implies key_le(
                        #[trigger] t[p],
                        #[trigger] t[q],
                    ) by {
                        assert(key_le(self.events_list@[p], self.events_list@[q]));
                    }
                }
            }
            i = i + 1;
        }
        proof {
            if n > 0 {
                assert(self.events_list@.take(n as int) =~= self.events_list@);
            } else {
                assert(self.events_list@.take(0) =~= self.events_list@);
            }
        }
        self.sorted = true;
    }

    /// Absorbs `other` so that the resulting multiset of events is the union of
    /// both inputs. An empty operand is a no-op; merging into an empty state
    /// copies the other's contents and sortedness verbatim; otherwise both
    /// sides are brought to a known order and combined by a linear two-pointer
    /// merge of two sorted sequences.
    pub fn merge(&mut self, other: &mut AggregateWindowFunnelState)
        requires
            old(self).well_formed(),
            old(other).well_formed(),
        ensures
            final(self).well_formed(),
            final(other).well_formed(),
            final(self).events_list@.to_multiset() == old(self).events_list@.to_multiset().add(
                old(other).events_list@.to_multiset(),
            ),
            final(other).events_list@.to_multiset() == old(other).events_list@.to_multiset(),
            old(other).events_list@.len() == 0 ==> (final(self).events_list@ == old(self).events_list@
                && final(self).sorted == old(self).sorted),
            old(other).events_list@.len() > 0 && old(self).events_list@.len() == 0 ==> (
            final(self).events_list@ == old(other).events_list@
                && final(self).sorted == old(other).sorted),
            old(other).events_list@.len() > 0 && old(self).events_list@.len() > 0 ==> (
            sorted_events(final(self).events_list@) && final(self).sorted),
    {
        broadcast use group_multiset_axioms;
        broadcast use group_to_multiset_ensures;

        if other.events_list.len() == 0 {
            proof {
                assert(old(other).events_list@ =~= Seq::<(u64, u8)>::empty());
                assert(old(other).events_list@.to_multiset() =~= Multiset::<(u64, u8)>::empty());
            }
            return ;
        }
        if self.events_list.len() == 0 {
            let copied = copy_events(&other.events_list);
            self.events_list = copied;
            self.sorted = other.sorted;
            proof {
                assert(old(self).events_list@ =~= Seq::<(u64, u8)>::empty());
                assert(old(self).events_list@.to_multiset() =~= Multiset::<(u64, u8)>::empty());
                assert(self.events_list@.to_multiset() =~= old(self).events_list@.to_multiset().add(
                    old(other).events_list@.to_multiset(),
                ));
            }
            return ;
        }
        self.sort();
        other.sort();
        let l1 = self.events_list.len();
        let l2 = other.events_list.len();
        let mut merged: Vec<(u64, u8)> = Vec::new();
        let mut i: usize = 0;
        let mut j: usize = 0;
        while i < l1 || j < l2
            invariant
                i <= l1,
                j <= l2,
                l1 == self.events_list@.len(),
                l2 == other.events_list@.len(),
                sorted_events(self.events_list@),
                sorted_events(other.events_list@),
                self.events_list@.to_multiset() == old(self).events_list@.to_multiset(),
                other.events_list@.to_multiset() == old(other).events_list@.to_multiset(),
                self.sorted,
                other.sorted,
                merged@.len() == i + j,
                sorted_events(merged@),
                merged@.to_multiset() == self.events_list@.take(i as int).to_multiset().add(
                    other.events_list@.take(j as int).to_multiset(),
                ),
                merged@.len() > 0 && i < l1 ==> key_le(
                    merged@[merged@.len() - 1],
                    self.events_list@[i as int],
                ),
                merged@.len() > 0 && j < l2 ==> key_le(
                    merged@[merged@.len() - 1],
                    other.events_list@[j as int],
                ),
            decreases l1 - i + l2 - j,
        {
            let take_left = if i < l1 {
                if j < l2 {
                    key_le_exec(self.events_list[i], other.events_list[j])
                } else {
                    true
                }
            } else {
                false
            };
            let ghost m0 = merged@;
            let ghost a0 = self.events_list@.take(i as int);
            let ghost b0 = other.events_list@.take(j as int);
            if take_left {
                let e = self.events_list[i];
                proof {
                    lemma_sorted_push(m0, e);
                }
                merged.push(e);
                i = i + 1;
                proof {
                    assert(merged@ == m0.push(e));
                    vstd::seq_lib::to_multiset_build(m0, e);
                    assert(self.events_list@.take(i as int) =~= a0.push(e));
                    vstd::seq_lib::to_multiset_build(a0, e);
                    assert(merged@.to_multiset() =~= self.events_list@.take(
                        i as int,
                    ).to_multiset().add(b0.to_multiset()));
                }
            } else {
                let e = other.events_list[j];
                proof {
                    if i < l1 {
                        assert(key_le(e, self.events_list@[i as int]));
                    }
                    lemma_sorted_push(m0, e);
                }
                merged.push(e);
                j = j + 1;
                proof {
                    assert(merged@ == m0.push(e));
                    vstd::seq_lib::to_multiset_build(m0, e);
                    assert(other.events_list@.take(j as int) =~= b0.push(e));
                    vstd::seq_lib::to_multiset_build(b0, e);
                    assert(merged@.to_multiset() =~= a0.to_multiset().add(
                        other.events_list@.take(j as int).to_multiset(),
                    ));
                }
            }
        }
        proof {
            assert(self.events_list@.take(l1 as int) =~= self.events_list@);
            assert(other.events_list@.take(l2 as int) =~= other.events_list@);
        }
        self.events_list = merged;
        self.sorted = true;
    }
}

/// Element-for-element copy of an event vector.
fn copy_events(v: &Vec<(u64, u8)>) -> (r: Vec<(u64, u8)>)
    ensures
        r@ == v@,
{
    let mut r: Vec<(u64, u8)> = Vec::new();
    let mut k: usize = 0;
    while k < v.len()
        invariant
            k <= v.len(),
            r@ == v@.take(k as int),
        decreases v.len() - k,
    {
        r.push(v[k]);
        proof {
            assert(v@.take(k + 1) =~= v@.take(k as int).push(v@[k as int]));
        }
        k = k + 1;
    }
    proof {
        assert(v@.take(v.len() as int) =~= v@);
    }
    r
}

} // verus!
