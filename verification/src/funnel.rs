use vstd::prelude::*;

verus! {

use crate::{key_le, sorted_events, ColumnType, Error, TimestampWidth, width_of};
use crate::state::AggregateWindowFunnelState;
use crate::level::{anchors_of, apply_event, leading_set_from, resolved_level};

/// The fixed, non-configurable sliding-window length.
pub const WINDOW: u64 = 1024;

/// One input column as declared to the aggregate: a name and a type.
#[derive(Debug)]
pub struct DataField {
    pub name: String,
    pub data_type: ColumnType,
}

/// The funnel aggregate instance: immutable per-instance configuration
/// resolved once at construction. The first input column carries timestamps;
/// the remaining `event_size` boolean columns are the stage indicators.
pub struct AggregateWindowFunnelFunction {
    pub display_name: String,
    pub arguments: Vec<DataField>,
    pub event_size: usize,
    pub window: u64,
    pub width: TimestampWidth,
}

impl AggregateWindowFunnelFunction {
    /// Construction resolved the configuration: at least one funnel step, and
    /// stages must be representable in the one-byte wire encoding.
    pub open spec fn well_formed(self) -> bool {
        1 <= self.event_size <= 255 && self.arguments@.len() == self.event_size + 1
    }

    /// Builds an instance for an already-selected timestamp representation.
    pub fn try_create(display_name: &str, arguments: Vec<DataField>, width: TimestampWidth) -> (r:
        Result<Self, Error>)
        requires
            2 <= arguments@.len() <= 256,
        ensures
            (r matches Ok(f) && {
                &&& f.well_formed()
                &&& f.event_size == arguments@.len() - 1
                &&& f.window == WINDOW
                &&& f.width == width
                &&& f.display_name@ == display_name@
                &&& f.arguments@ == arguments@
            }),
    {
        let event_size = arguments.len() - 1;
        Ok(
            AggregateWindowFunnelFunction {
                display_name: display_name.to_owned(),
                arguments,
                event_size,
                window: WINDOW,
                width,
            },
        )
    }

    pub fn name(&self) -> (r: &'static str)
        ensures
            r@ == "AggregateWindowFunnelFunction"@,
    {
        "AggregateWindowFunnelFunction"
    }

    /// The result column type: a small unsigned integer.
    pub fn return_type(&self) -> (r: Result<ColumnType, Error>)
        ensures
            r == Ok::<ColumnType, Error>(ColumnType::UInt8),
    {
        Ok(ColumnType::UInt8)
    }

    /// The result column is never nullable.
    pub fn nullable(&self) -> (r: Result<bool, Error>)
        ensures
            r == Ok::<bool, Error>(false),
    {
        Ok(false)
    }

    /// The name this instance was registered under.
    pub fn display(&self) -> (r: String)
        ensures
            r@ == self.display_name@,
    {
        self.display_name.clone()
    }

    /// A fresh, empty per-group state.
    pub fn init_state(&self) -> (s: AggregateWindowFunnelState)
        ensures
            s.events_list@ =~= Seq::<(u64, u8)>::empty(),
            s.sorted,
            s.well_formed(),
    {
        AggregateWindowFunnelState::new()
    }

    /// Folds `rhs` into `state`; `rhs` is disposable afterwards.
    pub fn merge(&self, state: &mut AggregateWindowFunnelState, rhs: &mut AggregateWindowFunnelState)
        -> (r: Result<(), Error>)
        requires
            old(state).well_formed(),
            old(rhs).well_formed(),
        ensures
            r is Ok,
            final(state).well_formed(),
            final(state).events_list@.to_multiset() == old(state).events_list@.to_multiset().add(
                old(rhs).events_list@.to_multiset(),
            ),
            old(rhs).events_list@.len() == 0 ==> (final(state).events_list@ == old(
                state,
            ).events_list@ && final(state).sorted == old(state).sorted),
            old(rhs).events_list@.len() > 0 && old(state).events_list@.len() == 0 ==> (
            final(state).events_list@ == old(rhs).events_list@ && final(state).sorted == old(
                rhs,
            ).sorted),
            old(rhs).events_list@.len() > 0 && old(state).events_list@.len() > 0 ==> (
            sorted_events(final(state).events_list@) && final(state).sorted),
    {
        state.merge(rhs);
        Ok(())
    }

    /// One linear pass over the sorted events, maintaining per-stage anchors
    /// and enforcing the sliding-window constraint; returns the highest
    /// contiguous funnel stage reached, in [0, event_size].
    pub fn get_event_level(&self, state: &mut AggregateWindowFunnelState) -> (r: u8)
        requires
            old(state).well_formed(),
            self.well_formed(),
        ensures
            final(state).well_formed(),
            final(state).events_list@.to_multiset() == old(state).events_list@.to_multiset(),
            old(state).sorted ==> final(state).events_list@ == old(state).events_list@,
            old(state).events_list@.len() > 0 && self.event_size >= 2 ==> (sorted_events(
                final(state).events_list@,
            ) && final(state).sorted),
            self.event_size == 1 || old(state).events_list@.len() == 0 ==> *final(state) == *old(
                state,
            ),
            r as nat == resolved_level(
                final(state).events_list@,
                self.event_size as nat,
                self.window,
            ),
            r as nat <= self.event_size,
    {
        let n = self.event_size;
        if state.events_list.len() == 0 {
            proof {
                let base = Seq::new(n as nat, |i: int| None::<u64>);
                assert(anchors_of(final(state).events_list@, n as nat, self.window) =~= base);
                if n != 1 {
                    assert(base[0] is None);
                    assert(leading_set_from(base, 0) == 0);
                }
            }
            return 0;
        }
        if n == 1 {
            return 1;
        }
        state.sort();
        let ghost sev = state.events_list@;
        let w = self.window;
        let mut anchors: Vec<Option<u64>> = Vec::new();
        let mut k: usize = 0;
        while k < n
            invariant
                k <= n,
                anchors@.len() == k,
                forall|p: int| 0 <= p < k ==> anchors@[p] is None,
            decreases n - k,
        {
            anchors.push(None);
            k = k + 1;
        }
        proof {
            assert(anchors@ =~= Seq::new(n as nat, |i: int| None::<u64>));
            assert(sev.take(0) =~= Seq::<(u64, u8)>::empty());
            assert(anchors@ == anchors_of(sev.take(0), n as nat, w));
        }
        let len = state.events_list.len();
        let mut idx: usize = 0;
        while idx < len
            invariant
                idx <= len,
                n == self.event_size,
                1 <= n <= 255,
                w == self.window,
                len == state.events_list@.len(),
                state.events_list@ == sev,
                state.sorted,
                state.well_formed(),
                anchors@.len() == n,
                anchors@ == anchors_of(sev.take(idx as int), n as nat, w),
            decreases len - idx,
        {
            let ghost prev_anchors = anchors@;
            let ev = state.events_list[idx];
            let t = ev.0;
            let e = ev.1;
            if e == 1 {
                if anchors[0].is_none() {
                    anchors.set(0, Some(t));
                }
            } else if e >= 2 && (e as usize) <= n {
                let ei = (e as usize) - 1;
                if anchors[ei].is_none() {
                    match anchors[ei - 1] {
                        Some(prev) => {
                            if prev <= t && t - prev <= w {
                                anchors.set(ei, Some(t));
                            }
                        },
                        None => {},
                    }
                }
            }
            proof {
                assert(anchors@ =~= apply_event(prev_anchors, sev[idx as int], w));
                assert(sev.take(idx + 1).drop_last() =~= sev.take(idx as int));
                assert(sev.take(idx + 1).last() == sev[idx as int]);
                assert(anchors@ == anchors_of(sev.take(idx + 1), n as nat, w));
            }
            idx = idx + 1;
        }
        proof {
            assert(sev.take(len as int) =~= sev);
        }
        let mut lvl: usize = 0;
        while lvl < n && anchors[lvl].is_some()
            invariant
                lvl <= n,
                n <= 255,
                anchors@.len() == n,
                forall|p: int| 0 <= p < lvl ==> anchors@[p] is Some,
            decreases n - lvl,
        {
            lvl = lvl + 1;
        }
        proof {
            lemma_leading_count(anchors@, 0, lvl as int);
        }
        lvl as u8
    }

    /// Writes one group's state into the framework's byte sink, in the wire
    /// format of this instance's timestamp width.
    pub fn serialize(
        &self,
        state: &AggregateWindowFunnelState,
        writer: &mut bytes::BytesMut,
    ) -> (r: Result<(), Error>)
        requires
            state.well_formed(),
            crate::ts_all_fit(state.events_list@, self.width),
        ensures
            r is Ok,
            crate::codec::buf_bytes(*final(writer)) == crate::codec::buf_bytes(*old(writer))
                + crate::codec::enc_state(state.events_list@, state.sorted, self.width),
    {
        state.serialize(writer, self.width)
    }

    /// Reads one group's state from the front of `data`, returning how many
    /// bytes were consumed; the state is untouched on a malformed stream.
    pub fn deserialize(&self, state: &mut AggregateWindowFunnelState, data: &[u8]) -> (r: Result<
        usize,
        Error,
    >)
        requires
            old(state).well_formed(),
        ensures
            final(state).well_formed(),
            (match crate::codec::dec_state(data@, self.width) {
                Some(d) => {
                    if !d.1 || sorted_events(d.0) {
                        &&& r matches Ok(u) && u as nat == d.2
                        &&& final(state).events_list@ == d.0
                        &&& final(state).sorted == d.1
                    } else {
                        r == Err::<usize, Error>(Error::MalformedState)
                    }
                },
                None => r == Err::<usize, Error>(Error::MalformedState),
            }),
            r is Err ==> *final(state) == *old(state),
    {
        state.deserialize(data, self.width)
    }

    /// Terminal result extraction for one group.
    pub fn merge_result(&self, state: &mut AggregateWindowFunnelState) -> (r: Result<u8, Error>)
        requires
            old(state).well_formed(),
            self.well_formed(),
        ensures
            final(state).well_formed(),
            final(state).events_list@.to_multiset() == old(state).events_list@.to_multiset(),
            (r matches Ok(v) && v as nat == resolved_level(
                final(state).events_list@,
                self.event_size as nat,
                self.window,
            ) && v as nat <= self.event_size),
    {
        let level = self.get_event_level(state);
        Ok(level)
    }
}

/// The views of the indicator columns: one boolean sequence per stage.
pub open spec fn columns_view(inds: Seq<Vec<bool>>) -> Seq<Seq<bool>> {
    Seq::new(inds.len(), |i: int| inds[i]@)
}

/// The per-stage flags of one row across the indicator columns.
pub open spec fn row_flags(inds: Seq<Seq<bool>>, r: int) -> Seq<bool> {
    Seq::new(inds.len(), |i: int| inds[i][r])
}

/// Events contributed by the first `k` stages of one row at timestamp `t`:
/// one event per true indicator, stage numbers counted from 1.
pub open spec fn row_events_upto(t: u64, flags: Seq<bool>, k: int) -> Seq<(u64, u8)>
    decreases k,
{
    if k <= 0 {
        Seq::empty()
    } else {
        row_events_upto(t, flags, k - 1) + (if flags[k - 1] {
            seq![(t, k as u8)]
        } else {
            Seq::empty()
        })
    }
}

/// Events contributed by one row; a null timestamp contributes nothing.
pub open spec fn row_contrib(ts: Seq<Option<u64>>, inds: Seq<Seq<bool>>, r: int) -> Seq<(u64, u8)> {
    match ts[r] {
        Some(t) => row_events_upto(t, row_flags(inds, r), inds.len() as int),
        None => Seq::empty(),
    }
}

/// Events contributed by the first `r` rows of a batch, in row order.
pub open spec fn batch_events_upto(ts: Seq<Option<u64>>, inds: Seq<Seq<bool>>, r: int) -> Seq<
    (u64, u8),
>
    decreases r,
{
    if r <= 0 {
        Seq::empty()
    } else {
        batch_events_upto(ts, inds, r - 1) + row_contrib(ts, inds, r - 1)
    }
}

/// The (events, sorted flag) pair of a state after appending each element of
/// `added` in order, following the `add` flag rule.
pub open spec fn add_all(ev: Seq<(u64, u8)>, f: bool, added: Seq<(u64, u8)>) -> (Seq<(u64, u8)>, bool)
    decreases added.len(),
{
    if added.len() == 0 {
        (ev, f)
    } else {
        let prev = add_all(ev, f, added.drop_last());
        let x = added.last();
        (
            prev.0.push(x),
            prev.1 && (prev.0.len() == 0 || key_le(prev.0[prev.0.len() - 1], x)),
        )
    }
}

/// The events after a chain of adds are the old events with `added` appended.
pub proof fn lemma_add_all_events(ev: Seq<(u64, u8)>, f: bool, added: Seq<(u64, u8)>)
    ensures
        add_all(ev, f, added).0 == ev + added,
    decreases added.len(),
{
    if added.len() == 0 {
        assert(ev + added =~= ev);
    } else {
        lemma_add_all_events(ev, f, added.drop_last());
        assert(ev + added =~= (ev + added.drop_last()).push(added.last()));
    }
}

/// The views that the keyed accumulation acts on: each state as its
/// (events, sorted flag) pair.
pub open spec fn views_of(states: Seq<AggregateWindowFunnelState>) -> Seq<(Seq<(u64, u8)>, bool)> {
    Seq::new(states.len(), |k: int| (states[k].events_list@, states[k].sorted))
}

/// The per-group views after accumulating the first `r` rows of a keyed batch:
/// each non-null row appends its events to the state addressed by its place
/// plus the aggregate's offset.
pub open spec fn keys_after(
    v: Seq<(Seq<(u64, u8)>, bool)>,
    places: Seq<usize>,
    offset: nat,
    ts: Seq<Option<u64>>,
    inds: Seq<Seq<bool>>,
    r: int,
) -> Seq<(Seq<(u64, u8)>, bool)>
    decreases r,
{
    if r <= 0 {
        v
    } else {
        let prev = keys_after(v, places, offset, ts, inds, r - 1);
        match ts[r - 1] {
            Some(t) => {
                let idx = places[r - 1] + offset;
                prev.update(idx as int, add_all(prev[idx as int].0, prev[idx as int].1, row_contrib(ts, inds, r - 1)))
            },
            None => prev,
        }
    }
}

/// Keyed accumulation touches only addressed slots, so the store's length is
/// preserved.
pub proof fn lemma_keys_after_len(
    v: Seq<(Seq<(u64, u8)>, bool)>,
    places: Seq<usize>,
    offset: nat,
    ts: Seq<Option<u64>>,
    inds: Seq<Seq<bool>>,
    r: int,
)
    requires
        r <= places.len(),
        forall|k: int| 0 <= k < places.len() ==> (#[trigger] places[k]) + offset < v.len(),
    ensures
        keys_after(v, places, offset, ts, inds, r).len() == v.len(),
    decreases r,
{
    broadcast use vstd::seq::axiom_seq_update_len;

    if r > 0 {
        lemma_keys_after_len(v, places, offset, ts, inds, r - 1);
        assert(places[r - 1] + offset < v.len());
    }
}

impl AggregateWindowFunnelFunction {
    /// Converts one row batch into mutations of a single group's state: for
    /// each row with a non-null timestamp, and each stage whose indicator is
    /// true on that row, one event is appended.
    pub fn accumulate(
        &self,
        state: &mut AggregateWindowFunnelState,
        timestamps: &Vec<Option<u64>>,
        indicators: &Vec<Vec<bool>>,
    ) -> (r: Result<(), Error>)
        requires
            old(state).well_formed(),
            self.well_formed(),
            indicators@.len() == self.event_size,
            forall|i: int|
                0 <= i < indicators@.len() ==> (#[trigger] indicators@[i])@.len()
                    == timestamps@.len(),
        ensures
            r is Ok,
            final(state).well_formed(),
            (final(state).events_list@, final(state).sorted) == add_all(
                old(state).events_list@,
                old(state).sorted,
                batch_events_upto(
                    timestamps@,
                    columns_view(indicators@),
                    timestamps@.len() as int,
                ),
            ),
            final(state).events_list@ == old(state).events_list@ + batch_events_upto(
                timestamps@,
                columns_view(indicators@),
                timestamps@.len() as int,
            ),
    {
        let ghost iv = columns_view(indicators@);
        let ghost ev0 = old(state).events_list@;
        let ghost f0 = old(state).sorted;
        let rows = timestamps.len();
        let mut row: usize = 0;
        while row < rows
            invariant
                row <= rows,
                rows == timestamps@.len(),
                self.well_formed(),
                indicators@.len() == self.event_size,
                forall|i: int|
                    0 <= i < indicators@.len() ==> (#[trigger] indicators@[i])@.len() == rows,
                iv == columns_view(indicators@),
                ev0 == old(state).events_list@,
                f0 == old(state).sorted,
                state.well_formed(),
                (state.events_list@, state.sorted) == add_all(
                    ev0,
                    f0,
                    batch_events_upto(timestamps@, iv, row as int),
                ),
            decreases rows - row,
        {
            let ghost added0 = batch_events_upto(timestamps@, iv, row as int);
            match timestamps[row] {
                Some(t) => {
                    let ghost flags = row_flags(iv, row as int);
                    let mut i: usize = 0;
                    proof {
                        assert(added0 + row_events_upto(t, flags, 0) =~= added0);
                    }
                    while i < self.event_size
                        invariant
                            i <= self.event_size,
                            rows == timestamps@.len(),
                            row < rows,
                            self.well_formed(),
                            indicators@.len() == self.event_size,
                            forall|k: int|
                                0 <= k < indicators@.len() ==> (#[trigger] indicators@[k])@.len()
                                    == rows,
                            iv == columns_view(indicators@),
                            flags == row_flags(iv, row as int),
                            added0 == batch_events_upto(timestamps@, iv, row as int),
                            timestamps@[row as int] == Some(t),
                            ev0 == old(state).events_list@,
                            f0 == old(state).sorted,
                            state.well_formed(),
                            (state.events_list@, state.sorted) == add_all(
                                ev0,
                                f0,
                                added0 + row_events_upto(t, flags, i as int),
                            ),
                        decreases self.event_size - i,
                    {
                        let col: &Vec<bool> = &indicators[i];
                        let fired = col[row];
                        proof {
                            assert(flags[i as int] == indicators@[i as int]@[row as int]);
                        }
                        if fired {
                            let stage = (i + 1) as u8;
                            let ghost au = added0 + row_events_upto(t, flags, i as int);
                            state.add(t, stage);
                            proof {
                                let x = (t, stage);
                                assert(row_events_upto(t, flags, i + 1) =~= row_events_upto(
                                    t,
                                    flags,
                                    i as int,
                                ) + seq![x]);
                                let au1 = added0 + row_events_upto(t, flags, i + 1);
                                assert(au1 =~= au.push(x));
                                assert(au.push(x).drop_last() =~= au);
                                assert(au.push(x).last() == x);
                                assert((state.events_list@, state.sorted) == add_all(
                                    ev0,
                                    f0,
                                    au1,
                                ));
                            }
                        } else {
                            proof {
                                assert(row_events_upto(t, flags, i + 1) =~= row_events_upto(
                                    t,
                                    flags,
                                    i as int,
                                ));
                            }
                        }
                        i = i + 1;
                    }
                    proof {
                        assert(row_contrib(timestamps@, iv, row as int) == row_events_upto(
                            t,
                            flags,
                            iv.len() as int,
                        ));
                        assert(batch_events_upto(timestamps@, iv, row + 1) == added0
                            + row_contrib(timestamps@, iv, row as int));
                    }
                },
                None => {
                    proof {
                        assert(row_contrib(timestamps@, iv, row as int) =~= Seq::<
                            (u64, u8),
                        >::empty());
                        assert(batch_events_upto(timestamps@, iv, row + 1) =~= added0);
                    }
                },
            }
            row = row + 1;
        }
        proof {
            lemma_add_all_events(
                ev0,
                f0,
                batch_events_upto(timestamps@, iv, timestamps@.len() as int),
            );
        }
        Ok(())
    }

    /// Keyed accumulation: many groups share one batch. Each row addresses the
    /// state at its supplied place plus this aggregate's offset; only the
    /// addressed states are touched.
    pub fn accumulate_keys(
        &self,
        states: &mut Vec<AggregateWindowFunnelState>,
        places: &Vec<usize>,
        offset: usize,
        timestamps: &Vec<Option<u64>>,
        indicators: &Vec<Vec<bool>>,
    ) -> (r: Result<(), Error>)
        requires
            self.well_formed(),
            places@.len() == timestamps@.len(),
            forall|k: int| 0 <= k < old(states)@.len() ==> (#[trigger] old(states)@[k]).well_formed(),
            forall|r: int|
                0 <= r < places@.len() ==> (#[trigger] places@[r]) + offset < old(states)@.len(),
            indicators@.len() == self.event_size,
            forall|i: int|
                0 <= i < indicators@.len() ==> (#[trigger] indicators@[i])@.len()
                    == timestamps@.len(),
        ensures
            r is Ok,
            final(states)@.len() == old(states)@.len(),
            forall|k: int| 0 <= k < final(states)@.len() ==> (#[trigger] final(states)@[k]).well_formed(),
            views_of(final(states)@) == keys_after(
                views_of(old(states)@),
                places@,
                offset as nat,
                timestamps@,
                columns_view(indicators@),
                timestamps@.len() as int,
            ),
    {
        let ghost iv = columns_view(indicators@);
        let ghost v0 = views_of(old(states)@);
        let total = states.len();
        let rows = timestamps.len();
        let mut row: usize = 0;
        while row < rows
            invariant
                row <= rows,
                rows == timestamps@.len(),
                places@.len() == rows,
                self.well_formed(),
                indicators@.len() == self.event_size,
                forall|i: int|
                    0 <= i < indicators@.len() ==> (#[trigger] indicators@[i])@.len() == rows,
                iv == columns_view(indicators@),
                v0 == views_of(old(states)@),
                states@.len() == old(states)@.len(),
                total == states@.len(),
                forall|r: int|
                    0 <= r < places@.len() ==> (#[trigger] places@[r]) + offset < states@.len(),
                forall|k: int| 0 <= k < states@.len() ==> (#[trigger] states@[k]).well_formed(),
                views_of(states@) == keys_after(v0, places@, offset as nat, timestamps@, iv, row as int),
            decreases rows - row,
        {
            let ghost base = keys_after(v0, places@, offset as nat, timestamps@, iv, row as int);
            match timestamps[row] {
                Some(t) => {
                    proof {
                        assert(places@[row as int] + offset < total as int);
                        lemma_keys_after_len(
                            v0,
                            places@,
                            offset as nat,
                            timestamps@,
                            iv,
                            row as int,
                        );
                        assert(base.len() == states@.len());
                    }
                    let idx = places[row] + offset;
                    let ghost flags = row_flags(iv, row as int);
                    let mut i: usize = 0;
                    proof {
                        assert(base.update(idx as int, add_all(base[idx as int].0, base[idx as int].1, row_events_upto(t, flags, 0))) =~= base);
                    }
                    while i < self.event_size
                        invariant
                            i <= self.event_size,
                            rows == timestamps@.len(),
                            places@.len() == rows,
                            row < rows,
                            idx == places@[row as int] + offset,
                            self.well_formed(),
                            indicators@.len() == self.event_size,
                            forall|k: int|
                                0 <= k < indicators@.len() ==> (#[trigger] indicators@[k])@.len()
                                    == rows,
                            iv == columns_view(indicators@),
                            flags == row_flags(iv, row as int),
                            base == keys_after(v0, places@, offset as nat, timestamps@, iv, row as int),
                            base.len() == states@.len(),
                            timestamps@[row as int] == Some(t),
                            v0 == views_of(old(states)@),
                            states@.len() == old(states)@.len(),
                            idx < states@.len(),
                            forall|r: int|
                                0 <= r < places@.len() ==> (#[trigger] places@[r]) + offset
                                    < states@.len(),
                            forall|k: int|
                                0 <= k < states@.len() ==> (#[trigger] states@[k]).well_formed(),
                            views_of(states@) == base.update(
                                idx as int,
                                add_all(
                                    base[idx as int].0,
                                    base[idx as int].1,
                                    row_events_upto(t, flags, i as int),
                                ),
                            ),
                        decreases self.event_size - i,
                    {
                        let col: &Vec<bool> = &indicators[i];
                        let fired = col[row];
                        proof {
                            assert(flags[i as int] == indicators@[i as int]@[row as int]);
                        }
                        if fired {
                            let stage = (i + 1) as u8;
                            let ghost prev_states = states@;
                            let ghost au = row_events_upto(t, flags, i as int);
                            proof {
                                assert(views_of(prev_states)[idx as int] == (
                                    prev_states[idx as int].events_list@,
                                    prev_states[idx as int].sorted,
                                ));
                            }
                            states[idx].add(t, stage);
                            proof {
                                let x = (t, stage);
                                assert(row_events_upto(t, flags, i + 1) =~= au + seq![x]);
                                assert(au + seq![x] =~= au.push(x));
                                assert(au.push(x).drop_last() =~= au);
                                let st = states@[idx as int];
                                assert(views_of(states@) =~= views_of(prev_states).update(
                                    idx as int,
                                    (st.events_list@, st.sorted),
                                ));
                                let before = add_all(base[idx as int].0, base[idx as int].1, au);
                                assert((prev_states[idx as int].events_list@,
                                    prev_states[idx as int].sorted) == before);
                                assert((st.events_list@, st.sorted) == add_all(
                                    base[idx as int].0,
                                    base[idx as int].1,
                                    au.push(x),
                                ));
                                assert(views_of(states@) =~= base.update(
                                    idx as int,
                                    add_all(
                                        base[idx as int].0,
                                        base[idx as int].1,
                                        row_events_upto(t, flags, i + 1),
                                    ),
                                ));
                            }
                        } else {
                            proof {
                                assert(row_events_upto(t, flags, i + 1) =~= row_events_upto(
                                    t,
                                    flags,
                                    i as int,
                                ));
                            }
                        }
                        i = i + 1;
                    }
                    proof {
                        assert(row_contrib(timestamps@, iv, row as int) == row_events_upto(
                            t,
                            flags,
                            iv.len() as int,
                        ));
                        assert(keys_after(v0, places@, offset as nat, timestamps@, iv, row + 1)
                            == base.update(
                            idx as int,
                            add_all(
                                base[idx as int].0,
                                base[idx as int].1,
                                row_contrib(timestamps@, iv, row as int),
                            ),
                        ));
                    }
                },
                None => {
                    proof {
                        assert(keys_after(v0, places@, offset as nat, timestamps@, iv, row + 1)
                            == base);
                    }
                },
            }
            row = row + 1;
        }
        Ok(())
    }
}

/// A run of defined anchors followed by a gap pins the leading count exactly.
proof fn lemma_leading_count(a: Seq<Option<u64>>, i: int, k: int)
    requires
        0 <= i <= k <= a.len(),
        forall|p: int| i <= p < k ==> a[p] is Some,
        k == a.len() || a[k] is None,
    ensures
        leading_set_from(a, i) == k - i,
    decreases k - i,
{
    if i < k {
        lemma_leading_count(a, i + 1, k);
    }
}

/// Resolves which representation backs the timestamp column, checks the
/// funnel arity, and builds the aggregate instance.
#[allow(non_snake_case)]
pub fn try_create_aggregate_WindowFunnel_function(display_name: &str, arguments: Vec<DataField>)
    -> (r: Result<AggregateWindowFunnelFunction, Error>)
    requires
        arguments@.len() <= 256,
    ensures
        arguments@.len() < 2 ==> r == Err::<AggregateWindowFunnelFunction, Error>(
            Error::ArityError(arguments@.len() as usize),
        ),
        arguments@.len() >= 2 && width_of(arguments@[0].data_type) is None ==> r == Err::<
            AggregateWindowFunnelFunction,
            Error,
        >(Error::UnsupportedType(arguments@[0].data_type)),
        arguments@.len() >= 2 && width_of(arguments@[0].data_type) is Some ==> (r matches Ok(f)
            && {
            &&& f.well_formed()
            &&& f.event_size == arguments@.len() - 1
            &&& f.window == WINDOW
            &&& Some(f.width) == width_of(arguments@[0].data_type)
            &&& f.display_name@ == display_name@
            &&& f.arguments@ == arguments@
        }),
{
    if arguments.len() < 2 {
        return Err(Error::ArityError(arguments.len()));
    }
    let data_type = arguments[0].data_type;
    let width = match data_type {
        ColumnType::UInt8 => TimestampWidth::W8,
        ColumnType::UInt16 => TimestampWidth::W16,
        ColumnType::UInt32 => TimestampWidth::W32,
        ColumnType::UInt64 => TimestampWidth::W64,
        _ => {
            return Err(Error::UnsupportedType(data_type));
        },
    };
    AggregateWindowFunnelFunction::try_create(display_name, arguments, width)
}

} // verus!
