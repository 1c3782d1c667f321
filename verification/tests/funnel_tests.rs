use window_funnel::funnel::{
    try_create_aggregate_WindowFunnel_function, AggregateWindowFunnelFunction, DataField, WINDOW,
};
use window_funnel::state::AggregateWindowFunnelState;
use window_funnel::{ColumnType, Error, TimestampWidth};

fn fields(ts_type: ColumnType, steps: usize) -> Vec<DataField> {
    let mut v = vec![DataField { name: "ts".to_string(), data_type: ts_type }];
    for i in 0..steps {
        v.push(DataField { name: format!("step{}", i + 1), data_type: ColumnType::Boolean });
    }
    v
}

fn funnel(steps: usize, window: u64) -> AggregateWindowFunnelFunction {
    let mut f =
        try_create_aggregate_WindowFunnel_function("wf", fields(ColumnType::UInt64, steps))
            .unwrap();
    f.window = window;
    f
}

fn state_of(events: &[(u64, u8)]) -> AggregateWindowFunnelState {
    let mut s = AggregateWindowFunnelState::new();
    for &(t, e) in events {
        s.add(t, e);
    }
    s
}

#[test]
fn three_stages_inside_window() {
    let f = funnel(3, 10);
    let mut s = state_of(&[(0, 1), (5, 2), (9, 3)]);
    assert_eq!(f.get_event_level(&mut s), 3);
}

#[test]
fn third_stage_outside_window() {
    // stage-3 delta from anchor[2] = 5 is 15 > 10
    let f = funnel(3, 10);
    let mut s = state_of(&[(0, 1), (5, 2), (20, 3)]);
    assert_eq!(f.get_event_level(&mut s), 2);
}

#[test]
fn single_stage_ignores_window() {
    let mut s = state_of(&[(100, 1)]);
    assert_eq!(funnel(1, 0).get_event_level(&mut s), 1);
    let mut s2 = state_of(&[(100, 1)]);
    assert_eq!(funnel(1, 10_000).get_event_level(&mut s2), 1);
}

#[test]
fn empty_buffer_resolves_to_zero() {
    let f = funnel(3, 10);
    let mut s = AggregateWindowFunnelState::new();
    assert_eq!(f.get_event_level(&mut s), 0);
}

#[test]
fn first_stage_one_occurrence_wins() {
    // anchor[1] is fixed at 0 (first occurrence), so (3,2) is within window 5
    let f = funnel(3, 5);
    let mut s = state_of(&[(0, 1), (1, 1), (3, 2)]);
    assert_eq!(f.get_event_level(&mut s), 2);
}

#[test]
fn window_boundary_is_inclusive() {
    let f = funnel(2, 10);
    let mut on_edge = state_of(&[(0, 1), (10, 2)]);
    assert_eq!(f.get_event_level(&mut on_edge), 2);
    let mut past_edge = state_of(&[(0, 1), (11, 2)]);
    assert_eq!(f.get_event_level(&mut past_edge), 1);
}

#[test]
fn same_timestamp_stage_pair_is_valid() {
    // delta 0 <= W: a stage-1-then-stage-2 pair on one timestamp counts
    let f = funnel(2, 10);
    let mut s = state_of(&[(5, 1), (5, 2)]);
    assert_eq!(f.get_event_level(&mut s), 2);
}

#[test]
fn merge_is_commutative() {
    let f = funnel(3, 10);
    let mut ab = state_of(&[(5, 2), (0, 1)]);
    let mut b1 = state_of(&[(9, 3)]);
    ab.merge(&mut b1);
    let mut ba = state_of(&[(9, 3)]);
    let mut a1 = state_of(&[(5, 2), (0, 1)]);
    ba.merge(&mut a1);
    assert_eq!(ab.events_list, ba.events_list);
    assert_eq!(f.get_event_level(&mut ab), f.get_event_level(&mut ba));
}

#[test]
fn merge_is_associative() {
    let a = [(0u64, 1u8), (5, 2)];
    let b = [(9u64, 3u8), (7, 2)];
    let c = [(1u64, 1u8), (1, 2)];
    let f = funnel(3, 10);

    let mut left = state_of(&a);
    let mut tmp = state_of(&b);
    left.merge(&mut tmp);
    let mut tmp = state_of(&c);
    left.merge(&mut tmp);

    let mut right_inner = state_of(&b);
    let mut tmp = state_of(&c);
    right_inner.merge(&mut tmp);
    let mut right = state_of(&a);
    right.merge(&mut right_inner);

    assert_eq!(left.events_list, right.events_list);
    assert_eq!(f.get_event_level(&mut left), f.get_event_level(&mut right));
}

#[test]
fn merge_empty_is_identity() {
    let f = funnel(3, 10);
    let mut s = state_of(&[(0, 1), (5, 2)]);
    let events_before = s.events_list.clone();
    let mut level_probe = state_of(&[(0, 1), (5, 2)]);
    let level_before = f.get_event_level(&mut level_probe);
    let mut empty = AggregateWindowFunnelState::new();
    s.merge(&mut empty);
    assert_eq!(s.events_list, events_before);
    assert_eq!(f.get_event_level(&mut s), level_before);
}

#[test]
fn merge_into_empty_copies_other_verbatim() {
    let mut s = AggregateWindowFunnelState::new();
    let mut other = state_of(&[(7, 2), (3, 1)]);
    assert!(!other.sorted);
    s.merge(&mut other);
    assert_eq!(s.events_list, vec![(7, 2), (3, 1)]);
    assert!(!s.sorted);
}

#[test]
fn merge_interleaves_and_keeps_duplicates() {
    let mut s = state_of(&[(0, 1), (5, 2)]);
    let mut other = state_of(&[(0, 1), (3, 2), (5, 2)]);
    s.merge(&mut other);
    assert_eq!(s.events_list, vec![(0, 1), (0, 1), (3, 2), (5, 2), (5, 2)]);
    assert!(s.sorted);
}

#[test]
fn adding_later_events_never_lowers_level() {
    let f = funnel(3, 10);
    let mut s = state_of(&[(0, 1), (5, 2)]);
    let before = f.get_event_level(&mut s);
    s.add(30, 3); // outside the window: no gain, no loss
    assert!(f.get_event_level(&mut s) >= before);
    s.add(31, 1); // late stage-1 does not restart the attempt
    assert!(f.get_event_level(&mut s) >= before);
    s.add(9, 3); // stage 3 at 9: delta from anchor[2] = 5 is 4, within the window
    assert_eq!(f.get_event_level(&mut s), 3);
}

#[test]
fn add_tracks_sortedness_incrementally() {
    let mut s = AggregateWindowFunnelState::new();
    assert!(s.sorted);
    s.add(5, 1);
    assert!(s.sorted);
    s.add(5, 2);
    assert!(s.sorted);
    s.add(5, 1); // same timestamp, lower stage: order broken
    assert!(!s.sorted);
    s.sort();
    assert!(s.sorted);
    assert_eq!(s.events_list, vec![(5, 1), (5, 1), (5, 2)]);
}

#[test]
fn accumulate_single_group() {
    let f = funnel(2, 10);
    let mut s = AggregateWindowFunnelState::new();
    let timestamps = vec![Some(0u64), None, Some(4)];
    let indicators = vec![vec![true, true, false], vec![false, true, true]];
    f.accumulate(&mut s, &timestamps, &indicators).unwrap();
    // row 0: stage 1; row 1: null timestamp, nothing; row 2: stage 2
    assert_eq!(s.events_list, vec![(0, 1), (4, 2)]);
    assert_eq!(f.get_event_level(&mut s), 2);
}

#[test]
fn accumulate_keys_routes_rows_to_groups() {
    let f = funnel(2, 10);
    let mut states = vec![
        AggregateWindowFunnelState::new(),
        AggregateWindowFunnelState::new(),
        AggregateWindowFunnelState::new(),
    ];
    let places = vec![0usize, 1, 0];
    let offset = 1usize;
    let timestamps = vec![Some(1u64), Some(2), Some(3)];
    let indicators = vec![vec![true, false, false], vec![false, true, true]];
    f.accumulate_keys(&mut states, &places, offset, &timestamps, &indicators).unwrap();
    assert_eq!(states[0].events_list, Vec::<(u64, u8)>::new());
    assert_eq!(states[1].events_list, vec![(1, 1), (3, 2)]);
    assert_eq!(states[2].events_list, vec![(2, 2)]);
}

#[test]
fn construction_rejects_missing_steps() {
    let r = try_create_aggregate_WindowFunnel_function("wf", fields(ColumnType::UInt64, 0));
    assert_eq!(r.err().unwrap(), Error::ArityError(1));
}

#[test]
fn construction_rejects_unsupported_timestamp_type() {
    let r = try_create_aggregate_WindowFunnel_function("wf", fields(ColumnType::Utf8, 2));
    assert_eq!(r.err().unwrap(), Error::UnsupportedType(ColumnType::Utf8));
    let r = try_create_aggregate_WindowFunnel_function("wf", fields(ColumnType::Int32, 2));
    assert_eq!(r.err().unwrap(), Error::UnsupportedType(ColumnType::Int32));
}

#[test]
fn construction_selects_width_and_defaults() {
    let f = try_create_aggregate_WindowFunnel_function("my_funnel", fields(ColumnType::UInt16, 3))
        .unwrap();
    assert_eq!(f.event_size, 3);
    assert_eq!(f.window, WINDOW);
    assert_eq!(f.window, 1024);
    assert_eq!(f.width, TimestampWidth::W16);
    assert_eq!(f.display(), "my_funnel");
    assert_eq!(f.name(), "AggregateWindowFunnelFunction");
    assert_eq!(f.return_type().unwrap(), ColumnType::UInt8);
    assert!(!f.nullable().unwrap());
}

#[test]
fn merge_result_matches_get_event_level() {
    let f = funnel(3, 10);
    let mut s = state_of(&[(0, 1), (5, 2), (9, 3)]);
    assert_eq!(f.merge_result(&mut s).unwrap(), 3);
}

#[test]
fn function_merge_folds_partial_states() {
    let f = funnel(2, 10);
    let mut s = state_of(&[(0, 1)]);
    let mut rhs = state_of(&[(4, 2)]);
    f.merge(&mut s, &mut rhs).unwrap();
    assert_eq!(s.events_list, vec![(0, 1), (4, 2)]);
    assert_eq!(f.merge_result(&mut s).unwrap(), 2);
}
