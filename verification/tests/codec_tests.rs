use bytes::BytesMut;
use window_funnel::funnel::{try_create_aggregate_WindowFunnel_function, DataField};
use window_funnel::state::AggregateWindowFunnelState;
use window_funnel::{ColumnType, Error, TimestampWidth};

fn state_of(events: &[(u64, u8)]) -> AggregateWindowFunnelState {
    let mut s = AggregateWindowFunnelState::new();
    for &(t, e) in events {
        s.add(t, e);
    }
    s
}

#[test]
fn serialize_exact_bytes_u16() {
    let s = state_of(&[(1, 1), (258, 2)]);
    let mut writer = BytesMut::new();
    s.serialize(&mut writer, TimestampWidth::W16).unwrap();
    assert_eq!(
        writer.as_ref(),
        &[1u8, 2, /* ts 1 */ 1, 0, /* stage */ 1, /* ts 258 */ 2, 1, /* stage */ 2]
    );
}

#[test]
fn serialize_records_unsorted_flag_verbatim() {
    let s = state_of(&[(9, 1), (3, 1)]);
    assert!(!s.sorted);
    let mut writer = BytesMut::new();
    s.serialize(&mut writer, TimestampWidth::W8).unwrap();
    assert_eq!(writer.as_ref(), &[0u8, 2, 9, 1, 3, 1]);
}

#[test]
fn serialize_appends_after_existing_bytes() {
    let s = state_of(&[(5, 1)]);
    let mut writer = BytesMut::new();
    writer.extend_from_slice(&[0xAA, 0xBB]);
    s.serialize(&mut writer, TimestampWidth::W8).unwrap();
    assert_eq!(writer.as_ref(), &[0xAA, 0xBB, 1, 1, 5, 1]);
}

#[test]
fn round_trip_reproduces_events_and_flag() {
    for width in [
        TimestampWidth::W8,
        TimestampWidth::W16,
        TimestampWidth::W32,
        TimestampWidth::W64,
    ] {
        let s = state_of(&[(0, 1), (5, 2), (5, 3), (200, 1)]);
        let mut writer = BytesMut::new();
        s.serialize(&mut writer, width).unwrap();
        let mut back = AggregateWindowFunnelState::new();
        let used = back.deserialize(writer.as_ref(), width).unwrap();
        assert_eq!(used, writer.len());
        assert_eq!(back.events_list, s.events_list);
        assert_eq!(back.sorted, s.sorted);
    }
}

#[test]
fn round_trip_empty_state() {
    let s = AggregateWindowFunnelState::new();
    let mut writer = BytesMut::new();
    s.serialize(&mut writer, TimestampWidth::W32).unwrap();
    assert_eq!(writer.as_ref(), &[1u8, 0]);
    let mut back = state_of(&[(1, 1)]);
    let used = back.deserialize(writer.as_ref(), TimestampWidth::W32).unwrap();
    assert_eq!(used, 2);
    assert!(back.events_list.is_empty());
    assert!(back.sorted);
}

#[test]
fn round_trip_unsorted_flag() {
    let s = state_of(&[(9, 1), (3, 2)]);
    let mut writer = BytesMut::new();
    s.serialize(&mut writer, TimestampWidth::W64).unwrap();
    let mut back = AggregateWindowFunnelState::new();
    back.deserialize(writer.as_ref(), TimestampWidth::W64).unwrap();
    assert_eq!(back.events_list, vec![(9, 1), (3, 2)]);
    assert!(!back.sorted);
}

#[test]
fn round_trip_large_count_uses_two_byte_varint() {
    let mut s = AggregateWindowFunnelState::new();
    for t in 0..200u64 {
        s.add(t, 1);
    }
    let mut writer = BytesMut::new();
    s.serialize(&mut writer, TimestampWidth::W16).unwrap();
    // count 200 = 0xC8 -> [0xC8, 0x01]
    assert_eq!(&writer.as_ref()[..3], &[1u8, 0xC8, 0x01]);
    assert_eq!(writer.len(), 3 + 200 * 3);
    let mut back = AggregateWindowFunnelState::new();
    let used = back.deserialize(writer.as_ref(), TimestampWidth::W16).unwrap();
    assert_eq!(used, writer.len());
    assert_eq!(back.events_list, s.events_list);
}

#[test]
fn deserialize_ignores_trailing_bytes() {
    let s = state_of(&[(7, 1)]);
    let mut writer = BytesMut::new();
    s.serialize(&mut writer, TimestampWidth::W8).unwrap();
    writer.extend_from_slice(&[0xDE, 0xAD]);
    let mut back = AggregateWindowFunnelState::new();
    let used = back.deserialize(writer.as_ref(), TimestampWidth::W8).unwrap();
    assert_eq!(used, writer.len() - 2);
    assert_eq!(back.events_list, vec![(7, 1)]);
}

#[test]
fn deserialize_rejects_truncation() {
    let s = state_of(&[(7, 1), (9, 2)]);
    let mut writer = BytesMut::new();
    s.serialize(&mut writer, TimestampWidth::W32).unwrap();
    let bytes = writer.as_ref();
    for cut in 0..bytes.len() {
        let mut back = state_of(&[(1, 1)]);
        let r = back.deserialize(&bytes[..cut], TimestampWidth::W32);
        assert_eq!(r.err().unwrap(), Error::MalformedState);
        // a failed read leaves the state untouched
        assert_eq!(back.events_list, vec![(1, 1)]);
        assert!(back.sorted);
    }
}

#[test]
fn deserialize_rejects_bad_flag_byte() {
    let mut back = AggregateWindowFunnelState::new();
    let r = back.deserialize(&[2u8, 0], TimestampWidth::W8);
    assert_eq!(r.err().unwrap(), Error::MalformedState);
}

#[test]
fn deserialize_rejects_lying_sorted_flag() {
    // flag claims sorted, but events are out of order
    let data = [1u8, 2, /* (9,1) */ 9, 1, /* (3,1) */ 3, 1];
    let mut back = AggregateWindowFunnelState::new();
    let r = back.deserialize(&data, TimestampWidth::W8);
    assert_eq!(r.err().unwrap(), Error::MalformedState);
}

#[test]
fn deserialize_rejects_overlong_varint() {
    let data = [1u8, 0x80, 0x80, 0x80, 0x80, 0x80, 0x80, 0x80, 0x80, 0x80, 0x80, 0x01];
    let mut back = AggregateWindowFunnelState::new();
    let r = back.deserialize(&data, TimestampWidth::W8);
    assert_eq!(r.err().unwrap(), Error::MalformedState);
}

#[test]
fn function_level_serialize_uses_selected_width() {
    let fields = vec![
        DataField { name: "ts".to_string(), data_type: ColumnType::UInt8 },
        DataField { name: "a".to_string(), data_type: ColumnType::Boolean },
    ];
    let f = try_create_aggregate_WindowFunnel_function("wf", fields).unwrap();
    let s = state_of(&[(250, 1)]);
    let mut writer = BytesMut::new();
    f.serialize(&s, &mut writer).unwrap();
    assert_eq!(writer.as_ref(), &[1u8, 1, 250, 1]);
    let mut back = AggregateWindowFunnelState::new();
    let used = f.deserialize(&mut back, writer.as_ref()).unwrap();
    assert_eq!(used, 4);
    assert_eq!(back.events_list, vec![(250, 1)]);
}
