use vstd::prelude::*;

pub mod codec;
pub mod funnel;
pub mod level;
pub mod state;
pub mod statements;

verus! {

/// Ordering key on events: timestamp ascending, then stage ascending.
pub open spec fn key_le(a: (u64, u8), b: (u64, u8)) -> bool {
    a.0 < b.0 || (a.0 == b.0 && a.1 <= b.1)
}

/// A sequence of events in (timestamp, stage) order.
pub open spec fn sorted_events(s: Seq<(u64, u8)>) -> bool {
    forall|i: int, j: int| 0 <= i < j < s.len() ==> key_le(s[i], s[j])
}

/// The column types the surrounding engine can hand to this aggregate.
/// Timestamps must come from the unsigned-integer family.
#[derive(Clone, Copy, Debug, PartialEq, Eq, Structural)]
pub enum ColumnType {
    Boolean,
    UInt8,
    UInt16,
    UInt32,
    UInt64,
    Int8,
    Int16,
    Int32,
    Int64,
    Utf8,
}

/// The closed set of unsigned-integer representations that can back the
/// timestamp domain; selected once at aggregate construction.
#[derive(Clone, Copy, Debug, PartialEq, Eq, Structural)]
pub enum TimestampWidth {
    W8,
    W16,
    W32,
    W64,
}

/// The timestamp representation backing a column type, if the type is in the
/// supported unsigned-integer family.
pub open spec fn width_of(t: ColumnType) -> Option<TimestampWidth> {
    match t {
        ColumnType::UInt8 => Some(TimestampWidth::W8),
        ColumnType::UInt16 => Some(TimestampWidth::W16),
        ColumnType::UInt32 => Some(TimestampWidth::W32),
        ColumnType::UInt64 => Some(TimestampWidth::W64),
        _ => None,
    }
}

/// Whether a timestamp value is representable in the given width.
pub open spec fn fits_width(w: TimestampWidth, t: u64) -> bool {
    match w {
        TimestampWidth::W8 => t < 0x100,
        TimestampWidth::W16 => t < 0x1_0000,
        TimestampWidth::W32 => t < 0x1_0000_0000,
        TimestampWidth::W64 => true,
    }
}

/// Whether every event timestamp is representable in the given width.
pub open spec fn ts_all_fit(s: Seq<(u64, u8)>, w: TimestampWidth) -> bool {
    forall|i: int| 0 <= i < s.len() ==> fits_width(w, (#[trigger] s[i]).0)
}

/// Hard query-execution errors; none of these are retried internally.
#[derive(Clone, Copy, Debug, PartialEq, Eq, Structural)]
pub enum Error {
    /// The timestamp column type is outside the supported unsigned-integer
    /// family; raised once at construction time.
    UnsupportedType(ColumnType),
    /// Fewer than two input columns, i.e. zero funnel steps; raised at
    /// construction time.
    ArityError(usize),
    /// A truncated or inconsistent serialized state.
    MalformedState,
    /// A malformed statement, such as an empty database name.
    SyntaxException,
}

} // verus!
