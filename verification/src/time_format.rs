use vstd::prelude::*;

use chrono::Offset;
use chrono::TimeZone;

verus! {

/// The rendered date-time text for an epoch-seconds value at a fixed UTC
/// offset, at second resolution, or nothing when the instant is out of the
/// calendar's range. The result depends on the two arguments alone.
pub uninterp spec fn ts_prefix(sec: int, offset: int) -> Option<Seq<u8>>;

/// Relies on chrono's `DateTime::from_timestamp`, `FixedOffset::east_opt` and
/// `DateTime::format`: renders `sec` at the given offset as
/// `%y%m%d %H:%M:%S`. The rendering is a function of `sec` and `offset`
/// alone; `from_timestamp` returns nothing for out-of-range instants, and
/// `east_opt` accepts every offset strictly between -86400 and 86400.
#[verifier::external_body]
pub(crate) fn format_timestamp(sec: i64, offset: i32) -> (r: Option<Vec<u8>>)
    requires
        -86400 < offset < 86400,
    ensures
        match r {
            Some(v) => ts_prefix(sec as int, offset as int) == Some(v@),
            None => ts_prefix(sec as int, offset as int) is None,
        },
{
    match chrono::DateTime::from_timestamp(sec, 0) {
        Some(dt) => {
            let tz = chrono::FixedOffset::east_opt(offset).unwrap();
            Some(dt.with_timezone(&tz).format("%y%m%d %H:%M:%S").to_string().into_bytes())
        },
        None => None,
    }
}

/// Relies on chrono's `Local`: the machine's UTC offset at the epoch, in
/// seconds, or zero when the zone lookup yields nothing. The value depends
/// on the machine, so nothing is assumed of it beyond the bounds chrono
/// keeps for every `FixedOffset`.
#[verifier::external_body]
pub(crate) fn local_utc_offset() -> (r: i32)
    ensures
        -86400 < r < 86400,
{
    match chrono::offset::Local.timestamp_opt(0, 0) {
        chrono::LocalResult::Single(dt) => dt.offset().fix().local_minus_utc(),
        _ => 0,
    }
}

} // verus!
