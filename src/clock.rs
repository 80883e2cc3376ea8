//! The wall-clock time that stamps each record.
use vstd::prelude::*;
use crate::record::valid_stamp;

verus! {

/// Relies on std's `SystemTime::now` and `duration_since(UNIX_EPOCH)`, on
/// chrono's `DateTime::from_timestamp` (`None` out of its range) and on
/// `DateTime::to_rfc3339_opts` with `SecondsFormat::AutoSi` and `use_z` set,
/// which writes the text that chrono's serde support writes for a UTC time.
/// `None` for a clock before 1970 or beyond chrono's range; nothing here panics.
#[verifier::external_body]
pub(crate) fn now_stamp() -> (r: Option<Vec<u8>>)
    ensures
        r matches Some(s) ==> valid_stamp(s@),
{
    let since = std::time::SystemTime::now().duration_since(std::time::UNIX_EPOCH);
    let utc = match since {
        Ok(d) => chrono::DateTime::from_timestamp(d.as_secs() as i64, d.subsec_nanos()),
        Err(_) => None,
    };
    utc.map(|t| t.to_rfc3339_opts(chrono::SecondsFormat::AutoSi, true).into_bytes())
}

} // verus!
