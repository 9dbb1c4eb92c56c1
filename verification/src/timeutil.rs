//! The wall clock, read through `chrono`.  Nothing is promised of what the
//! clock returns beyond the shape of its fields.

use vstd::prelude::*;

verus! {

/// Relies on `chrono::Local::now` with `Timelike::num_seconds_from_midnight`
/// (`hour*3600 + minute*60 + second`, at most 86399) and
/// `Weekday::number_from_monday` (1 through 7).
#[verifier::external_body]
pub fn local_now_fields() -> (r: (u32, u32))
    ensures
        r.0 < 86400,
        1 <= r.1 <= 7,
{
    let now = chrono::Local::now();
    (
        chrono::Timelike::num_seconds_from_midnight(&now),
        chrono::Datelike::weekday(&now).number_from_monday(),
    )
}

/// Relies on `chrono::Utc::now().timestamp()`: seconds since the Unix
/// epoch.  The clock may move; the stated range holds of every outcome
/// because chrono's dates span years within roughly plus or minus 262000,
/// keeping the timestamp far inside the signed 63-bit range.
#[verifier::external_body]
pub fn utc_now_timestamp() -> (r: i64)
    ensures
        -0x4000_0000_0000_0000 < r < 0x4000_0000_0000_0000,
{
    chrono::Utc::now().timestamp()
}

} // verus!
