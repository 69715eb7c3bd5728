//! Candle interval arithmetic: the seconds each supported interval name
//! spans.

use vstd::prelude::*;

use crate::extract::str_eq;

verus! {

/// The seconds behind an interval name, or nothing for a name that the
/// candle tables do not aggregate by.
pub fn interval_in_seconds(interval: &str) -> (r: Option<i64>)
    ensures
        match r {
            Some(v) => (interval@ == "1m"@ && v == 60) || (interval@ == "5m"@ && v == 300) || (
            interval@ == "15m"@ && v == 900) || (interval@ == "30m"@ && v == 1800) || (interval@
                == "1h"@ && v == 3600) || (interval@ == "2h"@ && v == 7200) || (interval@ == "3h"@
                && v == 10800) || (interval@ == "4h"@ && v == 14400) || (interval@ == "6h"@ && v
                == 21600) || (interval@ == "12h"@ && v == 43200) || (interval@ == "1d"@ && v
                == 86400),
            None => interval@ != "1m"@ && interval@ != "5m"@ && interval@ != "15m"@ && interval@
                != "30m"@ && interval@ != "1h"@ && interval@ != "2h"@ && interval@ != "3h"@
                && interval@ != "4h"@ && interval@ != "6h"@ && interval@ != "12h"@ && interval@
                != "1d"@,
        },
{
    if str_eq(interval, "1m") {
        Some(60)
    } else if str_eq(interval, "5m") {
        Some(300)
    } else if str_eq(interval, "15m") {
        Some(900)
    } else if str_eq(interval, "30m") {
        Some(1800)
    } else if str_eq(interval, "1h") {
        Some(3600)
    } else if str_eq(interval, "2h") {
        Some(7200)
    } else if str_eq(interval, "3h") {
        Some(10800)
    } else if str_eq(interval, "4h") {
        Some(14400)
    } else if str_eq(interval, "6h") {
        Some(21600)
    } else if str_eq(interval, "12h") {
        Some(43200)
    } else if str_eq(interval, "1d") {
        Some(86400)
    } else {
        None
    }
}

} // verus!
