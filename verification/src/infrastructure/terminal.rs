//! Lines of the battery view.
use crate::domain::power::{BatteryMetrics, BatteryState};
use crate::text;
use vstd::prelude::*;

verus! {

/// A labelled row: the label padded to 20 characters, then the value or
/// `N/A`, then a line break.
pub open spec fn row_text(label: Seq<char>, value: Option<Seq<char>>) -> Seq<char> {
    text::pad_right(label, 20) + match value {
        Some(v) => v,
        None => "N/A"@,
    } + "\n"@
}

pub fn row(label: &str, value: Option<&str>) -> (r: String)
    ensures
        r@ == row_text(label@, match value {
            Some(v) => Some(v@),
            None => None,
        }),
{
    let mut r = text::padded(label, 20);
    match value {
        Some(v) => r.append(v),
        None => r.append("N/A"),
    }
    r.append("\n");
    r
}

/// Hours, then minutes within the hour on two digits: `5h 07m`.
pub open spec fn time_text(seconds: nat) -> Seq<char> {
    let minutes = seconds / 60 % 60;
    let two_digits = if minutes < 10 {
        "0"@ + text::decimal(minutes)
    } else {
        text::decimal(minutes)
    };
    text::decimal(seconds / 3600) + "h "@ + two_digits + "m"@
}

pub fn format_time(seconds: u64) -> (r: String)
    ensures
        r@ == time_text(seconds as nat),
{
    let mut r = text::decimal_text(seconds / 3600);
    r.append("h ");
    let minutes = seconds / 60 % 60;
    if minutes < 10 {
        r.append("0");
    }
    let m = text::decimal_text(minutes);
    r.append(m.as_str());
    r.append("m");
    r
}

/// The name of a charging state as the battery view shows it.
pub open spec fn state_name(state: BatteryState) -> Seq<char> {
    match state {
        BatteryState::Charging => "Charging"@,
        BatteryState::Discharging => "Discharging"@,
        BatteryState::FullyCharged => "Fully charged"@,
        BatteryState::NotCharging => "Not charging"@,
        BatteryState::Unknown => "Unknown"@,
    }
}

pub fn state_text(state: BatteryState) -> (r: &'static str)
    ensures
        r@ == state_name(state),
{
    match state {
        BatteryState::Charging => "Charging",
        BatteryState::Discharging => "Discharging",
        BatteryState::FullyCharged => "Fully charged",
        BatteryState::NotCharging => "Not charging",
        BatteryState::Unknown => "Unknown",
    }
}

/// The time-estimate row: the time to full while charging, the time
/// remaining otherwise.
pub open spec fn time_row_text(b: BatteryMetrics) -> Seq<char> {
    let (label, secs) = if b.state == BatteryState::Charging {
        ("Time to full"@, b.time_to_full_secs)
    } else {
        ("Time remaining"@, b.time_to_empty_secs)
    };
    row_text(label, match secs {
        Some(t) => Some(time_text(t as nat)),
        None => None,
    })
}

pub fn time_row(b: &BatteryMetrics) -> (r: String)
    ensures
        r@ == time_row_text(*b),
{
    let (label, secs) = if b.state == BatteryState::Charging {
        ("Time to full", b.time_to_full_secs)
    } else {
        ("Time remaining", b.time_to_empty_secs)
    };
    match secs {
        Some(t) => {
            let value = format_time(t);
            row(label, Some(value.as_str()))
        },
        None => row(label, None),
    }
}

} // verus!
