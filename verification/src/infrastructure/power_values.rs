//! Pure decoding rules for platform data. Unknown/sentinel values stay absent.
use crate::domain::power::{DeciKelvin, Fraction, Milliamps, Millivolts};
use vstd::prelude::*;

verus! {

pub open spec fn charge_of(current: Option<i64>, maximum: Option<i64>) -> Option<Fraction> {
    match (current, maximum) {
        (Some(c), Some(m)) => if 0 <= c && 0 < m && c <= m {
            Some(Fraction { part: c, whole: m })
        } else {
            None
        },
        _ => None,
    }
}

pub open spec fn health_of(full_mah: Option<i64>, design_mah: Option<i64>) -> Option<Fraction> {
    match (full_mah, design_mah) {
        (Some(f), Some(d)) => if f > 100 && d > 100 && f <= 2 * d {
            Some(Fraction { part: f, whole: d })
        } else {
            None
        },
        _ => None,
    }
}

pub open spec fn minutes_of(value: Option<i64>) -> Option<u64> {
    match value {
        Some(m) => if 0 <= m && m != 65535 && m * 60 <= u64::MAX {
            Some((m * 60) as u64)
        } else {
            None
        },
        None => None,
    }
}

pub open spec fn voltage_of(value: Option<i64>) -> Option<Millivolts> {
    match value {
        Some(n) => if 1 <= n <= 100_000 {
            Some(Millivolts(n))
        } else {
            None
        },
        None => None,
    }
}

pub open spec fn current_of(value: Option<i64>) -> Option<Milliamps> {
    match value {
        Some(n) => if -100_000 <= n <= 100_000 {
            Some(Milliamps(n))
        } else {
            None
        },
        None => None,
    }
}

pub open spec fn temperature_of(value: Option<i64>) -> Option<DeciKelvin> {
    match value {
        Some(t) => if 2332 <= t <= 3731 {
            Some(DeciKelvin(t))
        } else {
            None
        },
        None => None,
    }
}

/// Current over maximum capacity, when both are present, the maximum is
/// positive and the current lies within `0..=maximum`.
pub fn charge_fraction(current: Option<i64>, maximum: Option<i64>) -> (r: Option<Fraction>)
    ensures
        r == charge_of(current, maximum),
{
    match (current, maximum) {
        (Some(c), Some(m)) => if c >= 0 && m > 0 && c <= m {
            Some(Fraction { part: c, whole: m })
        } else {
            None
        },
        _ => None,
    }
}

/// Full-charge over design capacity in mAh. Normalized percentages (100 or
/// less) and capacities above twice the design are rejected; health may
/// exceed 100% slightly on a new battery and is kept as it is.
pub fn health_fraction(full_mah: Option<i64>, design_mah: Option<i64>) -> (r: Option<Fraction>)
    ensures
        r == health_of(full_mah, design_mah),
{
    match (full_mah, design_mah) {
        (Some(full), Some(design)) => {
            if full > 100 && design > 100 {
                let doubled = match design.checked_mul(2) {
                    Some(d) => d,
                    None => i64::MAX,
                };
                if full <= doubled {
                    Some(Fraction { part: full, whole: design })
                } else {
                    None
                }
            } else {
                None
            }
        },
        _ => None,
    }
}

/// A time estimate in minutes, as seconds; negative values and the unknown
/// sentinel 65535 are absent.
pub fn minutes(value: Option<i64>) -> (r: Option<u64>)
    ensures
        r == minutes_of(value),
{
    let m = match value {
        Some(m) => m,
        None => {
            return None;
        },
    };
    if m < 0 {
        return None;
    }
    let minutes = m as u64;
    if minutes == 65535 {
        return None;
    }
    minutes.checked_mul(60)
}

/// A battery voltage within `1..=100_000` mV.
pub fn voltage(value: Option<i64>) -> (r: Option<Millivolts>)
    ensures
        r == voltage_of(value),
{
    match value {
        Some(n) => if 1 <= n && n <= 100_000 {
            Some(Millivolts(n))
        } else {
            None
        },
        None => None,
    }
}

/// A signed battery current within `-100_000..=100_000` mA; the sign is kept.
pub fn current(value: Option<i64>) -> (r: Option<Milliamps>)
    ensures
        r == current_of(value),
{
    match value {
        Some(n) => if -100_000 <= n && n <= 100_000 {
            Some(Milliamps(n))
        } else {
            None
        },
        None => None,
    }
}

/// A Smart Battery temperature in tenths of a kelvin, kept when it lies
/// within -40 °C..=100 °C, that is 2331.5..=3731.5 tenths of a kelvin;
/// other magnitudes are not reinterpreted in another unit.
pub fn temperature_reading(value: Option<i64>) -> (r: Option<DeciKelvin>)
    ensures
        r == temperature_of(value),
{
    match value {
        Some(t) => if 2332 <= t && t <= 3731 {
            Some(DeciKelvin(t))
        } else {
            None
        },
        None => None,
    }
}

} // verus!
