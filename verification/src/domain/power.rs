//! Battery measurements. Electrical values are exact integers; conversions
//! to floating-point volts, amperes, watts, percentages and degrees happen
//! where they are displayed.
use vstd::prelude::*;

verus! {

#[derive(Debug, Clone, Copy, PartialEq, Eq, Structural)]
pub struct Millivolts(pub i64);

/// Signed battery current: positive means charging; negative means energy
/// leaving the battery.
#[derive(Debug, Clone, Copy, PartialEq, Eq, Structural)]
pub struct Milliamps(pub i64);

/// Power in microwatts (millivolts times milliamperes), signed as the current.
#[derive(Debug, Clone, Copy, PartialEq, Eq, Structural)]
pub struct Microwatts(pub i128);

/// A Smart Battery temperature reading, in tenths of a kelvin.
#[derive(Debug, Clone, Copy, PartialEq, Eq, Structural)]
pub struct DeciKelvin(pub i64);

/// A capacity share: `part / whole` of 100 percent.
#[derive(Debug, Clone, Copy, PartialEq, Eq, Structural)]
pub struct Fraction {
    pub part: i64,
    pub whole: i64,
}

proof fn lemma_product_fits(a: int, b: int)
    requires
        -0x8000_0000_0000_0000 <= a < 0x8000_0000_0000_0000,
        -0x8000_0000_0000_0000 <= b < 0x8000_0000_0000_0000,
    ensures
        -0x4000_0000_0000_0000_0000_0000_0000_0000 <= a * b <= 0x4000_0000_0000_0000_0000_0000_0000_0000,
{
    let m = 0x8000_0000_0000_0000int;
    let (x, y) = (if a < 0 { -a } else { a }, if b < 0 { -b } else { b });
    assert(x * y <= m * m) by (nonlinear_arith)
        requires
            0 <= x <= m,
            0 <= y <= m,
    ;
    assert(a * b == x * y || a * b == -(x * y)) by (nonlinear_arith)
        requires
            x == a || x == -a,
            y == b || y == -b,
    ;
    assert(m * m == 0x4000_0000_0000_0000_0000_0000_0000_0000) by (nonlinear_arith)
        requires
            m == 0x8000_0000_0000_0000int,
    ;
    assert(x * y >= 0) by (nonlinear_arith)
        requires
            x >= 0,
            y >= 0,
    ;
}

impl Millivolts {
    /// The power at the battery terminals for a current, exactly.
    pub fn power(self, current: Milliamps) -> (w: Microwatts)
        ensures
            w.0 == self.0 * current.0,
    {
        proof {
            lemma_product_fits(self.0 as int, current.0 as int);
        }
        Microwatts(self.0 as i128 * current.0 as i128)
    }
}

#[derive(Debug, Clone, Copy, PartialEq, Eq, Structural)]
pub enum BatteryState {
    Charging,
    Discharging,
    FullyCharged,
    NotCharging,
    Unknown,
}

impl Default for BatteryState {
    fn default() -> (s: Self)
        ensures
            s == BatteryState::Unknown,
    {
        BatteryState::Unknown
    }
}

/// The battery state told by the charging, fully-charged and AC flags.
pub open spec fn state_of(charging: Option<bool>, full: Option<bool>, ac: Option<bool>) -> BatteryState {
    if charging == Some(true) {
        BatteryState::Charging
    } else if full == Some(true) {
        BatteryState::FullyCharged
    } else if charging == Some(false) && ac == Some(false) {
        BatteryState::Discharging
    } else if charging == Some(false) && ac == Some(true) {
        BatteryState::NotCharging
    } else {
        BatteryState::Unknown
    }
}

/// Charging wins over every other flag; fully charged wins over AC; a
/// battery that is not charging discharges off AC and pauses on AC; the
/// state is unknown exactly when the flags leave it open.
pub proof fn lemma_state_from_flags(charging: Option<bool>, full: Option<bool>, ac: Option<bool>)
    ensures
        charging == Some(true) ==> state_of(charging, full, ac) == BatteryState::Charging,
        charging != Some(true) && full == Some(true) ==> state_of(charging, full, ac) == BatteryState::FullyCharged,
        state_of(charging, full, ac) == BatteryState::Discharging <==> charging == Some(false) && full != Some(true)
            && ac == Some(false),
        state_of(charging, full, ac) == BatteryState::NotCharging <==> charging == Some(false) && full != Some(true)
            && ac == Some(true),
        state_of(charging, full, ac) == BatteryState::Unknown <==> full != Some(true) && (charging is None || (
        charging == Some(false) && ac is None)),
{
    match charging {
        Some(c) => if c {
            assert(charging == Some(true));
        } else {
            assert(charging == Some(false));
            match ac {
                Some(x) => if x {
                    assert(ac == Some(true));
                } else {
                    assert(ac == Some(false));
                },
                None => {},
            }
        },
        None => {},
    }
}

impl BatteryState {
    /// Charging wins, then fully charged; a battery that is not charging is
    /// discharging off AC and paused on AC; anything else is unknown.
    pub fn from_flags(charging: Option<bool>, full: Option<bool>, ac: Option<bool>) -> (s: Self)
        ensures
            s == state_of(charging, full, ac),
            charging == Some(true) ==> s == BatteryState::Charging,
            charging != Some(true) && full == Some(true) ==> s == BatteryState::FullyCharged,
            charging == Some(false) && full != Some(true) && ac == Some(false) ==> s == BatteryState::Discharging,
            charging == Some(false) && full != Some(true) && ac == Some(true) ==> s == BatteryState::NotCharging,
            s == BatteryState::Unknown <==> full != Some(true) && (charging is None || (charging == Some(false)
                && ac is None)),
    {
        match (charging, full, ac) {
            (Some(true), _, _) => BatteryState::Charging,
            (_, Some(true), _) => BatteryState::FullyCharged,
            (Some(false), _, Some(false)) => BatteryState::Discharging,
            (Some(false), _, Some(true)) => BatteryState::NotCharging,
            _ => BatteryState::Unknown,
        }
    }
}

/// What is known of an internal battery; every measurement is optional.
#[derive(Debug, Clone, Copy, PartialEq, Eq, Structural)]
pub struct BatteryMetrics {
    /// Current over maximum capacity, from the same power-source description.
    pub charge: Option<Fraction>,
    pub state: BatteryState,
    pub ac_connected: Option<bool>,
    pub time_to_empty_secs: Option<u64>,
    pub time_to_full_secs: Option<u64>,
    pub cycle_count: Option<u64>,
    /// Full-charge over design capacity, both in mAh.
    pub health: Option<Fraction>,
    pub voltage: Option<Millivolts>,
    pub current: Option<Milliamps>,
    pub power: Option<Microwatts>,
    pub temperature: Option<DeciKelvin>,
}

impl Default for BatteryMetrics {
    fn default() -> (b: Self)
        ensures
            b == empty_metrics(),
    {
        BatteryMetrics {
            charge: None,
            state: BatteryState::Unknown,
            ac_connected: None,
            time_to_empty_secs: None,
            time_to_full_secs: None,
            cycle_count: None,
            health: None,
            voltage: None,
            current: None,
            power: None,
            temperature: None,
        }
    }
}

/// No measurement at all, state unknown.
pub open spec fn empty_metrics() -> BatteryMetrics {
    BatteryMetrics {
        charge: None,
        state: BatteryState::Unknown,
        ac_connected: None,
        time_to_empty_secs: None,
        time_to_full_secs: None,
        cycle_count: None,
        health: None,
        voltage: None,
        current: None,
        power: None,
        temperature: None,
    }
}

#[derive(Debug, Clone, Copy, PartialEq, Eq, Structural)]
pub enum PowerSnapshot {
    NoBattery,
    Battery(BatteryMetrics),
}

#[derive(Debug, Clone)]
pub enum PowerError {
    Unsupported,
    PermissionDenied(String),
    SystemApi(String),
    DataUnavailable(String),
    InvalidData(String),
}

/// A source of battery snapshots, implemented per platform and by tests.
pub trait PowerRepository {
    fn power(&mut self) -> Result<PowerSnapshot, PowerError>;
}

} // verus!
