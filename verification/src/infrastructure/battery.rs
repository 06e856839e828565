//! Battery metrics from the values read out of the power-source description
//! and the battery registry entry. A value that is absent or of the wrong
//! type is read as `None`.
use crate::domain::power::{BatteryMetrics, BatteryState, PowerSnapshot};
use crate::infrastructure::power_values;
use crate::text;
use vstd::prelude::*;

verus! {

/// The power-source description of the internal battery.
#[derive(Debug)]
pub struct PowerSourceReadings {
    pub current_capacity: Option<i64>,
    pub max_capacity: Option<i64>,
    pub is_charging: Option<bool>,
    pub is_charged: Option<bool>,
    pub power_source_state: Option<String>,
    pub time_to_empty: Option<i64>,
    pub time_to_full_charge: Option<i64>,
}

/// The battery registry entry; its capacities are physical mAh.
#[derive(Debug, Clone, Copy)]
pub struct RegistryReadings {
    pub external_connected: Option<bool>,
    pub cycle_count: Option<i64>,
    pub voltage: Option<i64>,
    pub amperage: Option<i64>,
    pub raw_max_capacity: Option<i64>,
    pub design_capacity: Option<i64>,
    pub temperature: Option<i64>,
}

/// AC connection as the active power source reports it.
pub open spec fn ac_of(state: Option<Seq<char>>) -> Option<bool> {
    match state {
        Some(s) => if s == "AC Power"@ {
            Some(true)
        } else if s == "Battery Power"@ {
            Some(false)
        } else {
            None
        },
        None => None,
    }
}

pub open spec fn opt_text(o: Option<String>) -> Option<Seq<char>> {
    match o {
        Some(s) => Some(s@),
        None => None,
    }
}

/// The metrics a power-source description gives: charge, state, AC and the
/// time estimate that fits the state (to empty while discharging, to full
/// while charging).
pub open spec fn base_of(source: PowerSourceReadings) -> BatteryMetrics {
    let ac = ac_of(opt_text(source.power_source_state));
    let state = crate::domain::power::state_of(source.is_charging, source.is_charged, ac);
    BatteryMetrics {
        charge: power_values::charge_of(source.current_capacity, source.max_capacity),
        state,
        ac_connected: ac,
        time_to_empty_secs: if state == BatteryState::Discharging {
            power_values::minutes_of(source.time_to_empty)
        } else {
            None
        },
        time_to_full_secs: if state == BatteryState::Charging {
            power_values::minutes_of(source.time_to_full_charge)
        } else {
            None
        },
        cycle_count: None,
        health: None,
        voltage: None,
        current: None,
        power: None,
        temperature: None,
    }
}

/// The registry refines AC connection (physical connection can differ from
/// the active power source) and adds cycle count, voltage, current, power,
/// health and temperature; charge, state and time estimates stay.
pub open spec fn enriched(b: BatteryMetrics, r: RegistryReadings) -> BatteryMetrics {
    let voltage = power_values::voltage_of(r.voltage);
    let current = power_values::current_of(r.amperage);
    BatteryMetrics {
        ac_connected: if r.external_connected is Some {
            r.external_connected
        } else {
            b.ac_connected
        },
        cycle_count: match r.cycle_count {
            Some(n) => if n >= 0 {
                Some(n as u64)
            } else {
                None
            },
            None => None,
        },
        voltage,
        current,
        power: match (voltage, current) {
            (Some(v), Some(a)) => Some(crate::domain::power::Microwatts((v.0 * a.0) as i128)),
            _ => None,
        },
        health: power_values::health_of(r.raw_max_capacity, r.design_capacity),
        temperature: power_values::temperature_of(r.temperature),
        ..b
    }
}

fn ac_from(state: &Option<String>) -> (r: Option<bool>)
    ensures
        r == ac_of(opt_text(*state)),
{
    match state {
        Some(s) => if text::is_text(s, "AC Power") {
            Some(true)
        } else if text::is_text(s, "Battery Power") {
            Some(false)
        } else {
            None
        },
        None => None,
    }
}

pub fn base_metrics(source: &PowerSourceReadings) -> (b: BatteryMetrics)
    ensures
        b == base_of(*source),
{
    let ac = ac_from(&source.power_source_state);
    let state = BatteryState::from_flags(source.is_charging, source.is_charged, ac);
    BatteryMetrics {
        charge: power_values::charge_fraction(source.current_capacity, source.max_capacity),
        state,
        ac_connected: ac,
        time_to_empty_secs: if state == BatteryState::Discharging {
            power_values::minutes(source.time_to_empty)
        } else {
            None
        },
        time_to_full_secs: if state == BatteryState::Charging {
            power_values::minutes(source.time_to_full_charge)
        } else {
            None
        },
        cycle_count: None,
        health: None,
        voltage: None,
        current: None,
        power: None,
        temperature: None,
    }
}

pub fn enrich(battery: &mut BatteryMetrics, registry: &RegistryReadings)
    ensures
        *final(battery) == enriched(*old(battery), *registry),
{
    if let Some(ac) = registry.external_connected {
        battery.ac_connected = Some(ac);
    }
    battery.cycle_count = match registry.cycle_count {
        Some(n) => if n >= 0 {
            Some(n as u64)
        } else {
            None
        },
        None => None,
    };
    battery.voltage = power_values::voltage(registry.voltage);
    battery.current = power_values::current(registry.amperage);
    battery.power = match (battery.voltage, battery.current) {
        (Some(v), Some(a)) => Some(v.power(a)),
        _ => None,
    };
    battery.health = power_values::health_fraction(registry.raw_max_capacity, registry.design_capacity);
    battery.temperature = power_values::temperature_reading(registry.temperature);
}

/// The snapshot of a present battery: the base metrics, enriched when the
/// registry could be read (its failure does not discard the base metrics);
/// `NoBattery` when the description says the battery is not present.
pub fn battery_snapshot(
    is_present: Option<bool>,
    source: &PowerSourceReadings,
    registry: Option<RegistryReadings>,
) -> (s: PowerSnapshot)
    ensures
        s == (if is_present == Some(false) {
            PowerSnapshot::NoBattery
        } else {
            match registry {
                Some(r) => PowerSnapshot::Battery(enriched(base_of(*source), r)),
                None => PowerSnapshot::Battery(base_of(*source)),
            }
        }),
{
    if is_present == Some(false) {
        return PowerSnapshot::NoBattery;
    }
    let mut battery = base_metrics(source);
    if let Some(r) = registry {
        enrich(&mut battery, &r);
    }
    PowerSnapshot::Battery(battery)
}

/// Battery power carries the sign of the current: positive while charging,
/// negative while discharging, zero without current.
pub proof fn lemma_power_sign_follows_current(b: BatteryMetrics, r: RegistryReadings)
    ensures
        enriched(b, r).power matches Some(p) ==> {
            let a = enriched(b, r).current.unwrap().0;
            &&& (p.0 > 0 <==> a > 0)
            &&& (p.0 < 0 <==> a < 0)
            &&& (p.0 == 0 <==> a == 0)
        },
{
    let e = enriched(b, r);
    if let Some(p) = e.power {
        let v = e.voltage.unwrap().0 as int;
        let a = e.current.unwrap().0 as int;
        assert(1 <= v <= 100_000 && -100_000 <= a <= 100_000);
        assert(-10_000_000_000 <= v * a <= 10_000_000_000) by (nonlinear_arith)
            requires
                1 <= v <= 100_000,
                -100_000 <= a <= 100_000,
        ;
        assert(p.0 == v * a);
        assert(a > 0 ==> v * a > 0) by (nonlinear_arith)
            requires
                v >= 1,
        ;
        assert(a < 0 ==> v * a < 0) by (nonlinear_arith)
            requires
                v >= 1,
        ;
        assert(a == 0 ==> v * a == 0) by (nonlinear_arith);
    }
}

/// Enrichment never discards the base measurements: charge, state and time
/// estimates stay as the power-source description gave them.
pub proof fn lemma_enrichment_keeps_base(b: BatteryMetrics, r: RegistryReadings)
    ensures
        enriched(b, r).charge == b.charge,
        enriched(b, r).state == b.state,
        enriched(b, r).time_to_empty_secs == b.time_to_empty_secs,
        enriched(b, r).time_to_full_secs == b.time_to_full_secs,
        r.external_connected is None ==> enriched(b, r).ac_connected == b.ac_connected,
{
}

} // verus!
