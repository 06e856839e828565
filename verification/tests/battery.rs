use system_usage_analyzer::domain::power::{
    BatteryState, DeciKelvin, Fraction, Microwatts, Milliamps, Millivolts, PowerSnapshot,
};
use system_usage_analyzer::infrastructure::battery::{
    base_metrics, battery_snapshot, enrich, PowerSourceReadings, RegistryReadings,
};

fn source() -> PowerSourceReadings {
    PowerSourceReadings {
        current_capacity: Some(71),
        max_capacity: Some(100),
        is_charging: Some(false),
        is_charged: None,
        power_source_state: Some("Battery Power".into()),
        time_to_empty: Some(-1),
        time_to_full_charge: None,
    }
}
fn registry() -> RegistryReadings {
    RegistryReadings {
        external_connected: None,
        cycle_count: None,
        voltage: Some(12_000),
        amperage: Some(-1_000),
        raw_max_capacity: None,
        design_capacity: None,
        temperature: None,
    }
}

#[test]
fn malformed_optional_fields_preserve_valid_metrics() {
    // the cycle count was malformed, so it was read as absent
    let mut battery = base_metrics(&source());
    enrich(&mut battery, &registry());
    assert_eq!(
        battery.charge.map(|f| f.part as f64 / f.whole as f64 * 100.0),
        Some(71.0)
    );
    assert_eq!(battery.state, BatteryState::Discharging);
    assert_eq!(battery.time_to_empty_secs, None);
    assert_eq!(battery.cycle_count, None);
    assert_eq!(battery.power.map(|p| p.0 as f64 / 1_000_000.0), Some(-12.0));
}

#[test]
fn time_estimate_follows_state_and_registry_refines_ac() {
    let mut s = source();
    s.time_to_empty = Some(327);
    s.time_to_full_charge = Some(30);
    let b = base_metrics(&s);
    assert_eq!(b.ac_connected, Some(false));
    assert_eq!(b.time_to_empty_secs, Some(327 * 60));
    assert_eq!(b.time_to_full_secs, None);
    s.is_charging = Some(true);
    s.power_source_state = Some("AC Power".into());
    let mut b = base_metrics(&s);
    assert_eq!(b.state, BatteryState::Charging);
    assert_eq!(b.time_to_empty_secs, None);
    assert_eq!(b.time_to_full_secs, Some(1800));
    let mut r = registry();
    r.external_connected = Some(false);
    r.cycle_count = Some(418);
    r.raw_max_capacity = Some(4150);
    r.design_capacity = Some(5000);
    r.temperature = Some(3033);
    r.amperage = Some(2_131);
    r.voltage = Some(12_290);
    enrich(&mut b, &r);
    assert_eq!(b.ac_connected, Some(false));
    assert_eq!(b.state, BatteryState::Charging);
    assert_eq!(b.cycle_count, Some(418));
    assert_eq!(b.health, Some(Fraction { part: 4150, whole: 5000 }));
    assert_eq!(b.temperature, Some(DeciKelvin(3033)));
    assert_eq!(b.voltage, Some(Millivolts(12_290)));
    assert_eq!(b.current, Some(Milliamps(2_131)));
    assert_eq!(b.power, Some(Microwatts(26_189_990)));
}

#[test]
fn ac_power_without_charging_is_not_charging() {
    let mut s = source();
    s.power_source_state = Some("AC Power".into());
    assert_eq!(base_metrics(&s).state, BatteryState::NotCharging);
    s.power_source_state = Some("UPS Power".into());
    let b = base_metrics(&s);
    assert_eq!(b.ac_connected, None);
    assert_eq!(b.state, BatteryState::Unknown);
    s.is_charged = Some(true);
    assert_eq!(base_metrics(&s).state, BatteryState::FullyCharged);
}

#[test]
fn absent_battery_and_failed_registry() {
    assert_eq!(
        battery_snapshot(Some(false), &source(), Some(registry())),
        PowerSnapshot::NoBattery
    );
    let snapshot = battery_snapshot(None, &source(), None);
    assert_eq!(snapshot, PowerSnapshot::Battery(base_metrics(&source())));
    match battery_snapshot(Some(true), &source(), Some(registry())) {
        PowerSnapshot::Battery(b) => {
            assert_eq!(b.voltage, Some(Millivolts(12_000)));
            assert_eq!(b.charge, Some(Fraction { part: 71, whole: 100 }));
        }
        PowerSnapshot::NoBattery => panic!("battery expected"),
    }
}
