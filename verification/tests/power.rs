use std::collections::VecDeque;
use system_usage_analyzer::application::power::GetPowerMetrics;
use system_usage_analyzer::domain::power::{
    BatteryMetrics, BatteryState, DeciKelvin, Fraction, Microwatts, Milliamps, Millivolts, PowerError,
    PowerRepository, PowerSnapshot,
};
use system_usage_analyzer::infrastructure::power_provider::PlatformPowerRepository;
use system_usage_analyzer::infrastructure::power_values::{
    charge_fraction, current, health_fraction, minutes, temperature_reading, voltage,
};

const SECOND: u64 = 1_000_000_000;
const MILLISECOND: u64 = 1_000_000;

fn watts(power: Microwatts) -> f64 {
    power.0 as f64 / 1_000_000.0
}
fn percent(fraction: Option<Fraction>) -> Option<f64> {
    fraction.map(|f| f.part as f64 / f.whole as f64 * 100.0)
}
fn celsius(reading: DeciKelvin) -> f64 {
    reading.0 as f64 / 10.0 - 273.15
}

#[test]
fn electrical_units_and_signed_power() {
    assert_eq!(Millivolts(12_000).0 as f64 / 1000.0, 12.0);
    assert_eq!(Milliamps(1_000).0 as f64 / 1000.0, 1.0);
    assert_eq!(watts(Millivolts(12_000).power(Milliamps(1_000))), 12.0);
    assert_eq!(watts(Millivolts(12_000).power(Milliamps(-1_000))), -12.0);
    assert_eq!(watts(Millivolts(12_000).power(Milliamps(0))), 0.0);
}
#[test]
fn absent_invalid_and_zero_values() {
    assert_eq!(voltage(None), None);
    assert_eq!(current(None), None);
    assert_eq!(voltage(Some(0)), None);
    assert_eq!(voltage(Some(-1)), None);
    assert_eq!(current(Some(i64::MAX)), None);
    assert_eq!(current(Some(0)), Some(Milliamps(0)));
    let b = BatteryMetrics::default();
    assert_eq!(b.power, None);
    assert_eq!(b.charge, None);
    assert_eq!(b.state, BatteryState::Unknown);
}
#[test]
fn state_mapping_including_ac_without_charging() {
    for (charging, full, ac, expected) in [
        (Some(true), Some(false), Some(true), BatteryState::Charging),
        (
            Some(false),
            Some(false),
            Some(false),
            BatteryState::Discharging,
        ),
        (
            Some(false),
            Some(true),
            Some(true),
            BatteryState::FullyCharged,
        ),
        (
            Some(false),
            Some(false),
            Some(true),
            BatteryState::NotCharging,
        ),
        (None, None, None, BatteryState::Unknown),
        (Some(false), None, None, BatteryState::Unknown),
    ] {
        assert_eq!(BatteryState::from_flags(charging, full, ac), expected);
    }
}
#[test]
fn capacities_do_not_confuse_charge_and_health() {
    assert_eq!(percent(charge_fraction(Some(71), Some(100))), Some(71.0));
    assert_eq!(percent(charge_fraction(Some(0), Some(100))), Some(0.0));
    assert_eq!(percent(charge_fraction(Some(100), Some(0))), None);
    assert_eq!(percent(charge_fraction(Some(-1), Some(100))), None);
    assert_eq!(percent(charge_fraction(Some(101), Some(100))), None);
    assert_eq!(percent(health_fraction(Some(4400), Some(5000))), Some(88.0));
    assert_eq!(percent(health_fraction(Some(100), Some(5000))), None);
    assert_eq!(percent(health_fraction(None, Some(5000))), None);
    assert_eq!(percent(health_fraction(Some(5100), Some(5000))), Some(102.0));
}
#[test]
fn time_sentinels_and_temperature() {
    assert_eq!(minutes(Some(342)), Some(20_520));
    assert_eq!(minutes(Some(0)), Some(0));
    for value in [None, Some(-1), Some(65535), Some(i64::MAX)] {
        assert_eq!(minutes(value), None);
    }
    assert!((celsius(temperature_reading(Some(3074)).unwrap()) - 34.25).abs() < 0.001);
    assert_eq!(temperature_reading(None), None);
    assert_eq!(temperature_reading(Some(0)), None);
    assert_eq!(temperature_reading(Some(25_000)), None);
}
struct Fake {
    values: VecDeque<Result<PowerSnapshot, PowerError>>,
}
impl PowerRepository for Fake {
    fn power(&mut self) -> Result<PowerSnapshot, PowerError> {
        self.values.pop_front().expect("too many polls")
    }
}
#[test]
fn cache_throttles_errors_and_recovers() {
    let fake = Fake {
        values: [
            Ok(PowerSnapshot::NoBattery),
            Err(PowerError::PermissionDenied("IOKit".into())),
            Ok(PowerSnapshot::Battery(BatteryMetrics::default())),
        ]
        .into(),
    };
    let mut use_case = GetPowerMetrics::new(fake);
    let start = 7 * SECOND;
    assert!(matches!(
        use_case.execute(start),
        Ok(PowerSnapshot::NoBattery)
    ));
    assert!(matches!(
        use_case.execute(start + 1999 * MILLISECOND),
        Ok(PowerSnapshot::NoBattery)
    ));
    assert!(matches!(
        use_case.execute(start + 2 * SECOND),
        Err(PowerError::PermissionDenied(_))
    ));
    assert!(matches!(
        use_case.execute(start + 3 * SECOND),
        Err(PowerError::PermissionDenied(_))
    ));
    assert!(matches!(
        use_case.execute(start + 4 * SECOND),
        Ok(PowerSnapshot::Battery(_))
    ));
}

#[test]
fn cache_reports_not_sampled_before_first_poll_and_ignores_clock_going_back() {
    let fake = Fake {
        values: [Ok(PowerSnapshot::NoBattery), Err(PowerError::Unsupported)].into(),
    };
    let mut use_case = GetPowerMetrics::new(fake);
    assert!(matches!(use_case.execute(5 * SECOND), Ok(PowerSnapshot::NoBattery)));
    // an earlier clock reading is no time passed
    assert!(matches!(use_case.execute(SECOND), Ok(PowerSnapshot::NoBattery)));
    assert!(matches!(use_case.execute(7 * SECOND), Err(PowerError::Unsupported)));
}

#[test]
fn platform_without_battery_support_is_unsupported() {
    assert!(matches!(
        PlatformPowerRepository.power(),
        Err(PowerError::Unsupported)
    ));
}

#[test]
fn power_follows_the_sign_of_the_current() {
    assert_eq!(Millivolts(12_290).power(Milliamps(-2_131)), Microwatts(-26_189_990));
    assert_eq!(Millivolts(i64::MAX).power(Milliamps(i64::MIN)).0, i64::MAX as i128 * i64::MIN as i128);
}

#[test]
fn charge_and_health_boundaries() {
    assert_eq!(charge_fraction(Some(100), Some(100)), Some(Fraction { part: 100, whole: 100 }));
    assert_eq!(charge_fraction(None, Some(100)), None);
    assert_eq!(health_fraction(Some(10_000), Some(5_000)), Some(Fraction { part: 10_000, whole: 5_000 }));
    assert_eq!(health_fraction(Some(10_001), Some(5_000)), None);
    assert_eq!(health_fraction(Some(5_000), Some(100)), None);
    assert_eq!(health_fraction(Some(i64::MAX), Some(i64::MAX)), Some(Fraction { part: i64::MAX, whole: i64::MAX }));
    assert_eq!(voltage(Some(100_000)), Some(Millivolts(100_000)));
    assert_eq!(voltage(Some(100_001)), None);
    assert_eq!(current(Some(-100_000)), Some(Milliamps(-100_000)));
    assert_eq!(current(Some(-100_001)), None);
    assert_eq!(temperature_reading(Some(2331)), None);
    assert_eq!(temperature_reading(Some(2332)), Some(DeciKelvin(2332)));
    assert_eq!(temperature_reading(Some(3731)), Some(DeciKelvin(3731)));
    assert_eq!(temperature_reading(Some(3732)), None);
    assert_eq!(minutes(Some(65534)), Some(65534 * 60));
}

#[test]
fn a_kept_error_replaces_an_earlier_success_until_the_next_poll() {
    let fake = Fake {
        values: [Ok(PowerSnapshot::Battery(BatteryMetrics::default()))].into(),
    };
    let mut use_case = GetPowerMetrics::new(fake);
    use_case.keep(10 * SECOND, Ok(PowerSnapshot::NoBattery));
    assert!(matches!(use_case.kept(), Ok(PowerSnapshot::NoBattery)));
    use_case.keep(12 * SECOND, Err(PowerError::SystemApi("IOPS".into())));
    assert!(matches!(use_case.kept(), Err(PowerError::SystemApi(_))));
    assert!(matches!(use_case.execute(13 * SECOND), Err(PowerError::SystemApi(_))));
    assert!(matches!(use_case.execute(14 * SECOND), Ok(PowerSnapshot::Battery(_))));
}
