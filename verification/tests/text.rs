use system_usage_analyzer::domain::power::{BatteryMetrics, BatteryState, PowerError};
use system_usage_analyzer::infrastructure::iokit::check_return;
use system_usage_analyzer::infrastructure::terminal::{format_time, row, state_text, time_row};
use system_usage_analyzer::text::{decimal_text, hex_text, padded, safe_text};

#[test]
fn numbers_as_text() {
    assert_eq!(decimal_text(0), "0");
    assert_eq!(decimal_text(418), "418");
    assert_eq!(decimal_text(u64::MAX), "18446744073709551615");
    assert_eq!(hex_text(0), "0");
    assert_eq!(hex_text(0xe00002c1), "e00002c1");
    assert_eq!(hex_text(255), "ff");
}

#[test]
fn rows_pad_labels_and_show_placeholders() {
    assert_eq!(row("Charge", Some("99%")), "Charge              99%\n");
    assert_eq!(row("Cycle count", None), "Cycle count         N/A\n");
    assert_eq!(row("Température", Some("x")), "Température         x\n");
    assert_eq!(
        row("A label longer than twenty", Some("v")),
        "A label longer than twentyv\n"
    );
    assert_eq!(padded("ab", 4), "ab  ");
}

#[test]
fn time_formats_hours_and_two_digit_minutes() {
    assert_eq!(format_time(0), "0h 00m");
    assert_eq!(format_time(20_520), "5h 42m");
    assert_eq!(format_time(19_620), "5h 27m");
    assert_eq!(format_time(3_599), "0h 59m");
    assert_eq!(format_time(36_000 + 7 * 60 + 59), "10h 07m");
}

#[test]
fn return_codes() {
    assert!(check_return(0, "IOServiceGetMatchingServices").is_ok());
    assert!(matches!(
        check_return(0xe00002c1u32 as i32, "IOServiceGetMatchingServices"),
        Err(PowerError::PermissionDenied(op)) if op == "IOServiceGetMatchingServices"
    ));
    assert!(matches!(
        check_return(0xe00002e2u32 as i32, "op"),
        Err(PowerError::PermissionDenied(_))
    ));
    match check_return(0xe00002bcu32 as i32, "IORegistryEntryCreateCFProperties") {
        Err(PowerError::SystemApi(m)) => {
            assert_eq!(m, format!("IORegistryEntryCreateCFProperties: {:#x}", 0xe00002bcu32 as i32))
        }
        other => panic!("unexpected {other:?}"),
    }
    match check_return(5, "op") {
        Err(PowerError::SystemApi(m)) => assert_eq!(m, "op: 0x5"),
        other => panic!("unexpected {other:?}"),
    }
}

#[test]
fn state_names_as_shown() {
    assert_eq!(state_text(BatteryState::Charging), "Charging");
    assert_eq!(state_text(BatteryState::Discharging), "Discharging");
    assert_eq!(state_text(BatteryState::FullyCharged), "Fully charged");
    assert_eq!(state_text(BatteryState::NotCharging), "Not charging");
    assert_eq!(state_text(BatteryState::Unknown), "Unknown");
}

#[test]
fn time_row_follows_the_charging_state() {
    let mut b = BatteryMetrics::default();
    b.time_to_empty_secs = Some(19_620);
    b.time_to_full_secs = Some(3_600);
    b.state = BatteryState::Discharging;
    assert_eq!(time_row(&b), "Time remaining      5h 27m\n");
    b.state = BatteryState::Charging;
    assert_eq!(time_row(&b), "Time to full        1h 00m\n");
    b.time_to_full_secs = None;
    assert_eq!(time_row(&b), "Time to full        N/A\n");
    b.state = BatteryState::FullyCharged;
    assert_eq!(time_row(&b), "Time remaining      5h 27m\n");
}

#[test]
fn control_characters_are_replaced_and_unicode_kept() {
    assert_eq!(safe_text("plain name"), "plain name");
    assert_eq!(safe_text("évolution ✓ 名前"), "évolution ✓ 名前");
    assert_eq!(safe_text("a\u{1b}[2Jb"), "a\u{FFFD}[2Jb");
    assert_eq!(safe_text("tab\tline\n"), "tab\u{FFFD}line\u{FFFD}");
    assert_eq!(safe_text("\u{7f}\u{85}\u{9f}\u{a0}"), "\u{FFFD}\u{FFFD}\u{FFFD}\u{a0}");
    assert_eq!(safe_text(""), "");
}

#[test]
fn sanitizing_agrees_with_char_is_control() {
    for code in (0u32..0x300).chain(0xFFF0..0x10000) {
        if let Some(c) = char::from_u32(code) {
            let shown = safe_text(&c.to_string());
            let expected = if c.is_control() { '\u{FFFD}' } else { c };
            assert_eq!(shown, expected.to_string());
        }
    }
}
