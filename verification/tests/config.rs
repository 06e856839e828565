use system_usage_analyzer::application::monitor::View;
use system_usage_analyzer::config::{interval, reject_extra, Config, ConfigError};
use system_usage_analyzer::domain::process::{ProcessId, ProcessSort};

fn parse(args: &[&str]) -> Result<Config, ConfigError> {
    Config::parse(args.iter().map(|s| s.to_string()).collect())
}
fn error(args: &[&str]) -> String {
    parse(args).unwrap_err().0
}

#[test]
fn dashboard_defaults_and_positional_arguments() {
    let c = parse(&[]).unwrap();
    assert_eq!(c.view, View::Dashboard);
    assert_eq!(c.refresh_interval_ms, 500);
    assert_eq!(c.process_count, 10);
    let c = parse(&["250", "+5"]).unwrap();
    assert_eq!(c.refresh_interval_ms, 250);
    assert_eq!(c.process_count, 5);
    assert_eq!(
        error(&["0"]),
        "Interval must be a positive number of milliseconds"
    );
    assert_eq!(
        error(&["-5"]),
        "Interval must be a positive number of milliseconds"
    );
    assert_eq!(error(&["100", "x"]), "Invalid process count");
    assert_eq!(error(&["100", "5", "extra"]), "Unexpected argument: extra");
}

#[test]
fn tree_arguments() {
    let c = parse(&["tree"]).unwrap();
    assert_eq!(
        c.view,
        View::Tree {
            root: None,
            sort: ProcessSort::Pid
        }
    );
    assert_eq!(c.refresh_interval_ms, 500);
    let c = parse(&["tree", "42", "--interval", "1000", "--sort", "memory"]).unwrap();
    assert_eq!(
        c.view,
        View::Tree {
            root: Some(ProcessId(42)),
            sort: ProcessSort::Memory
        }
    );
    assert_eq!(c.refresh_interval_ms, 1000);
    for (name, sort) in [
        ("pid", ProcessSort::Pid),
        ("cpu", ProcessSort::Cpu),
        ("memory", ProcessSort::Memory),
        ("name", ProcessSort::Name),
    ] {
        assert_eq!(
            parse(&["tree", "--sort", name]).unwrap().view,
            View::Tree { root: None, sort }
        );
    }
    assert_eq!(error(&["tree", "abc"]), "Invalid PID");
    assert_eq!(error(&["tree", "--sort"]), "Invalid or missing sort order");
    assert_eq!(error(&["tree", "--sort", "size"]), "Invalid or missing sort order");
    assert_eq!(
        error(&["tree", "--sort", "cpu", "--sort", "pid"]),
        "Unknown or repeated argument: --sort"
    );
    assert_eq!(error(&["tree", "1", "2"]), "Unknown or repeated argument: 2");
    assert_eq!(
        error(&["tree", "--interval"]),
        "Interval must be a positive number of milliseconds"
    );
    assert_eq!(
        error(&["tree", "-1"]),
        "Unknown or repeated argument: -1"
    );
}

#[test]
fn power_arguments() {
    let c = parse(&["power"]).unwrap();
    assert_eq!(c.view, View::Power);
    assert_eq!(c.refresh_interval_ms, 2000);
    let c = parse(&["power", "--interval", "100"]).unwrap();
    assert_eq!(c.refresh_interval_ms, 100);
    assert_eq!(error(&["power", "--sort"]), "Unknown argument: --sort");
    assert_eq!(error(&["power", "--interval"]), "Interval must be a positive number of milliseconds");
    assert_eq!(
        error(&["power", "--interval", "5", "x"]),
        "Unexpected argument: x"
    );
}

#[test]
fn error_text_ends_with_usage() {
    let text = parse(&["x"]).unwrap_err().text();
    assert!(text.starts_with("Interval must be a positive number of milliseconds\nUsage: system_usage_analyzer [MILLISECONDS] [PROCESS_COUNT]\n"));
    assert!(text.ends_with("system_usage_analyzer power [--interval MS]"));
}

#[test]
fn numbers_are_read_as_str_parse_reads_them() {
    let pid = |text: &str| match parse(&["tree", text]).map(|c| c.view) {
        Ok(View::Tree { root, .. }) => Ok(root.map(|p| p.0)),
        Ok(_) => panic!("not a tree view"),
        Err(e) => Err(e.0),
    };
    assert_eq!(pid("+42"), Ok(Some(42)));
    assert_eq!(pid("0"), Ok(Some(0)));
    assert_eq!(pid("007"), Ok(Some(7)));
    assert_eq!(pid("4294967295"), Ok(Some(u32::MAX)));
    assert_eq!(pid("4294967296"), Err("Invalid PID".to_string()));
    assert_eq!(pid("99999999999999999999999"), Err("Invalid PID".to_string()));
    assert_eq!(pid("abc"), Err("Invalid PID".to_string()));
    assert_eq!(pid(""), Err("Invalid PID".to_string()));
    assert_eq!(pid("+"), Err("Invalid PID".to_string()));
    assert_eq!(pid("4 2"), Err("Invalid PID".to_string()));
    assert_eq!(pid("٤٢"), Err("Invalid PID".to_string()));
    assert_eq!(parse(&["18446744073709551615"]).unwrap().refresh_interval_ms, u64::MAX);
    assert!(parse(&["18446744073709551616"]).is_err());
    for text in ["0", "+", "-1", " 5", "5 ", "1e3"] {
        assert_eq!(error(&[text]), "Interval must be a positive number of milliseconds");
    }
    assert_eq!(parse(&["500", "+3"]).unwrap().process_count, 3);
    assert_eq!(error(&["500", "x"]), "Invalid process count");
}

#[test]
fn interval_and_extra_argument_checks() {
    let arg = |s: &str| s.to_string();
    assert_eq!(interval(Some(&arg("250"))).unwrap(), 250);
    for bad in [None, Some(arg("0")), Some(arg("x"))] {
        assert_eq!(
            interval(bad.as_ref()).unwrap_err().0,
            "Interval must be a positive number of milliseconds"
        );
    }
    assert!(reject_extra(None).is_ok());
    let extra = reject_extra(Some(&arg("more"))).unwrap_err();
    assert_eq!(extra.0, "Unexpected argument: more");
    assert!(extra.text().starts_with("Unexpected argument: more\nUsage: "));
}
