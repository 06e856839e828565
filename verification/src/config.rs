//! Command-line arguments: the view, the refresh interval and the number of
//! top processes.
use crate::application::monitor;
use crate::domain::process::{ProcessId, ProcessSort};
use crate::text;
use vstd::prelude::*;

verus! {

/// What the monitor is asked to do.
#[derive(Debug)]
pub struct Config {
    pub view: monitor::View,
    /// The refresh interval, in milliseconds.
    pub refresh_interval_ms: u64,
    pub process_count: usize,
}

/// A rejected command line; the message says why.
#[derive(Debug)]
pub struct ConfigError(pub String);

/// The usage text shown after every error message.
pub const USAGE: &'static str = "\nUsage: system_usage_analyzer [MILLISECONDS] [PROCESS_COUNT]\n       system_usage_analyzer tree [PID] [--sort pid|cpu|memory|name] [--interval MS]\n       system_usage_analyzer power [--interval MS]";

impl ConfigError {
    /// The message followed by the usage text.
    pub fn text(&self) -> (r: String)
        ensures
            r@ == self.0@ + USAGE@,
    {
        text::joined(self.0.as_str(), USAGE)
    }
}

pub open spec fn arg_at(args: Seq<Seq<char>>, k: int) -> Option<Seq<char>> {
    if 0 <= k < args.len() {
        Some(args[k])
    } else {
        None
    }
}

/// A refresh interval argument: a positive number of milliseconds.
pub open spec fn interval_of(value: Option<Seq<char>>) -> Result<u64, Seq<char>> {
    let parsed = match value {
        Some(v) => text::parse_unsigned(v, u64::MAX as int),
        None => None,
    };
    match parsed {
        Some(n) => if n > 0 {
            Ok(n as u64)
        } else {
            Err("Interval must be a positive number of milliseconds"@)
        },
        None => Err("Interval must be a positive number of milliseconds"@),
    }
}

/// A sort order argument.
pub open spec fn sort_named(value: Option<Seq<char>>) -> Option<ProcessSort> {
    match value {
        Some(v) => if v == "pid"@ {
            Some(ProcessSort::Pid)
        } else if v == "cpu"@ {
            Some(ProcessSort::Cpu)
        } else if v == "memory"@ {
            Some(ProcessSort::Memory)
        } else if v == "name"@ {
            Some(ProcessSort::Name)
        } else {
            None
        },
        None => None,
    }
}

/// The options after `tree [PID]`: each of `--sort ORDER` and
/// `--interval MS` at most once, in any order.
pub open spec fn tree_options(
    rest: Seq<Seq<char>>,
    sort: ProcessSort,
    seen_sort: bool,
    interval: u64,
    seen_interval: bool,
) -> Result<(ProcessSort, u64), Seq<char>>
    decreases rest.len(),
{
    if rest.len() == 0 {
        Ok((sort, interval))
    } else if rest[0] == "--sort"@ && !seen_sort {
        match sort_named(arg_at(rest, 1)) {
            Some(s) => tree_options(rest.skip(2), s, true, interval, seen_interval),
            None => Err("Invalid or missing sort order"@),
        }
    } else if rest[0] == "--interval"@ && !seen_interval {
        match interval_of(arg_at(rest, 1)) {
            Ok(ms) => tree_options(rest.skip(2), sort, seen_sort, ms, true),
            Err(e) => Err(e),
        }
    } else {
        Err("Unknown or repeated argument: "@ + rest[0])
    }
}

/// No argument may follow at position `k`.
pub open spec fn reject_extra_at(args: Seq<Seq<char>>, k: int) -> Result<(), Seq<char>> {
    if k < args.len() {
        Err("Unexpected argument: "@ + args[k])
    } else {
        Ok(())
    }
}

/// A tree view with the given root, once its options are read.
pub open spec fn tree_result(
    root: Option<ProcessId>,
    options: Result<(ProcessSort, u64), Seq<char>>,
) -> Result<(monitor::View, u64, usize), Seq<char>> {
    match options {
        Ok((sort, ms)) => Ok((monitor::View::Tree { root, sort }, ms, 10)),
        Err(e) => Err(e),
    }
}

/// The arguments after `tree`: an optional PID (any first argument that
/// does not begin with `-`), then the options.
pub open spec fn parse_tree(rest: Seq<Seq<char>>) -> Result<(monitor::View, u64, usize), Seq<char>> {
    if rest.len() > 0 && !(rest[0].len() > 0 && rest[0][0] == '-') {
        match text::parse_unsigned(rest[0], u32::MAX as int) {
            None => Err("Invalid PID"@),
            Some(p) => tree_result(
                Some(ProcessId(p as u32)),
                tree_options(rest.drop_first(), ProcessSort::Pid, false, 500, false),
            ),
        }
    } else {
        tree_result(None, tree_options(rest, ProcessSort::Pid, false, 500, false))
    }
}

/// The meaning of a command line: the view, the interval in milliseconds and
/// the process count, or the error message.
pub open spec fn parse_args(args: Seq<Seq<char>>) -> Result<(monitor::View, u64, usize), Seq<char>> {
    if args.len() > 0 && args[0] == "tree"@ {
        parse_tree(args.drop_first())
    } else if args.len() > 0 && args[0] == "power"@ {
        let rest = args.drop_first();
        if rest.len() == 0 {
            Ok((monitor::View::Power, 2000, 10))
        } else if rest[0] != "--interval"@ {
            Err("Unknown argument: "@ + rest[0])
        } else {
            match interval_of(arg_at(rest, 1)) {
                Err(e) => Err(e),
                Ok(ms) => match reject_extra_at(rest, 2) {
                    Ok(()) => Ok((monitor::View::Power, ms, 10)),
                    Err(e) => Err(e),
                },
            }
        }
    } else if args.len() == 0 {
        Ok((monitor::View::Dashboard, 500, 10))
    } else {
        match interval_of(Some(args[0])) {
            Err(e) => Err(e),
            Ok(ms) => if args.len() == 1 {
                Ok((monitor::View::Dashboard, ms, 10))
            } else {
                match text::parse_unsigned(args[1], usize::MAX as int) {
                    None => Err("Invalid process count"@),
                    Some(c) => match reject_extra_at(args, 2) {
                        Ok(()) => Ok((monitor::View::Dashboard, ms, c as usize)),
                        Err(e) => Err(e),
                    },
                }
            },
        }
    }
}

pub open spec fn error_text<T>(r: Result<T, ConfigError>) -> Result<T, Seq<char>> {
    match r {
        Ok(v) => Ok(v),
        Err(e) => Err(e.0@),
    }
}

pub open spec fn opt_view(o: Option<&String>) -> Option<Seq<char>> {
    match o {
        Some(s) => Some(s@),
        None => None,
    }
}

pub open spec fn args_view(args: Seq<String>) -> Seq<Seq<char>> {
    Seq::new(args.len(), |i: int| args[i]@)
}

pub open spec fn outcome(r: Result<Config, ConfigError>) -> Result<(monitor::View, u64, usize), Seq<char>> {
    match r {
        Ok(c) => Ok((c.view, c.refresh_interval_ms, c.process_count)),
        Err(e) => Err(e.0@),
    }
}

/// Without arguments the dashboard refreshes every 500 ms and shows 10
/// processes; `power` alone refreshes every 2 s. The process count is 10
/// unless a second positional argument gives another number.
pub proof fn lemma_process_count_default(args: Seq<Seq<char>>)
    ensures
        args.len() == 0 ==> parse_args(args) == Ok::<(monitor::View, u64, usize), Seq<char>>(
            (monitor::View::Dashboard, 500u64, 10usize),
        ),
        args == seq!["power"@] ==> parse_args(args) == Ok::<(monitor::View, u64, usize), Seq<char>>(
            (monitor::View::Power, 2000u64, 10usize),
        ),
        parse_args(args) matches Ok(r) ==> r.2 == 10 || (args.len() == 2 && text::parse_unsigned(
            args[1],
            usize::MAX as int,
        ) == Some(r.2 as int)),
{
    if args == seq!["power"@] {
        reveal_strlit("power");
        reveal_strlit("tree");
        assert("power"@[0] != "tree"@[0]);
        assert(args[0] != "tree"@);
        assert(args.drop_first() =~= Seq::<Seq<char>>::empty());
    }
    if args.len() > 0 && args[0] == "tree"@ {
        let rest = args.drop_first();
        if rest.len() > 0 && !(rest[0].len() > 0 && rest[0][0] == '-') {
            match text::parse_unsigned(rest[0], u32::MAX as int) {
                None => {},
                Some(p) => {
                    let o = tree_options(rest.drop_first(), ProcessSort::Pid, false, 500, false);
                    assert(parse_args(args) == tree_result(Some(ProcessId(p as u32)), o));
                },
            }
        } else {
            let o = tree_options(rest, ProcessSort::Pid, false, 500, false);
            assert(parse_args(args) == tree_result(None, o));
        }
    }
}

pub fn interval(value: Option<&String>) -> (r: Result<u64, ConfigError>)
    ensures
        error_text(r) == interval_of(opt_view(value)),
{
    let parsed = match value {
        Some(s) => text::parse_u64(s.as_str()),
        None => None,
    };
    proof {
        let expected = match opt_view(value) {
            Some(v) => text::parse_unsigned(v, u64::MAX as int),
            None => None,
        };
        match expected {
            Some(v) => assert(parsed == Some(v as u64)),
            None => assert(parsed is None),
        }
    }
    match parsed {
        Some(n) => if n > 0 {
            Ok(n)
        } else {
            Err(ConfigError(String::from_str("Interval must be a positive number of milliseconds")))
        },
        None => Err(ConfigError(String::from_str("Interval must be a positive number of milliseconds"))),
    }
}

pub fn reject_extra(value: Option<&String>) -> (r: Result<(), ConfigError>)
    ensures
        match value {
            Some(v) => r matches Err(e) && e.0@ == "Unexpected argument: "@ + v@,
            None => r is Ok,
        },
{
    match value {
        Some(value) => Err(ConfigError(text::joined("Unexpected argument: ", value.as_str()))),
        None => Ok(()),
    }
}

fn arg(args: &Vec<String>, k: usize) -> (r: Option<&String>)
    ensures
        opt_view(r) == arg_at(args_view(args@), k as int),
{
    if k < args.len() {
        Some(&args[k])
    } else {
        None
    }
}

impl Config {
    /// Reads the command line (program name excluded).
    ///
    /// `tree [PID] [--sort pid|cpu|memory|name] [--interval MS]` shows every
    /// root, or the branch of PID, sorted by PID unless asked otherwise;
    /// `power [--interval MS]` shows the battery every 2 s by default;
    /// otherwise `[MILLISECONDS] [PROCESS_COUNT]` selects the dashboard
    /// (500 ms, 10 processes by default). Anything else is an error.
    pub fn parse(args: Vec<String>) -> (result: Result<Self, ConfigError>)
        ensures
            outcome(result) == parse_args(args_view(args@)),
            args@.len() == 0 ==> (result matches Ok(c) && c.view == monitor::View::Dashboard
                && c.refresh_interval_ms == 500 && c.process_count == 10),
            result matches Ok(c) ==> c.process_count == 10 || (args@.len() == 2 && text::parse_unsigned(
                args@[1]@,
                usize::MAX as int,
            ) == Some(c.process_count as int)),
    {
        let ghost a = args_view(args@);
        let result = Self::read_args(args);
        proof {
            lemma_process_count_default(a);
        }
        result
    }

    fn read_args(args: Vec<String>) -> (result: Result<Self, ConfigError>)
        ensures
            outcome(result) == parse_args(args_view(args@)),
    {
        let ghost a = args_view(args@);
        let mut config = Config { view: monitor::View::Dashboard, refresh_interval_ms: 500, process_count: 10 };
        if args.len() > 0 && text::is_text(&args[0], "tree") {
            let mut k: usize = 1;
            let root = if k < args.len() && !text::starts_with_hyphen(&args[k]) {
                let value = &args[k];
                k += 1;
                match text::parse_u32(value.as_str()) {
                    Some(p) => Some(ProcessId(p)),
                    None => {
                        return Err(ConfigError(String::from_str("Invalid PID")));
                    },
                }
            } else {
                None
            };
            let ghost options = a.skip(k as int);
            proof {
                assert(a.drop_first() =~= a.skip(1));
                if k == 2 {
                    assert(a.drop_first().drop_first() =~= a.skip(2));
                }
                assert(parse_args(a) == tree_result(root, tree_options(options, ProcessSort::Pid, false, 500, false)));
            }
            let mut sort = ProcessSort::Pid;
            let mut seen_sort = false;
            let mut seen_interval = false;
            while k < args.len()
                invariant
                    a == args_view(args@),
                    a.len() == args@.len(),
                    k <= args@.len(),
                    parse_args(a) == tree_result(root, tree_options(options, ProcessSort::Pid, false, 500, false)),
                    tree_options(options, ProcessSort::Pid, false, 500, false) == tree_options(
                        a.skip(k as int),
                        sort,
                        seen_sort,
                        config.refresh_interval_ms,
                        seen_interval,
                    ),
                    config.view == monitor::View::Dashboard,
                    config.process_count == 10,
                decreases args@.len() - k,
            {
                let arg0 = &args[k];
                let ghost rest = a.skip(k as int);
                proof {
                    assert(rest[0] == arg0@);
                    assert(arg_at(rest, 1) == arg_at(a, k + 1));
                    if k + 2 <= a.len() {
                        assert(rest.skip(2) =~= a.skip(k + 2));
                    }
                }
                if text::is_text(arg0, "--sort") && !seen_sort {
                    seen_sort = true;
                    let value = arg(&args, k + 1);
                    sort = match value {
                        Some(v) => if text::is_text(v, "pid") {
                            ProcessSort::Pid
                        } else if text::is_text(v, "cpu") {
                            ProcessSort::Cpu
                        } else if text::is_text(v, "memory") {
                            ProcessSort::Memory
                        } else if text::is_text(v, "name") {
                            ProcessSort::Name
                        } else {
                            return Err(ConfigError(String::from_str("Invalid or missing sort order")));
                        },
                        None => {
                            return Err(ConfigError(String::from_str("Invalid or missing sort order")));
                        },
                    };
                    k += 2;
                } else if text::is_text(arg0, "--interval") && !seen_interval {
                    seen_interval = true;
                    let value = arg(&args, k + 1);
                    config.refresh_interval_ms = match interval(value) {
                        Ok(ms) => ms,
                        Err(e) => {
                            return Err(e);
                        },
                    };
                    k += 2;
                } else {
                    return Err(ConfigError(text::joined("Unknown or repeated argument: ", arg0.as_str())));
                }
            }
            config.view = monitor::View::Tree { root, sort };
            proof {
                assert(a.skip(k as int).len() == 0);
            }
        } else if args.len() > 0 && text::is_text(&args[0], "power") {
            config.view = monitor::View::Power;
            config.refresh_interval_ms = 2000;
            proof {
                assert(a.drop_first() =~= a.skip(1));
                assert(arg_at(a.drop_first(), 1) == arg_at(a, 2));
                assert(reject_extra_at(a.drop_first(), 2) == reject_extra_at(a, 3));
            }
            let mut k: usize = 1;
            if k < args.len() {
                let first = &args[k];
                if !text::is_text(first, "--interval") {
                    return Err(ConfigError(text::joined("Unknown argument: ", first.as_str())));
                }
                config.refresh_interval_ms = match interval(arg(&args, 2)) {
                    Ok(ms) => ms,
                    Err(e) => {
                        return Err(e);
                    },
                };
                k = 3;
            }
            match reject_extra(arg(&args, k)) {
                Ok(()) => {},
                Err(e) => {
                    return Err(e);
                },
            }
        } else {
            if args.len() > 0 {
                config.refresh_interval_ms = match interval(Some(&args[0])) {
                    Ok(ms) => ms,
                    Err(e) => {
                        return Err(e);
                    },
                };
            }
            if args.len() > 1 {
                config.process_count = match text::parse_usize(args[1].as_str()) {
                    Some(c) => c,
                    None => {
                        return Err(ConfigError(String::from_str("Invalid process count")));
                    },
                };
            }
            match reject_extra(arg(&args, 2)) {
                Ok(()) => {},
                Err(e) => {
                    return Err(e);
                },
            }
        }
        Ok(config)
    }
}

} // verus!
