use std::time::Duration;

use wsl_tray::duration::LONGEST;
use wsl_tray::options::{
    parse_args, usage, Options, DEFAULT_PROCESS, DEFAULT_PROCESS_WIN10,
};

fn parse_duration(s: &str) -> Option<Duration> {
    wsl_tray::duration::parse_duration(s).map(Duration::from_nanos)
}

#[test]
fn durations() {
    assert_eq!(parse_duration("5s"), Some(Duration::from_secs(5)));
    assert_eq!(parse_duration("2m"), Some(Duration::from_secs(120)));
    assert_eq!(parse_duration("250ms"), Some(Duration::from_millis(250)));
    assert_eq!(parse_duration("1m30s"), Some(Duration::from_secs(90)));
    assert_eq!(parse_duration("1h5m"), Some(Duration::from_secs(3900)));
    assert_eq!(parse_duration("1.5h"), Some(Duration::from_secs(5400)));
    assert_eq!(parse_duration(".5s"), Some(Duration::from_millis(500)));
    assert_eq!(parse_duration("500us"), Some(Duration::from_micros(500)));
    assert_eq!(parse_duration("0"), Some(Duration::ZERO));
    assert_eq!(parse_duration("0s"), Some(Duration::ZERO));
    assert_eq!(parse_duration("30"), None); // missing unit
    assert_eq!(parse_duration("1m30"), None);
    assert_eq!(parse_duration("-5s"), None);
    assert_eq!(parse_duration(""), None);
    assert_eq!(parse_duration(".s"), None);
    assert_eq!(parse_duration("5x"), None);
    assert_eq!(parse_duration("abc"), None);
    assert_eq!(parse_duration("99999999999999999999h"), None); // overflow
}

#[test]
fn durations_are_rounded_to_nanoseconds() {
    assert_eq!(parse_duration("+1.ns"), Some(Duration::from_nanos(1)));
    assert_eq!(parse_duration("0.5ns"), Some(Duration::from_nanos(1)));
    assert_eq!(parse_duration("0.4999999999999999ns"), Some(Duration::ZERO));
    // Nearer to a half than any other number there is.
    assert_eq!(parse_duration("0.4999999999999999999999ns"), Some(Duration::from_nanos(1)));
    assert_eq!(parse_duration("0.25ns.25ns"), Some(Duration::from_nanos(1)));
    assert_eq!(parse_duration("1.0000000004s"), Some(Duration::from_secs(1)));
    assert_eq!(parse_duration("2µs3μs"), Some(Duration::from_micros(5)));
    assert_eq!(parse_duration("1..5s"), None);
    assert_eq!(parse_duration("++1s"), None);
    assert_eq!(parse_duration("+"), None);
    assert_eq!(parse_duration("1s "), None);
    assert_eq!(parse_duration("s"), None);
}

#[test]
fn longest_duration_is_accepted() {
    assert_eq!(
        parse_duration("9223372036854775808ns"),
        Some(Duration::from_nanos(LONGEST))
    );
    // Numbers up to the next one there is count as the longest.
    assert_eq!(parse_duration("9223372036854775809ns"), Some(Duration::from_nanos(LONGEST)));
    assert_eq!(parse_duration("9223372036854776832ns"), Some(Duration::from_nanos(LONGEST)));
    assert_eq!(parse_duration("9223372036854776833ns"), None);
    assert_eq!(parse_duration("18446744073709551616ns"), None);
    assert_eq!(parse_duration("1000000000000000000000000h"), None);
    assert_eq!(
        parse_duration("9999999999ns0000000000000000000000000000001s"),
        Some(Duration::from_nanos(10_999_999_999))
    );
}

fn parse(args: &[&str]) -> Result<Option<Options>, String> {
    let args: Vec<String> = args.iter().map(|s| s.to_string()).collect();
    parse_args(&args, DEFAULT_PROCESS)
}

fn options(args: &[&str]) -> Options {
    parse(args).unwrap().unwrap()
}

#[test]
fn defaults_are_documented() {
    let o = options(&[]);
    assert_eq!((o.poll, o.stats), (7_500_000_000, 30_000_000_000));
    assert_eq!(o.process, "vmmemWSL");
    assert_eq!((o.log, o.render_test), (None, None));
    assert_eq!(DEFAULT_PROCESS_WIN10, "vmmem");
    assert_eq!(
        usage(DEFAULT_PROCESS_WIN10),
        "wsl-tray [--poll 7.5s] [--interval 30s] [--process vmmem] [--log FILE] [--render-test DIR]

  --poll         how often to check whether WSL2 is running (cheap)
  --interval     how often to refresh CPU/memory while WSL2 is running
  --process      name of the WSL2 VM process
  --log          append diagnostic log lines to this file
  --render-test  write sample icon PNGs to this directory and exit"
    );
}

#[test]
fn flags_are_accepted_in_every_form() {
    let o = options(&["-poll", "1s", "--interval=2m", "--process", "a b", "-log=x=y"]);
    assert_eq!((o.poll, o.stats), (1_000_000_000, 120_000_000_000));
    assert_eq!(o.process, "a b");
    assert_eq!(o.log.as_deref(), Some("x=y"));
    let o = options(&["--render-test", "out", "--", "--bogus"]);
    assert_eq!(o.render_test.as_deref(), Some("out"));
    assert_eq!(options(&["rest", "-bogus"]).process, "vmmemWSL");
    assert_eq!(options(&["-", "-bogus"]).process, "vmmemWSL");
    assert_eq!(options(&["-process="]).process, "");
    assert_eq!(options(&["-process", "-log"]).process, "-log");
    // The last one counts.
    assert_eq!(options(&["-poll=1s", "-poll=2s"]).poll, 2_000_000_000);
}

#[test]
fn help_is_recognised() {
    assert!(parse(&["-h"]).unwrap().is_none());
    assert!(parse(&["--help", "-bogus"]).unwrap().is_none());
    assert!(parse(&["-help=x"]).unwrap().is_none());
}

#[test]
fn wrong_flags_are_told() {
    let told = |args: &[&str]| parse(args).unwrap_err();
    let help = usage(DEFAULT_PROCESS);
    assert_eq!(told(&["---poll"]), format!("bad flag syntax: ---poll\n\n{help}"));
    assert_eq!(told(&["-=x"]), format!("bad flag syntax: -=x\n\n{help}"));
    assert_eq!(told(&["--log"]), format!("missing value for --log\n\n{help}"));
    assert_eq!(told(&["-x=1"]), format!("unknown flag: -x=1\n\n{help}"));
    assert_eq!(told(&["-poll", "fast"]), "bad --poll duration");
    assert_eq!(told(&["--interval=5"]), "bad --interval duration");
}

#[test]
fn one_flag_sets_one_field_in_every_spelling() {
    let all = |o: Options| (o.poll, o.stats, o.process, o.log, o.render_test);
    let plain = all(options(&[]));
    for tail in [vec![], vec!["--", "-poll=9s"], vec!["rest", "-bogus"], vec!["-"]] {
        for (name, value) in [
            ("poll", "1m"),
            ("interval", "90s"),
            ("process", "a=b"),
            ("log", "C:\\x y.txt"),
            ("render-test", "out"),
        ] {
            let mut expected = plain.clone();
            match name {
                "poll" => expected.0 = 60_000_000_000,
                "interval" => expected.1 = 90_000_000_000,
                "process" => expected.2 = value.to_string(),
                "log" => expected.3 = Some(value.to_string()),
                _ => expected.4 = Some(value.to_string()),
            }
            for dashes in ["-", "--"] {
                let flag = format!("{dashes}{name}");
                let joined = format!("{flag}={value}");
                let mut two = vec![flag.as_str(), value];
                two.extend(&tail);
                assert_eq!(all(options(&two)), expected);
                let mut one = vec![joined.as_str()];
                one.extend(&tail);
                assert_eq!(all(options(&one)), expected);
            }
        }
        assert_eq!(all(options(&tail)), plain);
    }
}

#[test]
fn durations_of_joined_texts() {
    let parts = ["1h", "2m3s", "0.5s", "250ms", "7us", "9ns"];
    for a in parts {
        for b in parts {
            let sum = parse_duration(a).unwrap() + parse_duration(b).unwrap();
            assert_eq!(parse_duration(&format!("{a}{b}")), Some(sum));
            assert_eq!(parse_duration(&format!("{b}{a}")), Some(sum));
        }
    }
    // A sum past the longest duration is refused.
    assert_eq!(parse_duration(&format!("{LONGEST}ns2048ns")), None);
}

#[test]
fn duration_signs() {
    for s in ["1h", "2m3s", "0.5s", "0", "", "5x", "+1s", "9999999h"] {
        if !s.starts_with('+') {
            assert_eq!(parse_duration(&format!("+{s}")), parse_duration(s));
        }
        assert_eq!(parse_duration(&format!("-{s}")), None);
    }
}

/// The same sum in the machine's own arithmetic.
fn added_up(terms: &[(&str, &str)]) -> Option<Duration> {
    let mut ns = 0.0f64;
    for (number, unit) in terms {
        let n: f64 = number.parse().unwrap();
        ns += n * match *unit {
            "ns" => 1.0,
            "us" => 1e3,
            "ms" => 1e6,
            "s" => 1e9,
            "m" => 60e9,
            _ => 3600e9,
        };
    }
    (ns <= i64::MAX as f64).then_some(Duration::from_nanos(ns.round() as u64))
}

#[test]
fn durations_are_added_in_double_precision() {
    let numbers = [
        "0", "1", ".1", "0.3", "1.7", "2.5", "99999999999999999999", "123456789.123456789",
        "0.000000000000000000000000000001", "9007199254740993", "4503599627370497.5",
        "2562047.788015215", "2562047.7880152155", "153722867.28091293", "7.", "0.0",
    ];
    let units = ["ns", "us", "ms", "s", "m", "h"];
    for (i, a) in numbers.iter().enumerate() {
        for (j, b) in numbers.iter().enumerate() {
            for k in 0..units.len() {
                let (u, v) = (units[k], units[(i + j + k) % units.len()]);
                assert_eq!(
                    parse_duration(&format!("{a}{u}{b}{v}")),
                    added_up(&[(a, u), (b, v)]),
                    "{a}{u}{b}{v}"
                );
            }
        }
    }
    // A number too small to count, with many digits.
    let tiny = format!("0.{}5", "0".repeat(400));
    assert_eq!(parse_duration(&format!("{tiny}s1ns")), Some(Duration::from_nanos(1)));
    let half = format!("0.5{}1", "0".repeat(300));
    assert_eq!(parse_duration(&format!("2{}ns", &half[1..])), added_up(&[("2.5", "ns")]));
}
