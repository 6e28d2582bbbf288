use clap::{Arg, Command};
use pview::cli::{parse_interval_ms, Args};
use pview::config::{DEFAULT_INTERVAL_MS, MAX_INTERVAL_MS, MIN_INTERVAL_MS};

/// The command line as the monitor declares it: an optional target and an
/// `--interval` option read by `parse_interval_ms`.
fn command() -> Command {
    Command::new("pview")
        .arg(Arg::new("target"))
        .arg(
            Arg::new("interval")
                .short('i')
                .long("interval")
                .default_value("1000")
                .value_parser(parse_interval_ms),
        )
}

fn try_parse_from(argv: &[&str]) -> Result<Args, clap::Error> {
    let matches = command().try_get_matches_from(argv)?;
    Ok(Args {
        target: matches.get_one::<String>("target").cloned(),
        interval: *matches.get_one::<u64>("interval").expect("interval has a default"),
    })
}

#[test]
fn accepts_interval_boundaries() {
    for interval in [MIN_INTERVAL_MS, MAX_INTERVAL_MS] {
        let args = try_parse_from(&["pview", "--interval", &interval.to_string()])
            .expect("interval boundary should be accepted");
        assert_eq!(args.interval, interval);
    }
}

#[test]
fn rejects_intervals_outside_supported_range() {
    for interval in [MIN_INTERVAL_MS - 1, MAX_INTERVAL_MS + 1] {
        let error = try_parse_from(&["pview", "--interval", &interval.to_string()])
            .expect_err("out-of-range interval should be rejected");
        assert!(error
            .to_string()
            .contains("enter a number between 250 and 1000 milliseconds"));
    }
}

#[test]
fn interval_defaults_and_target_is_optional() {
    let args = try_parse_from(&["pview"]).expect("no arguments are needed");
    assert_eq!(args.interval, DEFAULT_INTERVAL_MS);
    assert!(args.target.is_none());
    let args = try_parse_from(&["pview", "explorer.exe", "-i", "250"]).unwrap();
    assert_eq!(args.target.as_deref(), Some("explorer.exe"));
    assert_eq!(args.interval, 250);
}

#[test]
fn parse_interval_accepts_the_range_only() {
    assert_eq!(parse_interval_ms("250"), Ok(250));
    assert_eq!(parse_interval_ms("1000"), Ok(1000));
    assert_eq!(parse_interval_ms("500"), Ok(500));
    assert_eq!(parse_interval_ms("+500"), Ok(500));
    assert_eq!(parse_interval_ms("0500"), Ok(500));
    assert_eq!(
        parse_interval_ms("249"),
        Err("enter a number between 250 and 1000 milliseconds".to_string())
    );
    assert_eq!(
        parse_interval_ms("99999999999999999999"),
        Err("enter a whole number between 250 and 1000 milliseconds".to_string())
    );
    for bad in ["", "+", "-", "-300", "3.5", "abc", " 300", "300ms", "++300"] {
        assert_eq!(
            parse_interval_ms(bad),
            Err("enter a whole number between 250 and 1000 milliseconds".to_string()),
            "input {bad:?}"
        );
    }
}

#[test]
fn interval_round_trips_through_its_decimal_text() {
    for n in 0u64..2000 {
        let expected = if (250..=1000).contains(&n) {
            Ok(n)
        } else {
            Err("enter a number between 250 and 1000 milliseconds".to_string())
        };
        assert_eq!(parse_interval_ms(&n.to_string()), expected);
    }
}
