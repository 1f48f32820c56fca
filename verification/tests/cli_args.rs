use cachesim::cli::{Cli, CliError};

fn args(list: &[&str]) -> Vec<String> {
    list.iter().map(|s| s.to_string()).collect()
}

#[test]
fn parses_full_command_line() {
    let cli = Cli::parse(&args(&["-s", "4", "-E", "2", "-b", "4", "-t", "trace.txt"])).unwrap();
    assert!(!cli.help);
    assert!(!cli.track);
    assert_eq!(cli.s, 4);
    assert_eq!(cli.e, 2);
    assert_eq!(cli.b, 4);
    assert_eq!(cli.tracefile, "trace.txt");
}

#[test]
fn switches_toggle_help_and_track() {
    let cli = Cli::parse(&args(&["-h", "-v", "-s", "0", "-E", "1", "-b", "0", "-t", "t"])).unwrap();
    assert!(cli.help);
    assert!(cli.track);
    assert_eq!(cli.s, 0);
    assert_eq!(cli.e, 1);
}

#[test]
fn later_value_wins_for_repeated_switch() {
    let cli = Cli::parse(&args(&["-s", "1", "-s", "3", "-E", "1", "-b", "0", "-t", "t"])).unwrap();
    assert_eq!(cli.s, 3);
}

#[test]
fn missing_required_switch_is_rejected() {
    let r = Cli::parse(&args(&["-s", "4", "-E", "2", "-b", "4"]));
    assert_eq!(r.unwrap_err(), CliError::MissingArgument);
}

#[test]
fn unknown_switch_is_rejected() {
    let r = Cli::parse(&args(&["-x", "-s", "4", "-E", "2", "-b", "4", "-t", "t"]));
    assert_eq!(r.unwrap_err(), CliError::UnknownFlag);
}

#[test]
fn switch_without_value_is_rejected() {
    let r = Cli::parse(&args(&["-E", "2", "-b", "4", "-t", "t", "-s"]));
    assert_eq!(r.unwrap_err(), CliError::MissingValue);
}

#[test]
fn non_decimal_value_is_rejected() {
    let r = Cli::parse(&args(&["-s", "abc", "-E", "2", "-b", "4", "-t", "t"]));
    assert_eq!(r.unwrap_err(), CliError::BadNumber);
}

#[test]
fn oversized_value_is_rejected() {
    let r = Cli::parse(&args(&["-s", "4294967296", "-E", "2", "-b", "4", "-t", "t"]));
    assert_eq!(r.unwrap_err(), CliError::BadNumber);
}

#[test]
fn largest_value_is_accepted() {
    let cli = Cli::parse(&args(&["-s", "4294967295", "-E", "1", "-b", "0", "-t", "t"])).unwrap();
    assert_eq!(cli.s, u32::MAX);
}

#[test]
fn empty_argument_list_lacks_the_required_switches() {
    let r = Cli::parse(&Vec::new());
    assert_eq!(r.unwrap_err(), CliError::MissingArgument);
}
