use typeforge::cli::{Launch, parse_arguments};

fn args(values: &[&str]) -> Vec<String> {
    values.iter().map(|value| value.to_string()).collect()
}

#[test]
fn no_arguments_start_the_application() {
    assert_eq!(parse_arguments(&args(&[])), Ok(Launch::App(None)));
}

#[test]
fn join_carries_the_room_code() {
    assert_eq!(
        parse_arguments(&args(&["join", "ABC234"])),
        Ok(Launch::App(Some("ABC234".to_string())))
    );
}

#[test]
fn relay_listens_on_the_default_or_given_address() {
    assert_eq!(
        parse_arguments(&args(&["relay"])),
        Ok(Launch::Relay("127.0.0.1:8787".to_string()))
    );
    assert_eq!(
        parse_arguments(&args(&["relay", "0.0.0.0:9000"])),
        Ok(Launch::Relay("0.0.0.0:9000".to_string()))
    );
}

#[test]
fn help_and_version_flags() {
    assert_eq!(parse_arguments(&args(&["-h"])), Ok(Launch::Help));
    assert_eq!(parse_arguments(&args(&["--help"])), Ok(Launch::Help));
    assert_eq!(parse_arguments(&args(&["-V"])), Ok(Launch::Version));
    assert_eq!(parse_arguments(&args(&["--version"])), Ok(Launch::Version));
}

#[test]
fn other_arguments_are_refused() {
    let refused = Err("invalid arguments; use --help".to_string());
    assert_eq!(parse_arguments(&args(&["join"])), refused);
    assert_eq!(parse_arguments(&args(&["play"])), refused);
    assert_eq!(parse_arguments(&args(&["relay", "a", "b"])), refused);
    assert_eq!(parse_arguments(&args(&["--help", "x"])), refused);
}
