use port_scanner::cli::{parse_args, parse_u16, CliAction, ParseError};
use port_scanner::request::{IpAddress, ScanRequest};

fn argv(parts: &[&str]) -> Vec<Vec<u8>> {
    parts.iter().map(|s| s.as_bytes().to_vec()).collect()
}

#[test]
fn thread_flag_not_numeric() {
    let r = parse_args(&argv(&["prog", "-t", "abc", "127.0.0.1"]), false, true);
    assert_eq!(r, CliAction::Reject(ParseError::InvalidThreadCount));
    assert_eq!(
        ParseError::InvalidThreadCount.message(),
        "ERROR - Failed to parse thread number"
    );
}

#[test]
fn help_flag() {
    assert_eq!(parse_args(&argv(&["prog", "-h"]), false, false), CliAction::Help);
    assert_eq!(parse_args(&argv(&["prog", "-help"]), false, false), CliAction::Help);
}

#[test]
fn address_only_defaults_four_threads() {
    let r = parse_args(&argv(&["prog", "10.0.0.1"]), true, false);
    assert_eq!(r, CliAction::Scan { address_index: 1, threads: 4 });
}

#[test]
fn threaded_form() {
    let r = parse_args(&argv(&["prog", "-t", "100", "10.0.0.1"]), false, true);
    assert_eq!(r, CliAction::Scan { address_index: 3, threads: 100 });
}

#[test]
fn not_enough_arguments() {
    let r = parse_args(&argv(&["prog"]), false, false);
    assert_eq!(r, CliAction::Reject(ParseError::NotEnoughArguments));
}

#[test]
fn too_many_arguments() {
    let r = parse_args(&argv(&["prog", "-t", "4", "10.0.0.1", "extra"]), false, false);
    assert_eq!(r, CliAction::Reject(ParseError::TooManyArguments));
}

#[test]
fn invalid_address() {
    let r = parse_args(&argv(&["prog", "-t", "5", "nope"]), false, false);
    assert_eq!(r, CliAction::Reject(ParseError::InvalidAddress));
}

#[test]
fn invalid_syntax() {
    let r = parse_args(&argv(&["prog", "nonsense"]), false, false);
    assert_eq!(r, CliAction::Reject(ParseError::InvalidSyntax));
}

#[test]
fn thread_flag_missing_operands() {
    let r = parse_args(&argv(&["prog", "-t"]), false, false);
    assert_eq!(r, CliAction::Reject(ParseError::NotEnoughArguments));
    let r = parse_args(&argv(&["prog", "-t", "4"]), false, false);
    assert_eq!(r, CliAction::Reject(ParseError::NotEnoughArguments));
}

#[test]
fn zero_threads_rejected() {
    let r = parse_args(&argv(&["prog", "-t", "0", "1.2.3.4"]), false, true);
    assert_eq!(r, CliAction::Reject(ParseError::InvalidThreadCount));
}

#[test]
fn parse_u16_values() {
    assert_eq!(parse_u16(&b"0".to_vec()), Some(0));
    assert_eq!(parse_u16(&b"4".to_vec()), Some(4));
    assert_eq!(parse_u16(&b"007".to_vec()), Some(7));
    assert_eq!(parse_u16(&b"+12".to_vec()), Some(12));
    assert_eq!(parse_u16(&b"65535".to_vec()), Some(65535));
    assert_eq!(parse_u16(&b"65536".to_vec()), None);
    assert_eq!(parse_u16(&b"99999999999".to_vec()), None);
    assert_eq!(parse_u16(&b"".to_vec()), None);
    assert_eq!(parse_u16(&b"+".to_vec()), None);
    assert_eq!(parse_u16(&b"abc".to_vec()), None);
    assert_eq!(parse_u16(&b"12a".to_vec()), None);
    assert_eq!(parse_u16(&b"-1".to_vec()), None);
    assert_eq!(parse_u16(&b"1 2".to_vec()), None);
}

#[test]
fn error_messages() {
    assert_eq!(
        ParseError::NotEnoughArguments.message(),
        "ERROR - Not enough arguments"
    );
    assert_eq!(ParseError::TooManyArguments.message(), "ERROR - Too many arguments");
    assert_eq!(
        ParseError::InvalidAddress.message(),
        "ERROR - Not a valid IPADDR; must be IPv4 or IPv6"
    );
    assert_eq!(
        ParseError::InvalidThreadCount.message(),
        "ERROR - Failed to parse thread number"
    );
    assert_eq!(ParseError::InvalidSyntax.message(), "ERROR - Invalid syntax");
}

#[test]
fn scan_request_holds_fields() {
    let req = ScanRequest::new(IpAddress::V4(127, 0, 0, 1), 4);
    assert_eq!(req.address, IpAddress::V4(127, 0, 0, 1));
    assert_eq!(req.threads, 4);
    let ports = req.ports_for_worker(0);
    assert_eq!(ports[0], 1);
    assert_eq!(ports[1], 5);
}
