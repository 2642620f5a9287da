use raftify::address::{digit, is_valid, parse_port};

#[test]
fn port_of_a_dotted_address() {
    assert_eq!(parse_port("10.0.0.1:7000"), Some(7000));
}

#[test]
fn port_of_a_named_host() {
    assert_eq!(parse_port("h:9000"), Some(9000));
    assert_eq!(parse_port("h:9001"), Some(9001));
}

#[test]
fn port_limits() {
    assert_eq!(parse_port("host:0"), Some(0));
    assert_eq!(parse_port("host:65535"), Some(65535));
    assert_eq!(parse_port("host:65536"), None);
    assert_eq!(parse_port("host:99999"), None);
}

#[test]
fn port_digits_are_counted() {
    assert_eq!(parse_port("host:00080"), Some(80));
    assert_eq!(parse_port("host:000080"), None);
    assert_eq!(parse_port("host:"), None);
}

#[test]
fn host_must_not_be_empty() {
    assert_eq!(parse_port(":80"), None);
    assert_eq!(parse_port(""), None);
    assert_eq!(parse_port(":"), None);
}

#[test]
fn colon_is_required() {
    assert_eq!(parse_port("host"), None);
    assert_eq!(parse_port("8080"), None);
    assert_eq!(parse_port("nonsense"), None);
}

#[test]
fn last_colon_parts_host_and_port() {
    assert_eq!(parse_port("[::1]:8080"), Some(8080));
    assert_eq!(parse_port("a:b:1"), Some(1));
    assert_eq!(parse_port("a:1:b"), None);
}

#[test]
fn port_takes_digits_only() {
    assert_eq!(parse_port("host:+80"), None);
    assert_eq!(parse_port("host:8 0"), None);
    assert_eq!(parse_port("host:80 "), None);
    assert_eq!(parse_port("host:-1"), None);
}

#[test]
fn host_may_hold_any_characters() {
    assert_eq!(parse_port("héllo:5"), Some(5));
    assert_eq!(parse_port("é:65535"), Some(65535));
}

#[test]
fn is_valid_agrees_with_parse_port() {
    for text in ["10.0.0.1:7000", "h:9000", ":80", "host:65536", "x", "a:b:1"] {
        assert_eq!(is_valid(text), parse_port(text).is_some());
    }
    assert!(is_valid("10.0.0.2:7000"));
    assert!(!is_valid("10.0.0.2"));
}

#[test]
fn digits_are_recognised() {
    assert!(digit('0'));
    assert!(digit('9'));
    assert!(!digit('/'));
    assert!(!digit(':'));
    assert!(!digit('a'));
}
