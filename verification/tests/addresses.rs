//! Tests of the replica handshake requests and the primary address parser.
use miniredis::server::{handshake_requests, HostSpec, HostSpecError};

#[test]
fn handshake_is_three_fixed_requests() {
    let msgs = handshake_requests(6380);
    assert_eq!(msgs.len(), 3);
    assert_eq!(msgs[0], b"*1\r\n$4\r\nping\r\n".to_vec());
    assert_eq!(
        msgs[1],
        b"*3\r\n$8\r\nREPLCONF\r\n$14\r\nlistening-port\r\n$4\r\n6380\r\n".to_vec()
    );
    assert_eq!(
        msgs[2],
        b"*3\r\n$8\r\nREPLCONF\r\n$4\r\ncapa\r\n$6\r\npsync2\r\n".to_vec()
    );
}

#[test]
fn localhost_resolves_to_loopback() {
    let spec = HostSpec::from_str("localhost 6379").unwrap();
    assert_eq!(spec.address(), b"127.0.0.1:6379".to_vec());
}

#[test]
fn ipv4_host_is_kept() {
    let spec = HostSpec::from_str("10.0.0.7 6380").unwrap();
    assert_eq!(spec.address(), b"10.0.0.7:6380".to_vec());
}

#[test]
fn ipv6_hosts_are_accepted() {
    let spec = HostSpec::from_str("::1 6379").unwrap();
    assert_eq!(spec.address(), b"::1:6379".to_vec());
    assert!(HostSpec::from_str(":: 6379").is_ok());
    assert!(HostSpec::from_str("2001:db8::8a2e:370:7334 6379").is_ok());
    assert!(HostSpec::from_str("fe80:1:2:3:4:5:6:7 6379").is_ok());
}

#[test]
fn extra_whitespace_is_tolerated() {
    let spec = HostSpec::from_str("  127.0.0.1   6379  ").unwrap();
    assert_eq!(spec.address(), b"127.0.0.1:6379".to_vec());
}

#[test]
fn wrong_token_count_is_a_shape_error() {
    let err = HostSpec::from_str("127.0.0.1").unwrap_err();
    assert_eq!(err, HostSpecError::InvalidShape);
    assert_eq!(err.message(), "Invalid Master Host and Port specification.");
    assert_eq!(
        HostSpec::from_str("a b c").unwrap_err(),
        HostSpecError::InvalidShape
    );
}

#[test]
fn bad_ports_are_rejected() {
    let err = HostSpec::from_str("127.0.0.1 x").unwrap_err();
    assert_eq!(err, HostSpecError::InvalidPort);
    assert_eq!(err.message(), "Invalid Port");
    assert_eq!(
        HostSpec::from_str("127.0.0.1 70000").unwrap_err(),
        HostSpecError::InvalidPort
    );
    let err = HostSpec::from_str("127.0.0.1 80").unwrap_err();
    assert_eq!(err, HostSpecError::PortOutOfRange);
    assert_eq!(err.message(), "Port must be between 1024 and 65535");
}

#[test]
fn bad_hosts_are_rejected() {
    let err = HostSpec::from_str("example.com 6379").unwrap_err();
    assert_eq!(err, HostSpecError::InvalidHost);
    assert_eq!(err.message(), "Invalid host");
    assert_eq!(
        HostSpec::from_str("256.1.1.1 6379").unwrap_err(),
        HostSpecError::InvalidHost
    );
    assert_eq!(
        HostSpec::from_str("01.2.3.4 6379").unwrap_err(),
        HostSpecError::InvalidHost
    );
    assert_eq!(
        HostSpec::from_str("1.2.3 6379").unwrap_err(),
        HostSpecError::InvalidHost
    );
    assert_eq!(
        HostSpec::from_str("1:2 6379").unwrap_err(),
        HostSpecError::InvalidHost
    );
    assert_eq!(
        HostSpec::from_str("1::2::3 6379").unwrap_err(),
        HostSpecError::InvalidHost
    );
    assert_eq!(
        HostSpec::from_str("12345::1 6379").unwrap_err(),
        HostSpecError::InvalidHost
    );
    assert_eq!(
        HostSpec::from_str("1:2:3:4:5:6:7:8:9 6379").unwrap_err(),
        HostSpecError::InvalidHost
    );
}
