use dispatch_ng::addr::IpAddress;
use dispatch_ng::balancer::BalancerState;
use dispatch_ng::session::{
    build_reply, check_greeting, check_request_head, choose_target, greeting_reply,
    needed_families, parse_port, reply_code_for, AddrType, ConnectErrorKind, ReplyCode,
    SessionError,
};

#[test]
fn test_greeting_no_auth_accepted() {
    assert_eq!(check_greeting(5, 1), Ok(1));
    assert_eq!(check_greeting(5, 3), Ok(3));
    let (reply, proceed) = greeting_reply(&vec![0]);
    assert_eq!(reply, vec![5, 0]);
    assert!(proceed);
    let (reply, proceed) = greeting_reply(&vec![2, 0, 1]);
    assert_eq!(reply, vec![5, 0]);
    assert!(proceed);
}

#[test]
fn test_greeting_bad_version() {
    assert_eq!(
        check_greeting(4, 1),
        Err(SessionError::UnsupportedProtocolVersion(4))
    );
    assert_eq!(check_greeting(5, 0), Err(SessionError::Protocol));
}

#[test]
fn test_greeting_only_method_two() {
    let (reply, proceed) = greeting_reply(&vec![2]);
    assert_eq!(reply, vec![5, 255]);
    assert!(!proceed);
}

#[test]
fn test_request_head() {
    assert_eq!(check_request_head(5, 1, 0, 1), Ok(AddrType::IPv4));
    assert_eq!(check_request_head(5, 1, 0, 3), Ok(AddrType::Domain));
    assert_eq!(check_request_head(5, 1, 0, 4), Ok(AddrType::IPv6));
    assert_eq!(
        check_request_head(4, 1, 0, 1),
        Err(SessionError::UnsupportedProtocolVersion(4))
    );
    assert_eq!(check_request_head(5, 1, 9, 1), Err(SessionError::Protocol));
    assert_eq!(
        check_request_head(5, 1, 0, 2),
        Err(SessionError::InvalidAddress(2))
    );
}

#[test]
fn test_udp_associate_not_supported() {
    let err = check_request_head(5, 3, 0, 1);
    assert_eq!(err, Err(SessionError::UnsupportedCommand(3)));
    let code = reply_code_for(&Some(SessionError::UnsupportedCommand(3)));
    assert_eq!(code, ReplyCode::CommandNotSupported);
    assert_eq!(code.code(), 7);
    let reply = build_reply(code, &IpAddress::V4(0), 0);
    assert_eq!(reply, vec![5, 7, 0, 1, 0, 0, 0, 0, 0, 0]);
}

#[test]
fn test_no_source_for_family() {
    let addr6 = IpAddress::from_v6_octets(&vec![0, 0, 0, 0, 0, 0, 0, 0, 0, 0, 0, 0, 0, 0, 0, 1]);
    let mut balancer = BalancerState::new();
    balancer.extend(&vec![(addr6, 1)]);

    let taken = balancer.take(true, false);
    assert_eq!(taken, None);

    let code = reply_code_for(&Some(SessionError::NoSuitableSourceAddr));
    assert_eq!(code, ReplyCode::AddressTypeNotSupported);
    let reply = build_reply(code, &IpAddress::V4(0), 0);
    assert_eq!(reply[1], 8);
}

#[test]
fn test_reply_code_table() {
    assert_eq!(reply_code_for(&None).code(), 0);
    assert_eq!(
        reply_code_for(&Some(SessionError::Connect(ConnectErrorKind::Refused))).code(),
        5
    );
    assert_eq!(
        reply_code_for(&Some(SessionError::Connect(ConnectErrorKind::TimedOut))).code(),
        6
    );
    assert_eq!(
        reply_code_for(&Some(SessionError::Connect(ConnectErrorKind::Other))).code(),
        1
    );
    assert_eq!(reply_code_for(&Some(SessionError::NameResolution)).code(), 1);
    assert_eq!(reply_code_for(&Some(SessionError::DomainNotUtf8)).code(), 1);
    assert_eq!(reply_code_for(&Some(SessionError::Read)).code(), 1);
}

#[test]
fn test_success_reply_v4() {
    let bind = IpAddress::from_v4_octets(&vec![127, 0, 0, 1]);
    let reply = build_reply(ReplyCode::Success, &bind, 0x1234);
    assert_eq!(reply, vec![5, 0, 0, 1, 127, 0, 0, 1, 0x12, 0x34]);
    assert_eq!(reply.len(), 10);
}

#[test]
fn test_success_reply_v6() {
    let bind = IpAddress::from_v6_octets(&vec![0, 0, 0, 0, 0, 0, 0, 0, 0, 0, 0, 0, 0, 0, 0, 1]);
    let reply = build_reply(ReplyCode::Success, &bind, 80);
    let mut expected = vec![5, 0, 0, 4];
    expected.extend(vec![0, 0, 0, 0, 0, 0, 0, 0, 0, 0, 0, 0, 0, 0, 0, 1]);
    expected.extend(vec![0, 80]);
    assert_eq!(reply, expected);
    assert_eq!(reply.len(), 22);
}

#[test]
fn test_parse_port_big_endian() {
    assert_eq!(parse_port(0x12, 0x34), 0x1234);
    assert_eq!(parse_port(0, 80), 80);
    assert_eq!(parse_port(255, 255), 65535);
}

#[test]
fn test_needed_families() {
    let a4 = IpAddress::V4(1);
    let a6 = IpAddress::V6(1);
    assert_eq!(needed_families(&vec![]), (false, false));
    assert_eq!(needed_families(&vec![a4]), (true, false));
    assert_eq!(needed_families(&vec![a6]), (false, true));
    assert_eq!(needed_families(&vec![a6, a4]), (true, true));
}

#[test]
fn test_choose_target_matches_family() {
    let a4 = IpAddress::V4(0x7f000001);
    let b4 = IpAddress::V4(0x7f000002);
    let a6 = IpAddress::V6(1);
    assert_eq!(choose_target(&vec![a6, a4, b4], &IpAddress::V4(9)), Some(a4));
    assert_eq!(choose_target(&vec![a4, b4], &IpAddress::V6(9)), None);
    assert_eq!(choose_target(&vec![a4, a6], &IpAddress::V6(9)), Some(a6));
}
