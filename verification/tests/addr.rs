use dispatch_ng::addr::{parse_addr_spec, AddrSpecError, IpAddress};

fn spec_of(s: &str) -> Result<(Vec<u8>, usize), AddrSpecError> {
    parse_addr_spec(&s.as_bytes().to_vec())
}

#[test]
fn test_v4_octet_round_trip() {
    let a = IpAddress::from_v4_octets(&vec![127, 0, 0, 1]);
    assert_eq!(a, IpAddress::V4(0x7f000001));
    assert_eq!(a.octets(), vec![127, 0, 0, 1]);
    assert!(a.is_v4());
    assert!(!a.is_v6());
}

#[test]
fn test_v6_octet_round_trip() {
    let mut bytes = vec![0u8; 16];
    bytes[15] = 1;
    let a = IpAddress::from_v6_octets(&bytes);
    assert_eq!(a, IpAddress::V6(1));
    assert_eq!(a.octets(), bytes);
    assert!(a.is_v6());

    let full: Vec<u8> = (1..=16u8).collect();
    let b = IpAddress::from_v6_octets(&full);
    assert_eq!(b.octets(), full);
}

#[test]
fn test_addr_spec_without_metric() {
    assert_eq!(spec_of("1.2.3.4"), Ok(("1.2.3.4".as_bytes().to_vec(), 1)));
    assert_eq!(spec_of("::1"), Ok(("::1".as_bytes().to_vec(), 1)));
}

#[test]
fn test_addr_spec_with_metric() {
    assert_eq!(spec_of("1.2.3.4@2"), Ok(("1.2.3.4".as_bytes().to_vec(), 2)));
    assert_eq!(spec_of("::1@10"), Ok(("::1".as_bytes().to_vec(), 10)));
    assert_eq!(spec_of("a@+7"), Ok(("a".as_bytes().to_vec(), 7)));
    assert_eq!(spec_of("a@007"), Ok(("a".as_bytes().to_vec(), 7)));
}

#[test]
fn test_addr_spec_bad_metric() {
    assert_eq!(spec_of("1.2.3.4@"), Err(AddrSpecError::InvalidMetric));
    assert_eq!(spec_of("1.2.3.4@x"), Err(AddrSpecError::InvalidMetric));
    assert_eq!(spec_of("1.2.3.4@2x"), Err(AddrSpecError::InvalidMetric));
    assert_eq!(spec_of("1.2.3.4@+"), Err(AddrSpecError::InvalidMetric));
    assert_eq!(
        spec_of("1.2.3.4@99999999999999999999999999"),
        Err(AddrSpecError::InvalidMetric)
    );
}

#[test]
fn test_addr_spec_metric_zero() {
    assert_eq!(spec_of("1.2.3.4@0"), Err(AddrSpecError::MetricTooSmall));
    assert_eq!(spec_of("1.2.3.4@000"), Err(AddrSpecError::MetricTooSmall));
}

#[test]
fn test_addr_spec_extra_at() {
    assert_eq!(spec_of("1.2.3.4@2@3"), Err(AddrSpecError::ExtraAtSign));
    assert_eq!(spec_of("a@1@"), Err(AddrSpecError::ExtraAtSign));
    // The metric between the first and second at sign is examined
    // first, as on the original command line.
    assert_eq!(spec_of("a@x@3"), Err(AddrSpecError::InvalidMetric));
    assert_eq!(spec_of("a@0@3"), Err(AddrSpecError::MetricTooSmall));
}
