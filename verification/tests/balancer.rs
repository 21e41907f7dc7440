use dispatch_ng::addr::IpAddress;
use dispatch_ng::balancer::{BalancerState, MetricState};

fn v4(a: u8, b: u8, c: u8, d: u8) -> IpAddress {
    IpAddress::from_v4_octets(&vec![a, b, c, d])
}

#[test]
fn test() {
    let addr1 = v4(172, 16, 0, 1);
    let addr2 = v4(172, 16, 0, 2);

    let mut balancer = BalancerState::new();
    balancer.extend(&vec![(addr1, 1), (addr2, 2)]);

    let res1 = balancer.take(true, true);
    let res2 = balancer.take(true, true);
    let res3 = balancer.take(true, true);

    let vec: Vec<IpAddress> = res1.into_iter().chain(res2).chain(res3).collect();

    assert_eq!(vec.iter().filter(|x| **x == addr1).count(), 1);
    assert_eq!(vec.iter().filter(|x| **x == addr2).count(), 2);
}

#[test]
fn test_weighted_distribution_ten() {
    let addr1 = v4(172, 16, 0, 1);
    let addr2 = v4(172, 16, 0, 2);

    let mut balancer = BalancerState::new();
    balancer.extend(&vec![(addr1, 1), (addr2, 2)]);

    let mut taken: Vec<IpAddress> = Vec::new();
    for _ in 0..10 {
        taken.push(balancer.take(true, true).expect("an address is configured"));
    }

    // The ideal weighted split of ten uses over weights 1:2 is one
    // third against two thirds; which address wins an equal-load tie
    // is left open, so the counts are pinned only to within one of
    // the ideal.
    let ones = taken.iter().filter(|x| **x == addr1).count();
    let twos = taken.iter().filter(|x| **x == addr2).count();
    assert_eq!(ones + twos, 10);
    assert!(ones == 3 || ones == 4);
    assert!(twos == 10 - ones);
}

#[test]
fn test_conservation() {
    let addr1 = v4(10, 0, 0, 1);
    let addr2 = v4(10, 0, 0, 2);
    let addr6 = IpAddress::from_v6_octets(&vec![0, 0, 0, 0, 0, 0, 0, 0, 0, 0, 0, 0, 0, 0, 0, 1]);

    let mut balancer = BalancerState::new();
    balancer.extend(&vec![(addr1, 1), (addr2, 2), (addr6, 1)]);

    let sum = |b: &BalancerState| {
        b.use_count_of(addr1).unwrap() + b.use_count_of(addr2).unwrap()
            + b.use_count_of(addr6).unwrap()
    };
    assert_eq!(sum(&balancer), 0);

    let mut held: Vec<IpAddress> = Vec::new();
    for i in 0..5 {
        let a = balancer.take(true, true).expect("an address is configured");
        held.push(a);
        assert_eq!(sum(&balancer), i + 1);
    }
    while let Some(a) = held.pop() {
        balancer.release(a);
        assert_eq!(sum(&balancer), held.len());
    }
    assert_eq!(sum(&balancer), 0);
}

#[test]
fn test_release_restores_counts() {
    let addr1 = v4(10, 0, 0, 1);
    let addr2 = v4(10, 0, 0, 2);

    let mut balancer = BalancerState::new();
    balancer.extend(&vec![(addr1, 1), (addr2, 2)]);

    let pre1 = balancer.use_count_of(addr1);
    let pre2 = balancer.use_count_of(addr2);

    let taken = balancer.take(true, false).expect("an address is configured");
    balancer.release(taken);

    assert_eq!(balancer.use_count_of(addr1), pre1);
    assert_eq!(balancer.use_count_of(addr2), pre2);
}

#[test]
fn test_family_masking() {
    let addr4 = v4(10, 0, 0, 1);
    let addr6 = IpAddress::from_v6_octets(&vec![0, 0, 0, 0, 0, 0, 0, 0, 0, 0, 0, 0, 0, 0, 0, 1]);

    let mut balancer = BalancerState::new();
    balancer.extend(&vec![(addr4, 1), (addr6, 1)]);

    for _ in 0..4 {
        assert_eq!(balancer.take(false, false), None);
    }
    for _ in 0..3 {
        let a = balancer.take(true, false).expect("an IPv4 address is configured");
        assert_eq!(a, addr4);
    }
    for _ in 0..3 {
        let a = balancer.take(false, true).expect("an IPv6 address is configured");
        assert_eq!(a, addr6);
    }
}

#[test]
fn test_metric_state_accessors() {
    let ms = MetricState::new(3);
    assert_eq!(ms.use_count(), 0);
    assert_eq!(ms.metric(), 3);
}

#[test]
fn test_take_empty_returns_none() {
    let mut balancer = BalancerState::new();
    assert_eq!(balancer.take(true, true), None);
}
