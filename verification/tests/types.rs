use oboe::{default_successes, IpAddr, ServerHealth};

#[test]
fn default_successes_is_two() {
    assert_eq!(default_successes(), 2);
}

#[test]
fn health_predicates() {
    assert!(ServerHealth::Healthy.is_healthy());
    assert!(!ServerHealth::Probing.is_healthy());
    assert!(!ServerHealth::Unhealthy.is_healthy());
    assert!(ServerHealth::Healthy.is_usable());
    assert!(ServerHealth::Probing.is_usable());
    assert!(!ServerHealth::Unhealthy.is_usable());
}

#[test]
fn address_keys_round_trip_and_order() {
    let a = IpAddr::v4(1, 2, 3, 4);
    assert_eq!(a, IpAddr::V4(0x0102_0304));
    assert_eq!(a.key(), (0, 0x0102_0304));
    assert_eq!(IpAddr::from_key(a.key()), a);
    let b = IpAddr::V6(0x2606_4700_4700_0000_0000_0000_0000_1111);
    assert_eq!(IpAddr::from_key(b.key()), b);
    assert!(IpAddr::v4(255, 255, 255, 255).key() < IpAddr::V6(0).key());
    assert!(IpAddr::v4(1, 1, 1, 1).key() < IpAddr::v4(9, 9, 9, 9).key());
}
