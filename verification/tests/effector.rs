use oboe::effector::{keep_first_error, reports_enabled};
use oboe::{IpAddr, MacosEffector};

#[test]
fn local_resolver_heads_every_chain() {
    let e = MacosEffector::new(vec!["Wi-Fi".into(), "Thunderbolt Bridge".into()], IpAddr::v4(127, 0, 0, 1));
    assert_eq!(e.services(), &vec!["Wi-Fi".to_string(), "Thunderbolt Bridge".to_string()]);
    let full = e.full_chain(&[IpAddr::v4(9, 9, 9, 9), IpAddr::v4(1, 1, 1, 1)]);
    assert_eq!(full, vec![IpAddr::v4(127, 0, 0, 1), IpAddr::v4(9, 9, 9, 9), IpAddr::v4(1, 1, 1, 1)]);
    assert_eq!(e.full_chain(&[]), vec![IpAddr::v4(127, 0, 0, 1)]);
}

#[test]
fn first_error_is_kept() {
    let mut first: Option<String> = None;
    first = keep_first_error(first, Ok(()));
    assert_eq!(first, None);
    first = keep_first_error(first, Err("a".to_string()));
    first = keep_first_error(first, Ok(()));
    first = keep_first_error(first, Err("b".to_string()));
    assert_eq!(first.as_deref(), Some("a"));
}

#[test]
fn enabled_replies() {
    assert!(reports_enabled("Enabled\n"));
    assert!(reports_enabled("enabled"));
    assert!(reports_enabled("  ENABLED \r\n"));
    assert!(reports_enabled("\u{a0}eNaBlEd\u{3000}"));
    assert!(!reports_enabled("Disabled\n"));
    assert!(!reports_enabled(""));
    assert!(!reports_enabled("en abled"));
    assert!(!reports_enabled("enabled!"));
    assert!(!reports_enabled("enabledd"));
    assert!(!reports_enabled("** Error: unknown service"));
}
