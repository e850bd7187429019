use factorio_mod_settings::FactorioVersion;
use std::cmp::Ordering;

fn v(major: u16, minor: u16, patch: u16, build: u16) -> FactorioVersion {
    FactorioVersion { major, minor, patch, build }
}

#[test]
fn versions_order_lexicographically() {
    assert_eq!(v(1, 1, 82, 4).partial_cmp(&v(1, 1, 82, 4)), Some(Ordering::Equal));
    assert!(v(1, 1, 82, 4) < v(2, 0, 0, 0));
    assert!(v(1, 2, 0, 0) > v(1, 1, 99, 99));
    assert!(v(1, 1, 82, 3) < v(1, 1, 82, 4));
    assert_eq!(v(0, 18, 0, 0).cmp(&v(0, 17, 79, 0)), Ordering::Greater);
}
