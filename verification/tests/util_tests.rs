use strict_input::util::SetMinMax;

#[test]
fn set_min_replaces_only_smaller() {
    let mut x: i64 = 5;
    assert!(x.set_min(3));
    assert_eq!(x, 3);
    assert!(!x.set_min(4));
    assert_eq!(x, 3);
    assert!(!x.set_min(3));
    assert_eq!(x, 3);
}

#[test]
fn set_max_replaces_only_larger() {
    let mut x: i64 = 5;
    assert!(x.set_max(8));
    assert_eq!(x, 8);
    assert!(!x.set_max(7));
    assert_eq!(x, 8);
    assert!(!x.set_max(8));
    assert_eq!(x, 8);
}

#[test]
fn set_min_max_on_unsigned() {
    let mut a: u64 = 10;
    assert!(a.set_min(2));
    assert_eq!(a, 2);
    let mut b: usize = 1;
    assert!(b.set_max(9));
    assert_eq!(b, 9);
    let mut c: i32 = -4;
    assert!(!c.set_min(0));
    assert_eq!(c, -4);
    assert!(c.set_max(0));
    assert_eq!(c, 0);
}
