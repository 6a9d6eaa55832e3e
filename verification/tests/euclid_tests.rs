use ciphers::euclid::{gcd, gcd_extended};

#[test]
fn test_gcd1() {
    assert_eq!(gcd(8, 12), 4);
    assert_eq!(gcd(12, 8), 4);
}

#[test]
fn test_gcd2() {
    assert_eq!(gcd(54, 24), 6);
    assert_eq!(gcd(24, 54), 6);
}

#[test]
fn test_gcd3() {
    assert_eq!(gcd(0, 15), 15);
    assert_eq!(gcd(15, 0), 15);
}

#[test]
fn test_gcd4() {
    assert_eq!(gcd(0, 0), 0);
}

#[test]
fn test_gcd_extended1() {
    assert_eq!(gcd_extended(240, 46), (2, -9, 47));
}

#[test]
fn test_gcd_extended2() {
    assert_eq!(gcd_extended(15, 0), (15, 1, 0));
}

#[test]
fn test_gcd_negative_first() {
    assert_eq!(gcd(-8, 12), 4);
}

#[test]
fn test_gcd_extended_negative() {
    let (d, x, y) = gcd_extended(-240, 46);
    assert_eq!(d, 2);
    assert_eq!(-240 * x + 46 * y, 2);
}
