use cube::arith::{gcd, lcm};

#[test]
fn test_gcd() {
    assert_eq!(gcd(2, 3), 1);
    assert_eq!(gcd(4, 2), 2);
    assert_eq!(gcd(247, 962), 13);
}

#[test]
fn test_lcm() {
    assert_eq!(lcm(2, 3), 6);
    assert_eq!(lcm(4, 2), 4);
    assert_eq!(lcm(247, 962), 18278);
}

#[test]
fn gcd_with_zero() {
    assert_eq!(gcd(0, 5), 5);
    assert_eq!(gcd(7, 0), 7);
    assert_eq!(lcm(0, 5), 0);
}
