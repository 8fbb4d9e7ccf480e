use cs_course::bigint::BigInt;
use cs_course::rational::Rational;
use cs_course::render::{decimal_string, hex_string, Render};

#[test]
fn bigint_constructors() {
    assert_eq!(BigInt::new(5).carrier, vec![5]);
    assert_eq!(BigInt::new_large(vec![44, 345, 3]).carrier, vec![44, 345, 3]);
}

#[test]
fn bigint_add_small() {
    let r = BigInt::new(5) + BigInt::new(7);
    assert_eq!(r.carrier, vec![12]);
}

#[test]
fn bigint_add_overflow_extends() {
    let r = BigInt::new(0x7fff_ffff) + BigInt::new(1);
    assert_eq!(r.carrier, vec![0, 0x8000_0000]);
}

#[test]
fn bigint_add_negative_one_and_one_is_zero() {
    let r = BigInt::new(u32::MAX) + BigInt::new(1);
    assert_eq!(r.carrier, vec![0]);
}

#[test]
fn bigint_sub() {
    let r = BigInt::new(5) - BigInt::new(7);
    assert_eq!(r.carrier, vec![0xffff_fffe]);
    let s = BigInt::new_large(vec![1, 0]) - BigInt::new(1);
    assert_eq!(s.carrier, vec![0, u32::MAX]);
}

#[test]
fn bigint_add_truncates_sign_words() {
    let r = BigInt::new_large(vec![0, 0, 3]) + BigInt::new_large(vec![u32::MAX, u32::MAX]);
    assert_eq!(r.carrier, vec![2]);
}

#[test]
fn bigint_large_values() {
    let a = BigInt::new_large(vec![u32::MAX - 5, u32::MAX - 7]);
    let b = BigInt::new_large(vec![5, 8]);
    assert_eq!((a + b).carrier, vec![0]);
}

#[test]
fn bigint_display_hex() {
    assert_eq!(BigInt::new_large(vec![0, 0x8000_0000]).to_string(), "0000000080000000".to_string());
    assert_eq!(BigInt::new(255).to_string(), "000000ff".to_string());
}

#[test]
fn hex_and_decimal() {
    assert_eq!(hex_string(0xdead_beef), "deadbeef".to_string());
    assert_eq!(hex_string(0), "00000000".to_string());
    assert_eq!(decimal_string(0), "0".to_string());
    assert_eq!(decimal_string(-120), "-120".to_string());
    assert_eq!(decimal_string(isize::MIN), isize::MIN.to_string());
    assert_eq!(decimal_string(isize::MAX), isize::MAX.to_string());
}

#[test]
fn rational_arithmetic() {
    let half = Rational::new(1, 2);
    let third = Rational::new(1, 3);
    assert_eq!(half.add(third), Rational::new(5, 6));
    assert_eq!(half.mul(Rational::new(2, 3)), Rational::new(1, 3));
    assert_eq!(half.sub(half), Rational::new(0, 0));
    assert_eq!(half.div(Rational::new(1, 4)), Rational::new(2, 1));
    assert_eq!(Rational::new(2, 4).add(Rational::zero()), Rational::new(2, 4));
    assert_eq!(Rational::zero().sub(Rational::new(2, -4)), Rational::new(1, 2));
    assert_eq!(Rational::zero().mul(half), Rational::zero());
}

#[test]
fn rational_normalize() {
    assert_eq!(Rational::normalize(6, -4), Rational::new(-3, 2));
    assert_eq!(Rational::normalize(0, 5), Rational::new(0, 0));
    assert_eq!(Rational::normalize(-9, -3), Rational::new(3, 1));
}

#[test]
fn rational_constants() {
    assert_eq!(Rational::zero(), Rational::new(0, 0));
    assert_eq!(Rational::one(), Rational::new(1, 1));
    assert_eq!(Rational::minus_one(), Rational::new(-1, 1));
}

#[test]
fn rational_display() {
    assert_eq!(Rational::zero().to_string(), "0".to_string());
    assert_eq!(Rational::new(2, 1).to_string(), "2".to_string());
    assert_eq!(Rational::new(5, 6).to_string(), "5/6".to_string());
    assert_eq!(Rational::new(-3, 4).to_string(), "-3/4".to_string());
}

#[test]
fn bigint_helpers() {
    assert_eq!(BigInt::new(5).two_complement().carrier, vec![0xffff_fffb]);
    assert_eq!(BigInt::new(0x8000_0000).two_complement().carrier, vec![0, 0x8000_0000]);
    assert_eq!(BigInt::new(0).two_complement().carrier, vec![0]);
    assert_eq!(BigInt::new_large(vec![0, 0, 3]).truncate().carrier, vec![3]);
    assert_eq!(BigInt::new_large(vec![u32::MAX, u32::MAX]).truncate().carrier, vec![u32::MAX]);
    assert_eq!(BigInt::new_large(vec![0, 0x8000_0000]).truncate().carrier, vec![0, 0x8000_0000]);
    assert_eq!(BigInt::new(0x8000_0000).sign_extension(64).carrier, vec![u32::MAX, 0x8000_0000]);
    assert_eq!(BigInt::new(1).sign_extension(40).carrier, vec![0, 1]);
    assert_eq!(BigInt::new(1).sign_extension(32).carrier, vec![1]);
}

#[test]
fn bigint_results_are_canonical() {
    let a = BigInt::new_large(vec![0, 0x8000_0000]);
    let back = (a.clone() + BigInt::new(5)) - BigInt::new(5);
    assert_eq!(back.carrier, a.carrier);
    let padded = BigInt::new_large(vec![0, 0, 7]) + BigInt::new(0);
    assert_eq!(padded.carrier, vec![7]);
}
