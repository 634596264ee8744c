//! Sign operations and rounding decomposition on concrete values.

use fpdec::Decimal;

#[test]
fn test_neg() {
    let val = 1234567890i128;
    let x: Decimal = Decimal::new_raw(val, 2);
    let y = x.neg();
    assert_eq!(x.coeff, -y.coeff);
    let z = y.neg();
    assert_eq!(x.coeff, z.coeff);
    let a = &x;
    let b = a.neg();
    assert_eq!(a.coeff, -b.coeff);
}

#[test]
fn test_neg_corner_cases_ok() {
    let x = Decimal::max_value();
    let y = x.neg();
    assert_eq!(x.coeff, -y.coeff);
    let z = y.neg();
    assert_eq!(x.coeff, z.coeff);
}

#[test]
fn test_abs() {
    let x = Decimal::new_raw(-123456789, 4);
    let y = x.abs();
    assert_eq!(-x.coeff, y.coeff);
    let z = y.abs();
    assert_eq!(y.coeff, z.coeff);
    let a = &x;
    let b = a.abs();
    assert_eq!(-a.coeff, b.coeff);
}

#[test]
fn test_floor() {
    let x = Decimal::new_raw(123, 0);
    let y = x.floor();
    assert_eq!(y.n_frac_digits, 0);
    assert_eq!(y.coeff, x.coeff);
    let x = Decimal::new_raw(123456789, 5);
    let y = x.floor();
    assert_eq!(y.coeff, 1234);
    assert_eq!(y.n_frac_digits, 0);
    let z = y.floor();
    assert_eq!(y.coeff, z.coeff);
    let x = Decimal::new_raw(-987, 9);
    let y = x.floor();
    assert_eq!(y.coeff, -1);
    assert_eq!(y.n_frac_digits, 0);
    let z = y.floor();
    assert_eq!(y.coeff, z.coeff);
    let a = &x;
    let b = a.floor();
    assert_eq!(b.coeff, y.coeff);
}

#[test]
fn test_ceil() {
    let x = Decimal::new_raw(123, 0);
    let y = x.ceil();
    assert_eq!(y.coeff, x.coeff);
    assert_eq!(y.n_frac_digits, 0);
    let x = Decimal::new_raw(123400001, 5);
    let y = x.ceil();
    assert_eq!(y.coeff, 1235);
    assert_eq!(y.n_frac_digits, 0);
    let z = y.ceil();
    assert_eq!(y.coeff, z.coeff);
    let x = Decimal::new_raw(-987, 6);
    let y = x.ceil();
    assert_eq!(y.coeff, 0);
    assert_eq!(y.n_frac_digits, 0);
    let z = y.ceil();
    assert_eq!(y.coeff, z.coeff);
    let a = &x;
    let b = a.ceil();
    assert_eq!(b.coeff, y.coeff);
}

#[test]
fn test_trunc() {
    let x = Decimal::new_raw(12345, 0);
    let y = x.trunc();
    assert_eq!(x.coeff, y.coeff);
    assert_eq!(y.n_frac_digits, 0);
    let x = Decimal::new_raw(98765, 3);
    let y = x.trunc();
    assert_eq!(y.coeff, 98);
    assert_eq!(y.n_frac_digits, 0);
    let x = Decimal::new_raw(999999, 7);
    let y = x.trunc();
    assert_eq!(y.coeff, 0);
    assert_eq!(y.n_frac_digits, 0);
    let a = &x;
    let b = a.trunc();
    assert_eq!(b.coeff, y.coeff);
}

#[test]
fn test_fract() {
    let x = Decimal::new_raw(12345, 0);
    let y = x.fract();
    assert_eq!(y.coeff, 0);
    assert_eq!(y.n_frac_digits, 0);
    let x = Decimal::new_raw(987654, 3);
    let y = x.fract();
    assert_eq!(y.coeff, 654);
    assert_eq!(y.n_frac_digits, 3);
    let x = Decimal::new_raw(9999, 5);
    let y = x.fract();
    assert_eq!(y.coeff, 9999);
    assert_eq!(y.n_frac_digits, 5);
    let a = &x;
    let b = a.fract();
    assert_eq!(b.coeff, y.coeff);
}

#[test]
fn test_trunc_idempotent() {
    let x = Decimal::new_raw(-98765, 3);
    let y = x.trunc();
    assert_eq!(y.coeff, -98);
    assert_eq!(y.n_frac_digits, 0);
    let z = y.trunc();
    assert_eq!(z, y);
}

#[test]
fn test_floor_le_value_le_ceil() {
    for &(c, s) in &[(987654i128, 3u8), (-987654, 3), (1000, 3), (-987, 9), (0, 5)] {
        let x = Decimal::new_raw(c, s);
        let fl = x.floor();
        let ce = x.ceil();
        let mut p: i128 = 1;
        for _ in 0..s {
            p *= 10;
        }
        assert!(fl.coeff * p <= x.coeff);
        assert!(x.coeff <= ce.coeff * p);
        let exact = x.fract().coeff == 0;
        assert_eq!(fl.coeff * p == x.coeff, exact);
        assert_eq!(ce.coeff * p == x.coeff, exact);
    }
}

#[test]
fn test_trunc_fract_complement() {
    for &(c, s) in &[(987654i128, 3u8), (-987654, 3), (999999, 7), (-1, 9), (42, 0)] {
        let x = Decimal::new_raw(c, s);
        let t = x.trunc();
        let f = x.fract();
        let mut p: i128 = 1;
        for _ in 0..s {
            p *= 10;
        }
        assert_eq!(x.coeff, t.coeff * p + f.coeff);
        assert_eq!(f.n_frac_digits, if s == 0 { 0 } else { s });
    }
}
