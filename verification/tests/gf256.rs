use rust_sss::gf256::{gf_multiply, gf_divide, eval_poly};

#[test]
fn multiply_small_values() {
    assert_eq!(gf_multiply(2, 3), 6);
    assert_eq!(gf_multiply(0, 0x53), 0);
    assert_eq!(gf_multiply(0x53, 0), 0);
    assert_eq!(gf_multiply(1, 0xCA), 0xCA);
    assert_eq!(gf_multiply(0xCA, 1), 0xCA);
}

#[test]
fn multiply_reduces_by_modulus() {
    // 0x80 * 2 overflows the byte and is reduced by x^8 + x^4 + x^3 + x + 1
    assert_eq!(gf_multiply(0x80, 2), 0x1b);
    // the classic AES inverse pair
    assert_eq!(gf_multiply(0x53, 0xCA), 0x01);
}

#[test]
fn multiply_commutes_on_samples() {
    for &(a, b) in &[(7u8, 200u8), (0x53, 0xCA), (255, 254), (19, 83)] {
        assert_eq!(gf_multiply(a, b), gf_multiply(b, a));
    }
}

#[test]
fn divide_inverts_multiply_on_samples() {
    for &(a, b) in &[(7u8, 200u8), (1, 255), (0x53, 0xCA), (90, 17)] {
        let product = gf_multiply(a, b);
        assert_eq!(gf_divide(product, b), a);
        assert_eq!(gf_divide(product, a), b);
    }
}

#[test]
fn divide_by_self_is_one() {
    for x in 1u8..=255 {
        assert_eq!(gf_divide(x, x), 1);
    }
}

#[test]
fn eval_constant_polynomial() {
    let poly = vec![5u8];
    assert_eq!(eval_poly(&poly, 0), 5);
    assert_eq!(eval_poly(&poly, 77), 5);
}

#[test]
fn eval_linear_polynomial() {
    // 3 + 1*x at x = 2 is 3 xor 2
    let poly = vec![3u8, 1];
    assert_eq!(eval_poly(&poly, 2), 1);
    // value at zero is the constant term
    assert_eq!(eval_poly(&poly, 0), 3);
}

#[test]
fn eval_empty_polynomial_is_zero() {
    let poly: Vec<u8> = Vec::new();
    assert_eq!(eval_poly(&poly, 9), 0);
}
