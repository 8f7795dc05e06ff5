use basefold::field::{FieldElement, FieldError};

fn fe(v: u128, m: u128) -> FieldElement {
    FieldElement::new(v, m).unwrap()
}

#[test]
fn new_keeps_value_below_modulus() {
    let e = fe(5, 17);
    assert_eq!(e.value(), 5);
    assert_eq!(e.modulus(), 17);
    assert!(e.value() < e.modulus());
}

#[test]
fn new_rejects_small_modulus() {
    assert!(matches!(FieldElement::new(0, 1), Err(FieldError::InvalidModulus)));
    assert!(matches!(FieldElement::new(0, 0), Err(FieldError::InvalidModulus)));
    assert!(matches!(FieldElement::zero(1), Err(FieldError::InvalidModulus)));
    assert!(matches!(FieldElement::one(0), Err(FieldError::InvalidModulus)));
}

#[test]
fn new_rejects_large_value() {
    assert!(matches!(FieldElement::new(5, 5), Err(FieldError::ValueExceedsModulus)));
    assert!(matches!(FieldElement::new(99, 17), Err(FieldError::ValueExceedsModulus)));
}

#[test]
fn zero_and_one() {
    assert_eq!(FieldElement::zero(17).unwrap(), fe(0, 17));
    assert_eq!(FieldElement::one(17).unwrap(), fe(1, 17));
}

#[test]
fn arithmetic_modulo_seventeen() {
    let a = fe(5, 17);
    let b = fe(15, 17);
    assert_eq!(a.add(b).value(), 3);
    assert_eq!(a.sub(b).value(), 7);
    assert_eq!(b.sub(a).value(), 10);
    assert_eq!(a.mul(b).value(), 7);
    assert_eq!(a.div(b).unwrap().value(), 6);
}

#[test]
fn add_then_sub_gives_back() {
    for a in 0..17u128 {
        for b in 0..17u128 {
            assert_eq!(fe(a, 17).add(fe(b, 17)).sub(fe(b, 17)), fe(a, 17));
        }
    }
}

#[test]
fn mul_then_div_gives_back() {
    for a in 0..17u128 {
        for b in 1..17u128 {
            assert_eq!(fe(a, 17).mul(fe(b, 17)).div(fe(b, 17)).unwrap(), fe(a, 17));
        }
    }
}

#[test]
fn inverse_of_five_mod_seventeen() {
    assert_eq!(fe(5, 17).inverse().unwrap().value(), 7);
}

#[test]
fn inverse_twice_and_product_with_inverse() {
    for a in 1..1009u128 {
        let x = fe(a, 1009);
        let inv = x.inverse().unwrap();
        assert_eq!(inv.inverse().unwrap(), x);
        assert_eq!(x.mul(inv), fe(1, 1009));
    }
}

#[test]
fn inverse_of_zero_fails() {
    assert!(matches!(fe(0, 17).inverse(), Err(FieldError::DivisionByZero)));
    assert!(matches!(fe(3, 17).div(fe(0, 17)), Err(FieldError::DivisionByZero)));
}

#[test]
fn inverse_under_a_wide_modulus() {
    let p: u128 = (1u128 << 127) - 1;
    let x = fe(p - 2, p);
    let inv = x.inverse().unwrap();
    assert_eq!(x.mul(inv).value(), 1);
    assert_eq!(inv.inverse().unwrap(), x);
}

#[test]
fn wide_products_do_not_wrap() {
    let m = u128::MAX;
    assert_eq!(fe(m - 1, m).mul(fe(m - 1, m)).value(), 1);
    assert_eq!(fe(m - 1, m).add(fe(m - 1, m)).value(), m - 2);
    let p: u128 = (1u128 << 127) - 1;
    assert_eq!(fe(1u128 << 126, p).mul(fe(4, p)).value(), 2);
}

#[test]
fn pow_values() {
    assert_eq!(fe(3, 17).pow(4).value(), 13);
    assert_eq!(fe(2, 17).pow(16).value(), 1);
    assert_eq!(fe(3, 17).pow(1), fe(3, 17));
}

#[test]
fn pow_zero_is_one() {
    for a in 0..17u128 {
        assert_eq!(fe(a, 17).pow(0), fe(1, 17));
    }
}

#[test]
fn sqrt_squares_back() {
    for p in [3u128, 7, 13, 17, 19, 23, 1009] {
        for a in 0..p {
            let x = fe(a, p);
            match x.sqrt() {
                Some(s) => assert_eq!(s.mul(s), x),
                None => assert_eq!(x.legendre_symbol(), -1),
            }
        }
    }
}

#[test]
fn sqrt_finds_every_square() {
    for p in [3u128, 7, 13, 17, 19, 23, 1009] {
        for a in 0..p {
            let sq = fe(a, p).mul(fe(a, p));
            assert!(sq.sqrt().is_some());
        }
    }
}

#[test]
fn sqrt_edge_cases() {
    assert_eq!(fe(0, 17).sqrt(), Some(fe(0, 17)));
    assert_eq!(fe(3, 17).sqrt(), None);
    let s = fe(10, 13).sqrt().unwrap();
    assert!(s.value() == 6 || s.value() == 7);
}

#[test]
fn legendre_symbol_values() {
    assert_eq!(fe(2, 17).legendre_symbol(), 1);
    assert_eq!(fe(3, 17).legendre_symbol(), -1);
    assert_eq!(fe(0, 17).legendre_symbol(), 0);
}

#[test]
fn field_error_converts() {
    let e: basefold::error::CryptoError = FieldError::DivisionByZero.into();
    assert!(matches!(
        e,
        basefold::error::CryptoError::FieldError(FieldError::DivisionByZero)
    ));
}

#[test]
fn error_messages() {
    assert_eq!(FieldError::DivisionByZero.message(), "Division by zero");
    assert_eq!(FieldError::InvalidModulus.message(), "Invalid modulus");
    assert_eq!(FieldError::ValueExceedsModulus.message(), "Value exceeds modulus");
    let wrapped: basefold::error::CryptoError = FieldError::InvalidModulus.into();
    assert_eq!(wrapped.message(), "Field arithmetic error: Invalid modulus");
    let e = basefold::error::CryptoError::InvalidParameters("Index out of bounds".to_string());
    assert_eq!(e.message(), "Invalid parameters: Index out of bounds");
    let e = basefold::error::CryptoError::ProofError("x".to_string());
    assert_eq!(e.message(), "Proof generation failed: x");
}

#[test]
fn sqrt_where_euler_decides() {
    for p in [7u128, 19, 23, 1019] {
        for a in 1..p {
            let x = fe(a, p);
            assert_eq!(x.sqrt().is_some(), x.legendre_symbol() == 1);
        }
    }
}

#[test]
fn sqrt_under_modulus_two() {
    assert_eq!(fe(1, 2).sqrt(), Some(fe(1, 2)));
    assert_eq!(fe(0, 2).sqrt(), Some(fe(0, 2)));
}

#[test]
fn legendre_symbol_of_zero_is_zero() {
    for m in [2u128, 3, 4, 17, 97] {
        assert_eq!(fe(0, m).legendre_symbol(), 0);
    }
    assert_eq!(fe(1, 2).legendre_symbol(), 1);
}

#[test]
fn sqrt_finds_a_root_whenever_euler_passes_and_one_exists() {
    for m in 2..80u128 {
        for a in 1..m {
            let x = fe(a, m);
            let euler = x.pow((m - 1) / 2).value();
            let exists = (0..m).any(|y| (y * y) % m == a);
            match x.sqrt() {
                Some(s) => {
                    assert_eq!(euler, 1);
                    assert_eq!(s.mul(s), x);
                }
                None => assert!(euler != 1 || !exists),
            }
        }
    }
}

#[test]
fn sqrt_of_two_modulo_seventeen() {
    let s = fe(2, 17).sqrt().unwrap();
    assert!(s.value() == 6 || s.value() == 11);
}

#[test]
fn prime_modulus_root_exactly_when_euler_passes() {
    for p in [2u128, 3, 5, 7, 11, 13, 17, 41, 73, 97, 193, 257] {
        for a in 0..p {
            let x = fe(a, p);
            let exists = (0..p).any(|y| (y * y) % p == a);
            assert_eq!(x.sqrt().is_some(), exists);
            let sign = if a == 0 {
                0
            } else if exists {
                1
            } else {
                -1
            };
            assert_eq!(x.legendre_symbol(), sign);
        }
    }
}
