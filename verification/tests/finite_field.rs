use ecc::errors::Errors;
use ecc::finite_field::FieldElement;

#[test]
fn create_field_element() {
    let num = 4;
    let prime = 7;
    // Create a field element
    let field_element = FieldElement::new(num, prime);

    assert_eq!(field_element.num, num);
    assert_eq!(field_element.prime, prime);
}

#[test]
fn two_field_elements_are_equal() {
    let num1 = 3;
    let num2 = 4;
    let prime1 = 7;
    let prime2 = 11;

    let field_element1 = FieldElement::new(num1, prime1);
    let field_element2 = FieldElement::new(num1, prime1);
    let field_element3 = FieldElement::new(num2, prime1);
    let field_element4 = FieldElement::new(num1, prime2);

    assert_eq!(field_element1.eq(Some(field_element2)), true);
    assert_eq!(field_element1.eq(Some(field_element3)), false);
    assert_eq!(field_element1.eq(Some(field_element4)), false);
    assert_eq!(field_element1.eq(None), false);
}

#[test]
fn add_field_elements() {
    let field_element1 = FieldElement::new(7, 13);
    let field_element2 = FieldElement::new(12, 13);
    let result = field_element1.add(field_element2).unwrap();

    assert_eq!(result.num, 6);
    assert_eq!(result.prime, 13);
}

#[test]
fn sub_field_elements() {
    let field_element1 = FieldElement::new(7, 13);
    let field_element2 = FieldElement::new(12, 13);
    let result = field_element1.sub(field_element2).unwrap();

    assert_eq!(result.num, 8);
    assert_eq!(result.prime, 13);
}

#[test]
fn mul_field_elements() {
    let field_element1 = FieldElement::new(3, 13);
    let field_element2 = FieldElement::new(12, 13);
    let result = field_element1.mul(field_element2).unwrap();

    assert_eq!(result.num, 10);
    assert_eq!(result.prime, 13);
}

#[test]
fn pow_field_elements() {
    let field_element1 = FieldElement::new(17, 31);
    let exp = 3;
    let result = field_element1.pow(exp);

    assert_eq!(result.num, 15);
    assert_eq!(result.prime, field_element1.prime);
}

#[test]
fn truediv_field_elements() {
    let field_element1 = FieldElement::new(3, 31);
    let field_element2 = FieldElement::new(24, 31);
    let result = field_element1.truediv(field_element2).unwrap();

    assert_eq!(result.num, 4);
    assert_eq!(result.prime, field_element1.prime);
}

#[test]
fn add_different_fields_is_incompatible() {
    let a = FieldElement::new(3, 7);
    let b = FieldElement::new(1, 11);
    assert_eq!(a.add(b), Err(Errors::IncompatibleField));
    assert_eq!(a.sub(b), Err(Errors::IncompatibleField));
    assert_eq!(a.mul(b), Err(Errors::IncompatibleField));
    assert_eq!(a.truediv(b), Err(Errors::IncompatibleField));
}

#[test]
fn truediv_by_zero_residue_fails() {
    let a = FieldElement::new(3, 31);
    assert_eq!(a.truediv(FieldElement::new(0, 31)), Err(Errors::DivisionByZero));
    // 31 is the zero residue of the field of order 31 as well
    assert_eq!(a.truediv(FieldElement::new(31, 31)), Err(Errors::DivisionByZero));
}

#[test]
fn negative_operands_reduce_into_range() {
    // Euclidean reduction: -5 + 0 = -5 = 8 (mod 13)
    let a = FieldElement::new(-5, 13);
    let zero = FieldElement::new(0, 13);
    assert_eq!(a.add(zero).unwrap().num, 8);
    // 2 - 12 = -10 = 3 (mod 13)
    let b = FieldElement::new(2, 13);
    let c = FieldElement::new(12, 13);
    assert_eq!(b.sub(c).unwrap().num, 3);
}

#[test]
fn pow_negative_exponent_is_inverse_power() {
    // -1 = 29 (mod 30), and 17^29 = 11 (mod 31): the inverse of 17
    let a = FieldElement::new(17, 31);
    let result = a.pow(-1);
    assert_eq!(result.num, 11);
    assert_eq!(a.mul(result).unwrap().num, 1);
}

#[test]
fn pow_to_order_of_group_is_one() {
    // a^(p-1) = 1 for nonzero a in a prime field
    assert_eq!(FieldElement::new(3, 31).pow(30).num, 1);
    assert_eq!(FieldElement::new(12, 13).pow(12).num, 1);
}

#[test]
fn add_commutes_and_zero_is_identity() {
    let a = FieldElement::new(9, 13);
    let b = FieldElement::new(11, 13);
    assert!(a.add(b).unwrap().eq(Some(b.add(a).unwrap())));
    let zero = FieldElement::new(0, 13);
    assert!(a.add(zero).unwrap().eq(Some(a)));
}

#[test]
fn mul_by_own_quotient_restores_element() {
    // a * (a / a) = a for nonzero a
    let a = FieldElement::new(3, 13);
    let q = a.truediv(a).unwrap();
    assert_eq!(q.num, 1);
    assert_eq!(a.mul(q).unwrap().num, 3);
}

#[test]
fn results_stay_in_range() {
    let a = FieldElement::new(12, 13);
    let b = FieldElement::new(12, 13);
    for r in [
        a.add(b).unwrap(),
        a.sub(b).unwrap(),
        a.mul(b).unwrap(),
        a.pow(5),
        a.truediv(b).unwrap(),
    ] {
        assert!(0 <= r.num && r.num < r.prime as i64);
    }
}
