use rlox::chunk::obj::Object;
use rlox::chunk::value::{double_equal, double_less, double_negate, is_nan, Value};
use std::rc::Rc;

fn num(x: f64) -> Value {
    Value::Double(x.to_bits())
}

fn samples() -> Vec<f64> {
    vec![
        0.0,
        -0.0,
        1.0,
        -1.0,
        0.5,
        -2.5,
        1e300,
        -1e300,
        f64::MIN_POSITIVE,
        -f64::MIN_POSITIVE,
        5e-324,
        f64::INFINITY,
        f64::NEG_INFINITY,
        f64::NAN,
        -f64::NAN,
        f64::MAX,
        f64::MIN,
    ]
}

#[test]
fn double_comparisons_agree_with_the_fpu() {
    for a in samples() {
        for b in samples() {
            assert_eq!(double_equal(a.to_bits(), b.to_bits()), a == b, "{} == {}", a, b);
            assert_eq!(double_less(a.to_bits(), b.to_bits()), a < b, "{} < {}", a, b);
        }
        assert_eq!(is_nan(a.to_bits()), a.is_nan());
    }
}

#[test]
fn negation_flips_the_sign() {
    for a in samples() {
        assert_eq!(double_negate(a.to_bits()), (-a).to_bits());
        assert_eq!(double_negate(double_negate(a.to_bits())), a.to_bits());
    }
}

#[test]
fn only_nil_false_and_zero_are_falsy() {
    assert!(!num(0.0).is_truthy());
    assert!(!num(-0.0).is_truthy());
    assert!(num(f64::NAN).is_truthy());
    assert!(num(0.1).is_truthy());
    assert!(!Value::Nil.is_truthy());
    assert!(!Value::Boolean(false).is_truthy());
    assert!(Value::Boolean(true).is_truthy());
    assert!(Value::Obj(Rc::new(Object::String(String::new()))).is_truthy());
}

#[test]
fn value_equality() {
    assert!(Value::Nil == Value::Nil);
    assert!(Value::Boolean(true) == Value::Boolean(true));
    assert!(Value::Boolean(true) != Value::Boolean(false));
    assert!(num(0.0) == num(-0.0));
    assert!(num(f64::NAN) != num(f64::NAN));
    assert!(num(0.0) != Value::Boolean(false));
    assert!(Value::Nil != Value::Boolean(false));
    let s = Rc::new(Object::String(String::from("a")));
    assert!(Value::Obj(s.clone()) != Value::Obj(s));
}

#[test]
fn value_ordering_is_numeric_only() {
    assert!(num(1.0).less_than(&num(2.0)));
    assert!(!num(2.0).less_than(&num(1.0)));
    assert!(num(2.0).greater_than(&num(1.0)));
    assert!(!num(f64::NAN).less_than(&num(1.0)));
    assert!(!num(f64::NAN).greater_than(&num(1.0)));
    assert!(!Value::Nil.less_than(&Value::Nil));
    assert!(!Value::Boolean(false).less_than(&Value::Boolean(true)));
    assert!(!num(-0.0).less_than(&num(0.0)));
}
