use value_unit::decimal::Decimal;
use value_unit::unit::Unit;
use value_unit::value::{Value, ValueKind};

fn number(unscaled: &str, scale: i64) -> ValueKind {
    ValueKind::Number(Decimal::new(unscaled, scale).unwrap())
}

fn metres() -> Unit {
    Unit::new_named("m".to_string())
}

#[test]
fn kinds_are_equal_when_variant_and_content_are() {
    assert_eq!(ValueKind::Bool(true), ValueKind::Bool(true));
    assert_eq!(ValueKind::FunctionRef("f".to_string()), ValueKind::FunctionRef("f".to_string()));
    assert_eq!(number("15", 1), number("15", 1));
    assert_eq!(number("15", 1), number("150", 2));
}

#[test]
fn kinds_differ_in_variant_or_content() {
    assert_ne!(ValueKind::Bool(true), ValueKind::Bool(false));
    assert_ne!(ValueKind::FunctionRef("f".to_string()), ValueKind::FunctionRef("g".to_string()));
    assert_ne!(number("15", 1), number("16", 1));
    assert_ne!(number("1", 0), ValueKind::Bool(true));
    assert_ne!(ValueKind::FunctionRef("true".to_string()), ValueKind::Bool(true));
    assert_ne!(number("0", 0), ValueKind::FunctionRef("0".to_string()));
}

#[test]
fn values_are_equal_when_kind_and_unit_are() {
    let a = Value { kind: number("15", 1), unit: metres() };
    let b = Value { kind: number("1500", 3), unit: metres().pow(2).divide(&metres()) };
    assert_eq!(a, b);
    let other_unit = Value { kind: number("15", 1), unit: Unit::new() };
    assert_ne!(a, other_unit);
    let other_kind = Value { kind: number("25", 1), unit: metres() };
    assert_ne!(a, other_kind);
}

#[test]
fn a_copy_of_a_value_is_equal_to_it() {
    let a = Value { kind: number("-12345", 2), unit: metres().pow(-1) };
    let copy = a.clone();
    assert_eq!(copy, a);
    assert_eq!(copy.kind.to_string(), "-123.45");
    assert_eq!(copy.unit.to_string(), "m^-1");
    let f = ValueKind::FunctionRef("sqrt".to_string());
    assert_eq!(f.clone(), f);
    assert_eq!(ValueKind::Bool(false).clone(), ValueKind::Bool(false));
}

#[test]
fn a_value_shows_its_number_and_its_unit() {
    let speed = Value { kind: number("299792458", 0), unit: metres().divide(&Unit::new_named("s".to_string())) };
    assert_eq!(speed.kind.to_string(), "2.997x10^8");
    assert_eq!(speed.unit.to_string(), "m s^-1");
}
