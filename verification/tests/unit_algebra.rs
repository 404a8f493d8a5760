use value_unit::unit::Unit;

fn named(name: &str) -> Unit {
    Unit::new_named(name.to_string())
}

/// m^2 s^-1
fn area_rate() -> Unit {
    named("m").pow(2).divide(&named("s"))
}

#[test]
fn dividing_a_unit_by_itself_cancels() {
    let result = named("m").divide(&named("m"));
    assert_eq!(result, Unit::new());
    assert_eq!(result.to_string(), "");
}

#[test]
fn multiplying_a_unit_by_itself_squares() {
    let m = named("m");
    let result = m.multiply(&named("m"));
    assert_eq!(result, m.pow(2));
    assert_ne!(result, m);
    assert_eq!(result.to_string(), "m^2");
}

#[test]
fn dividing_a_product_by_a_factor_gives_the_other() {
    let a = area_rate();
    let factors = [
        Unit::new(),
        named("m"),
        named("s"),
        named("kg").multiply(&named("s")),
        area_rate(),
        area_rate().pow(-1),
    ];
    for b in factors.iter() {
        assert_eq!(a.multiply(b).divide(b), a);
        assert_eq!(Unit::new().multiply(b).divide(b), Unit::new());
    }
}

#[test]
fn first_power_is_the_unit_itself() {
    assert_eq!(area_rate().pow(1), area_rate());
    assert_eq!(Unit::new().pow(1), Unit::new());
}

#[test]
fn power_zero_is_dimensionless() {
    assert_eq!(area_rate().pow(0), Unit::new());
    assert_eq!(named("m").pow(0), Unit::new());
    assert_eq!(Unit::new().pow(0), Unit::new());
    assert_eq!(area_rate().pow(0).to_string(), "");
}

#[test]
fn inverting_twice_gives_the_unit_back() {
    assert_eq!(area_rate().pow(-1).pow(-1), area_rate());
    assert_eq!(Unit::new().pow(-1).pow(-1), Unit::new());
    assert_eq!(area_rate().pow(-1).to_string(), "m^-2 s");
}

#[test]
fn negative_power_scales_and_inverts() {
    assert_eq!(area_rate().pow(-2).to_string(), "m^-4 s^2");
    assert_eq!(area_rate().pow(3).to_string(), "m^6 s^-3");
}

#[test]
fn singleton_names_a_lone_first_power() {
    let m = named("m");
    assert_eq!(m.singleton(), Some(&"m".to_string()));
    assert_eq!(Unit::new().singleton(), None);
    assert_eq!(m.pow(2).singleton(), None);
    assert_eq!(m.multiply(&named("s")).singleton(), None);
    assert_eq!(m.pow(-1).singleton(), None);
    assert_eq!(m.multiply(&named("s")).divide(&named("m")).singleton(), Some(&"s".to_string()));
}

#[test]
fn no_operation_leaves_a_zero_exponent() {
    let m = named("m");
    let s = named("s");
    let speed = m.divide(&s);
    assert_eq!(speed.multiply(&s).to_string(), "m");
    assert_eq!(speed.multiply(&s), m);
    assert_eq!(speed.divide(&m).to_string(), "s^-1");
    assert_eq!(speed.multiply(&speed.pow(-1)).to_string(), "");
    assert_eq!(speed.multiply(&speed.pow(-1)), Unit::new());
    assert_eq!(speed.pow(2).divide(&speed).divide(&speed), Unit::new());
    assert_eq!(speed.pow(0).multiply(&m).to_string(), "m");
}

#[test]
fn product_is_commutative_and_associative() {
    let a = area_rate();
    let b = named("kg").multiply(&named("s").pow(2));
    let c = named("m").pow(-2);
    assert_eq!(a.multiply(&b), b.multiply(&a));
    assert_eq!(a.multiply(&b).multiply(&c), a.multiply(&b.multiply(&c)));
    assert_eq!(a.multiply(&b).multiply(&c).to_string(), "kg s");
}

#[test]
fn dividing_is_multiplying_by_the_inverse() {
    let a = area_rate();
    let b = named("kg").multiply(&named("s").pow(2));
    assert_eq!(a.divide(&b), a.multiply(&b.pow(-1)));
    assert_eq!(a.divide(&b).to_string(), "kg^-1 m^2 s^-3");
}

#[test]
fn dimensions_are_shown_in_the_order_of_their_names() {
    let force = named("s").pow(-2).multiply(&named("m")).multiply(&named("kg"));
    assert_eq!(force.to_string(), "kg m s^-2");
    let same = named("kg").multiply(&named("m")).divide(&named("s")).divide(&named("s"));
    assert_eq!(force, same);
}

#[test]
fn names_are_ordered_by_code_point() {
    let mixed = named("m").multiply(&named("K")).multiply(&named("Ω")).multiply(&named("mol"));
    assert_eq!(mixed.to_string(), "K m mol Ω");
}

#[test]
fn units_of_different_names_or_exponents_differ() {
    assert_ne!(named("m"), named("s"));
    assert_ne!(named("m"), named("m").pow(2));
    assert_ne!(named("m"), named("m").multiply(&named("s")));
    assert_ne!(named("m"), Unit::new());
    assert_ne!(named("m"), named("mm"));
}

#[test]
fn a_copy_is_the_same_unit() {
    let a = area_rate();
    let copy = a.clone();
    assert_eq!(copy, a);
    assert_eq!(copy.to_string(), "m^2 s^-1");
}

#[test]
fn default_unit_is_dimensionless() {
    assert_eq!(Unit::default(), Unit::new());
    assert_eq!(Unit::default().to_string(), "");
}

#[test]
fn checked_operations_agree_with_the_plain_ones() {
    let a = area_rate();
    let b = named("s");
    assert_eq!(a.checked_multiply(&b), Some(a.multiply(&b)));
    assert_eq!(a.checked_divide(&b), Some(a.divide(&b)));
    assert_eq!(a.checked_pow(-3), Some(a.pow(-3)));
    assert_eq!(a.checked_pow(0), Some(Unit::new()));
}

#[test]
fn checked_multiply_refuses_an_exponent_out_of_range() {
    let top = named("m").pow(isize::MAX);
    assert_eq!(top.checked_multiply(&named("m")), None);
    assert_eq!(named("m").checked_multiply(&top), None);
    assert_eq!(top.checked_multiply(&named("s")).map(|u| u.to_string()),
        Some(format!("m^{} s", isize::MAX)));
    assert_eq!(top.checked_multiply(&named("m").pow(-1)), Some(named("m").pow(isize::MAX - 1)));
}

#[test]
fn checked_divide_refuses_an_exponent_out_of_range() {
    let bottom = named("m").pow(isize::MIN);
    assert_eq!(Unit::new().checked_divide(&bottom), None);
    assert_eq!(bottom.checked_divide(&named("m")), None);
    assert_eq!(named("s").checked_divide(&bottom), None);
    assert_eq!(bottom.checked_divide(&bottom), Some(Unit::new()));
    assert_eq!(named("m").pow(-1).checked_divide(&bottom), Some(named("m").pow(isize::MAX)));
}

#[test]
fn checked_pow_refuses_an_exponent_out_of_range() {
    let square = named("m").pow(2);
    assert_eq!(square.checked_pow(isize::MAX), None);
    assert_eq!(square.checked_pow(isize::MIN), None);
    assert_eq!(named("m").pow(-1).checked_pow(isize::MIN), None);
    assert_eq!(named("m").checked_pow(isize::MIN).map(|u| u.to_string()),
        Some(format!("m^{}", isize::MIN)));
    assert_eq!(Unit::new().checked_pow(isize::MIN), Some(Unit::new()));
    assert_eq!(square.checked_pow(0), Some(Unit::new()));
}
