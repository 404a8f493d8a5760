use value_unit::name::{compare_names, NameOrder};
use value_unit::text::{digit_str, int_to_string, nat_to_string};

#[test]
fn names_compare_by_their_first_difference() {
    assert_eq!(compare_names("a", "b"), NameOrder::Before);
    assert_eq!(compare_names("b", "a"), NameOrder::After);
    assert_eq!(compare_names("kg", "km"), NameOrder::Before);
    assert_eq!(compare_names("mol", "m"), NameOrder::After);
    assert_eq!(compare_names("m", "m"), NameOrder::Same);
    assert_eq!(compare_names("", ""), NameOrder::Same);
}

#[test]
fn a_proper_prefix_comes_first() {
    assert_eq!(compare_names("", "a"), NameOrder::Before);
    assert_eq!(compare_names("m", "mol"), NameOrder::Before);
    assert_eq!(compare_names("mol", "mo"), NameOrder::After);
}

#[test]
fn names_compare_by_code_point() {
    assert_eq!(compare_names("Z", "a"), NameOrder::Before);
    assert_eq!(compare_names("z", "é"), NameOrder::Before);
    assert_eq!(compare_names("Ω", "m"), NameOrder::After);
    assert_eq!(compare_names("µm", "µs"), NameOrder::Before);
    assert_eq!(compare_names("\u{ffff}", "\u{10000}"), NameOrder::Before);
}

#[test]
fn name_order_agrees_with_the_order_of_strings() {
    let names = ["", "a", "A", "ab", "b", "kg", "m", "mol", "s", "Ω", "µ", "é", "\u{10000}"];
    for a in names.iter() {
        for b in names.iter() {
            let expected = match a.cmp(b) {
                std::cmp::Ordering::Less => NameOrder::Before,
                std::cmp::Ordering::Equal => NameOrder::Same,
                std::cmp::Ordering::Greater => NameOrder::After,
            };
            assert_eq!(compare_names(a, b), expected);
        }
    }
}

#[test]
fn digits_are_written_one_by_one() {
    assert_eq!(digit_str(0), "0");
    assert_eq!(digit_str(5), "5");
    assert_eq!(digit_str(9), "9");
}

#[test]
fn naturals_are_written_in_decimal() {
    assert_eq!(nat_to_string(0), "0");
    assert_eq!(nat_to_string(7), "7");
    assert_eq!(nat_to_string(10), "10");
    assert_eq!(nat_to_string(1234567890), "1234567890");
    assert_eq!(nat_to_string(u128::MAX), "340282366920938463463374607431768211455");
}

#[test]
fn integers_are_written_in_decimal() {
    assert_eq!(int_to_string(0), "0");
    assert_eq!(int_to_string(6), "6");
    assert_eq!(int_to_string(-1), "-1");
    assert_eq!(int_to_string(-120), "-120");
    assert_eq!(int_to_string(i128::MAX), "170141183460469231731687303715884105727");
    assert_eq!(int_to_string(i128::MIN), "-170141183460469231731687303715884105728");
}
