//! The algebra of units, over its mathematical model: a unit is a map from the
//! names of base dimensions to their exponents, and a name that the map does
//! not hold has the exponent zero.

use vstd::prelude::*;

verus! {

/// A unit as a map from dimension names to exponents.
pub type Dimensions = Map<Seq<char>, int>;

/// The exponent of a dimension in a unit; zero for one that the unit lacks.
pub open spec fn exponent_of(u: Dimensions, name: Seq<char>) -> int {
    if u.contains_key(name) {
        u[name]
    } else {
        0
    }
}

/// Canonical form: no dimension is held with the exponent zero.
pub open spec fn is_canonical(u: Dimensions) -> bool {
    forall|name: Seq<char>| u.contains_key(name) ==> #[trigger] u[name] != 0
}

/// The dimensionless unit.
pub open spec fn dimensionless() -> Dimensions {
    Map::empty()
}

/// The unit of one base dimension to the first power.
pub open spec fn base(name: Seq<char>) -> Dimensions {
    Map::empty().insert(name, 1int)
}

/// Product of two units: exponents add, and what adds up to zero is left out.
pub open spec fn product(a: Dimensions, b: Dimensions) -> Dimensions {
    Map::new(
        |name: Seq<char>| exponent_of(a, name) + exponent_of(b, name) != 0,
        |name: Seq<char>| exponent_of(a, name) + exponent_of(b, name),
    )
}

/// Quotient of two units: the divisor's exponents are subtracted, and what
/// comes to zero is left out.
pub open spec fn quotient(a: Dimensions, b: Dimensions) -> Dimensions {
    Map::new(
        |name: Seq<char>| exponent_of(a, name) - exponent_of(b, name) != 0,
        |name: Seq<char>| exponent_of(a, name) - exponent_of(b, name),
    )
}

/// A unit raised to an integer power: every exponent is multiplied by it, and
/// what comes to zero is left out.
pub open spec fn power(a: Dimensions, n: int) -> Dimensions {
    Map::new(
        |name: Seq<char>| exponent_of(a, name) * n != 0,
        |name: Seq<char>| exponent_of(a, name) * n,
    )
}

/// Every exponent of the unit fits the machine's signed word.
pub open spec fn exponents_fit(u: Dimensions) -> bool {
    forall|name: Seq<char>| isize::MIN <= #[trigger] exponent_of(u, name) <= isize::MAX
}

/// Every exponent of the product fits the machine's signed word.
pub open spec fn product_fits(a: Dimensions, b: Dimensions) -> bool {
    forall|name: Seq<char>|
        isize::MIN <= #[trigger] exponent_of(a, name) + exponent_of(b, name) <= isize::MAX
}

/// Every exponent of the quotient fits the machine's signed word.
pub open spec fn quotient_fits(a: Dimensions, b: Dimensions) -> bool {
    forall|name: Seq<char>|
        isize::MIN <= #[trigger] exponent_of(a, name) - exponent_of(b, name) <= isize::MAX
}

/// Every exponent of the power fits the machine's signed word.
pub open spec fn power_fits(a: Dimensions, n: int) -> bool {
    forall|name: Seq<char>| isize::MIN <= #[trigger] exponent_of(a, name) * n <= isize::MAX
}

/// A unit of exactly one dimension, to the first power.
pub open spec fn is_base(u: Dimensions) -> bool {
    exists|name: Seq<char>| u == base(name)
}

/// Whatever the operands, a product, a quotient and a power are in canonical
/// form, and so are the dimensionless unit and every base unit: no sequence
/// of these operations ever yields an exponent of zero.
pub proof fn lemma_results_are_canonical(a: Dimensions, b: Dimensions, n: int, name: Seq<char>)
    ensures
        is_canonical(dimensionless()),
        is_canonical(base(name)),
        is_canonical(product(a, b)),
        is_canonical(quotient(a, b)),
        is_canonical(power(a, n)),
{
}

/// Dividing a product by one of its factors gives back the other, and the
/// division fits wherever the other did.
pub proof fn lemma_multiply_then_divide(a: Dimensions, b: Dimensions)
    requires
        is_canonical(a),
    ensures
        quotient(product(a, b), b) == a,
        exponents_fit(a) ==> quotient_fits(product(a, b), b),
{
    let r = quotient(product(a, b), b);
    if exponents_fit(a) {
        assert forall|name: Seq<char>|
            isize::MIN <= #[trigger] exponent_of(product(a, b), name) - exponent_of(b, name)
                <= isize::MAX by {
            assert(exponent_of(product(a, b), name) - exponent_of(b, name) == exponent_of(
                a,
                name,
            ));
        }
    }
    assert forall|name: Seq<char>| r.contains_key(name) <==> a.contains_key(name) by {
        if a.contains_key(name) {
            assert(a[name] != 0);
        }
    }
    assert(r =~= a);
}

/// The first power of a unit is the unit itself, and always fits.
pub proof fn lemma_power_one(a: Dimensions)
    requires
        is_canonical(a),
    ensures
        power(a, 1) == a,
        exponents_fit(a) ==> power_fits(a, 1),
{
    if exponents_fit(a) {
        assert forall|name: Seq<char>| isize::MIN <= #[trigger] exponent_of(a, name) * 1
            <= isize::MAX by {}
    }
    let r = power(a, 1);
    assert forall|name: Seq<char>| r.contains_key(name) <==> a.contains_key(name) by {
        if a.contains_key(name) {
            assert(a[name] != 0);
        }
    }
    assert(r =~= a);
}

/// The power zero of any unit, canonical or not, is the dimensionless unit,
/// and always fits.
pub proof fn lemma_power_zero(a: Dimensions)
    ensures
        power(a, 0) == dimensionless(),
        power_fits(a, 0),
{
    assert(power(a, 0) =~= dimensionless());
}

/// Inverting a unit twice gives it back, and the second inversion fits
/// wherever the unit did.
pub proof fn lemma_power_inverse_twice(a: Dimensions)
    requires
        is_canonical(a),
    ensures
        power(power(a, -1), -1) == a,
        exponents_fit(a) ==> power_fits(power(a, -1), -1),
{
    if exponents_fit(a) {
        assert forall|name: Seq<char>|
            isize::MIN <= #[trigger] exponent_of(power(a, -1), name) * -1 <= isize::MAX by {
            assert(exponent_of(power(a, -1), name) * -1 == exponent_of(a, name));
        }
    }
    let r = power(power(a, -1), -1);
    assert forall|name: Seq<char>| r.contains_key(name) <==> a.contains_key(name) by {
        if a.contains_key(name) {
            assert(a[name] != 0);
        }
    }
    assert(r =~= a);
}

/// The product does not depend on the order of its factors.
pub proof fn lemma_product_commutative(a: Dimensions, b: Dimensions)
    ensures
        product(a, b) == product(b, a),
{
    assert(product(a, b) =~= product(b, a));
}

/// The product does not depend on how its factors are grouped.
pub proof fn lemma_product_associative(a: Dimensions, b: Dimensions, c: Dimensions)
    ensures
        product(product(a, b), c) == product(a, product(b, c)),
{
    assert(product(product(a, b), c) =~= product(a, product(b, c)));
}

/// Dividing by a unit is multiplying by its inverse.
pub proof fn lemma_quotient_is_product_with_inverse(a: Dimensions, b: Dimensions)
    ensures
        quotient(a, b) == product(a, power(b, -1)),
{
    assert(quotient(a, b) =~= product(a, power(b, -1)));
}

/// A unit divided by itself is dimensionless.
pub proof fn lemma_quotient_by_itself(a: Dimensions)
    ensures
        quotient(a, a) == dimensionless(),
{
    assert(quotient(a, a) =~= dimensionless());
}

/// A base unit is the base unit of one name only.
pub proof fn lemma_base_name_unique(x: Seq<char>, y: Seq<char>)
    requires
        base(x) == base(y),
    ensures
        x == y,
{
    assert(base(x).contains_key(x));
}

} // verus!
