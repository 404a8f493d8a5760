//! Physical units: products of named base dimensions with integer exponents.

use crate::algebra::{
    base, dimensionless, exponent_of, exponents_fit, is_base, is_canonical, power, power_fits,
    product, product_fits, quotient, quotient_fits, Dimensions,
};
use crate::listing::{
    entries_map, entries_text, entry_text, has_listing, has_name, is_nonzero, is_sorted,
    lemma_absent_name, lemma_entries_map_canonical, lemma_entries_map_keys,
    lemma_entries_map_values, lemma_listing_of_entries, lemma_listing_unique, unit_text, Entry,
};
use crate::name::{
    compare_names, lemma_name_lt_irreflexive, lemma_name_lt_transitive, name_lt, Name, NameOrder,
};
use crate::text::int_to_string;
use vstd::prelude::*;
use vstd::std_specs::cmp::PartialEqSpecImpl;
use vstd::string::*;

verus! {

/// A physical unit. It holds each of its dimensions once, in the order of
/// their names, and none with the exponent zero.
#[derive(Debug)]
pub struct Unit {
    parts: Vec<(Name, isize)>,
}

/// The entries that the stored pairs stand for.
pub open spec fn entries_of(parts: Seq<(Name, isize)>) -> Seq<Entry> {
    parts.map_values(|e: (Name, isize)| (e.0@, e.1 as int))
}

/// What holds of every unit that is ever built: it is in canonical form, its
/// exponents fit the machine's signed word, and it can be written down.
pub open spec fn is_unit(u: Dimensions) -> bool {
    &&& is_canonical(u)
    &&& exponents_fit(u)
    &&& has_listing(u)
}

/// Product or quotient, as `invert` says.
pub open spec fn combined(a: Dimensions, b: Dimensions, invert: bool) -> Dimensions {
    if invert {
        quotient(a, b)
    } else {
        product(a, b)
    }
}

/// Whether the product or the quotient fits, as `invert` says.
pub open spec fn combined_fits(a: Dimensions, b: Dimensions, invert: bool) -> bool {
    if invert {
        quotient_fits(a, b)
    } else {
        product_fits(a, b)
    }
}

/// The first `n` names of `s` all come before the names of `t` from `from` on.
spec fn all_before(s: Seq<Entry>, n: int, t: Seq<Entry>, from: int) -> bool {
    forall|k: int, m: int|
        #![trigger s[k], t[m]]
        0 <= k < n && from <= m < t.len() ==> name_lt(s[k].0, t[m].0)
}

impl View for Unit {
    type V = Dimensions;

    closed spec fn view(&self) -> Dimensions {
        entries_map(entries_of(self.parts@))
    }
}

/// One more entry at the end of a sequence is one more dimension in the unit.
proof fn lemma_take_next(s: Seq<Entry>, i: int)
    requires
        0 <= i < s.len(),
    ensures
        entries_map(s.take(i + 1)) == entries_map(s.take(i)).insert(s[i].0, s[i].1),
{
    assert(s.take(i + 1).drop_last() =~= s.take(i));
}

/// Pairs that are sorted by name and hold no zero stand for a unit.
proof fn lemma_parts_are_unit(parts: Seq<(Name, isize)>)
    requires
        is_sorted(entries_of(parts)),
        is_nonzero(entries_of(parts)),
    ensures
        is_unit(entries_map(entries_of(parts))),
{
    let s = entries_of(parts);
    lemma_entries_map_canonical(s);
    lemma_listing_of_entries(s);
    assert forall|name: Seq<char>|
        isize::MIN <= #[trigger] exponent_of(entries_map(s), name) <= isize::MAX by {
        lemma_entries_map_keys(s, name);
        if has_name(s, name) {
            let k = choose|k: int| 0 <= k < s.len() && (#[trigger] s[k]).0 == name;
            lemma_entries_map_values(s, k);
            assert(s[k].1 == parts[k].1);
        }
    }
}

impl Unit {
    #[verifier::type_invariant]
    spec fn well_formed(self) -> bool {
        is_sorted(entries_of(self.parts@)) && is_nonzero(entries_of(self.parts@))
    }

    /// The dimensionless unit.
    pub fn new() -> (unit: Unit)
        ensures
            unit@ == dimensionless(),
            is_unit(unit@),
    {
        let parts: Vec<(Name, isize)> = Vec::new();
        proof {
            lemma_parts_are_unit(parts@);
        }
        Unit { parts }
    }

    /// The unit of one base dimension, to the first power.
    pub fn new_named(name: Name) -> (unit: Unit)
        ensures
            unit@ == base(name@),
            is_unit(unit@),
    {
        let mut parts: Vec<(Name, isize)> = Vec::new();
        parts.push((name, 1));
        proof {
            let s = entries_of(parts@);
            reveal_with_fuel(entries_map, 2);
            assert(entries_map(s) =~= base(name@));
            lemma_parts_are_unit(parts@);
        }
        Unit { parts }
    }

    /// The name of the one dimension of a unit that is a base dimension to
    /// the first power; nothing for any other unit.
    pub fn singleton(&self) -> (name: Option<&Name>)
        ensures
            name is Some <==> is_base(self@),
            name is Some ==> self@ == base(name.unwrap()@),
            is_unit(self@),
    {
        proof {
            use_type_invariant(self);
            lemma_parts_are_unit(self.parts@);
        }
        let ghost s = entries_of(self.parts@);
        if self.parts.len() != 1 {
            proof {
                if is_base(self@) {
                    let n = choose|n: Seq<char>| self@ == base(n);
                    if s.len() == 0 {
                        assert(base(n).contains_key(n));
                    } else {
                        lemma_entries_map_values(s, 0);
                        lemma_entries_map_values(s, 1);
                        assert(name_lt(s[0].0, s[1].0));
                        lemma_name_lt_irreflexive(n);
                    }
                }
            }
            None
        } else {
            let entry = &self.parts[0];
            proof {
                reveal_with_fuel(entries_map, 2);
                assert(self@ =~= Map::empty().insert(s[0].0, s[0].1));
                if is_base(self@) {
                    let n = choose|n: Seq<char>| self@ == base(n);
                    assert(base(n).contains_key(n));
                    assert(self@[n] == 1);
                }
            }
            if entry.1 != 1 {
                None
            } else {
                assert(self@ =~= base(entry.0@));
                Some(&entry.0)
            }
        }
    }

    /// Merges the dimensions of two units, adding the exponents of the second
    /// to those of the first or, if `invert` is set, subtracting them.
    /// Returns nothing if an exponent leaves the range of `isize`.
    fn combine(&self, other: &Unit, invert: bool) -> (result: Option<Unit>)
        ensures
            result is Some <==> combined_fits(self@, other@, invert),
            result is Some ==> result.unwrap()@ == combined(self@, other@, invert),
            result is Some ==> is_unit(result.unwrap()@),
            is_unit(self@),
            is_unit(other@),
    {
        proof {
            use_type_invariant(self);
            use_type_invariant(other);
            lemma_parts_are_unit(self.parts@);
            lemma_parts_are_unit(other.parts@);
        }
        let ghost a = entries_of(self.parts@);
        let ghost b = entries_of(other.parts@);
        let mut parts: Vec<(Name, isize)> = Vec::new();
        let mut i: usize = 0;
        let mut j: usize = 0;
        assert(entries_map(a.take(0)) =~= dimensionless());
        assert(entries_map(b.take(0)) =~= dimensionless());
        assert(entries_map(entries_of(parts@)) =~= combined(
            dimensionless(),
            dimensionless(),
            invert,
        ));
        while i < self.parts.len() || j < other.parts.len()
            invariant
                i <= self.parts.len(),
                j <= other.parts.len(),
                a == entries_of(self.parts@),
                b == entries_of(other.parts@),
                self@ == entries_map(a),
                other@ == entries_map(b),
                is_unit(self@),
                is_unit(other@),
                is_sorted(a),
                is_sorted(b),
                is_nonzero(a),
                is_nonzero(b),
                is_sorted(entries_of(parts@)),
                is_nonzero(entries_of(parts@)),
                all_before(entries_of(parts@), parts.len() as int, a, i as int),
                all_before(entries_of(parts@), parts.len() as int, b, j as int),
                all_before(a, i as int, b, j as int),
                all_before(b, j as int, a, i as int),
                entries_map(entries_of(parts@)) == combined(
                    entries_map(a.take(i as int)),
                    entries_map(b.take(j as int)),
                    invert,
                ),
                combined_fits(entries_map(a.take(i as int)), entries_map(b.take(j as int)), invert),
            decreases (self.parts.len() - i) + (other.parts.len() - j),
        {
            let ghost o = entries_of(parts@);
            let ghost i0 = i as int;
            let ghost j0 = j as int;
            let ghost ma = entries_map(a.take(i0));
            let ghost mb = entries_map(b.take(j0));
            let order = if i == self.parts.len() {
                NameOrder::After
            } else if j == other.parts.len() {
                NameOrder::Before
            } else {
                compare_names(self.parts[i].0.as_str(), other.parts[j].0.as_str())
            };
            // The next name is the smaller of the two at hand; each unit
            // gives its exponent for it, which is zero if it lacks the name.
            let from_self = !matches!(order, NameOrder::After);
            let from_other = !matches!(order, NameOrder::Before);
            let left: isize = if from_self {
                self.parts[i].1
            } else {
                0
            };
            let right: isize = if from_other {
                other.parts[j].1
            } else {
                0
            };
            let ghost x: Seq<char> = if from_self {
                a[i0].0
            } else {
                b[j0].0
            };
            let ghost i1 = if from_self {
                i0 + 1
            } else {
                i0
            };
            let ghost j1 = if from_other {
                j0 + 1
            } else {
                j0
            };
            proof {
                if from_self {
                    assert(a[i0] == (self.parts@[i0].0@, self.parts@[i0].1 as int));
                }
                if from_other {
                    assert(b[j0] == (other.parts@[j0].0@, other.parts@[j0].1 as int));
                }
                lemma_next_name(a, b, o, i0, j0, i1, j1, x);
                lemma_next_exponent(a, i0, i1, x, left as int);
                lemma_next_exponent(b, j0, j1, x, right as int);
            }
            let total = if invert {
                left.checked_sub(right)
            } else {
                left.checked_add(right)
            };
            match total {
                None => {
                    return None;
                },
                Some(exponent) => {
                    proof {
                        lemma_combined_step(
                            ma,
                            mb,
                            entries_map(a.take(i1)),
                            entries_map(b.take(j1)),
                            x,
                            left as int,
                            right as int,
                            invert,
                        );
                    }
                    if exponent != 0 {
                        let name = if from_self {
                            self.parts[i].0.clone()
                        } else {
                            other.parts[j].0.clone()
                        };
                        parts.push((name, exponent));
                        proof {
                            assert(entries_of(parts@) =~= o.push((x, exponent as int)));
                            lemma_push_entry(o, (x, exponent as int), a, i1, b, j1);
                        }
                    }
                },
            }
            if from_self {
                i += 1;
            }
            if from_other {
                j += 1;
            }
        }
        proof {
            assert(a.take(i as int) =~= a);
            assert(b.take(j as int) =~= b);
            lemma_parts_are_unit(parts@);
        }
        Some(Unit { parts })
    }

    /// The product of two units, if each of its exponents fits an `isize`.
    pub fn checked_multiply(&self, other: &Unit) -> (result: Option<Unit>)
        ensures
            result is Some <==> product_fits(self@, other@),
            result is Some ==> result.unwrap()@ == product(self@, other@),
            result is Some ==> is_unit(result.unwrap()@),
            is_unit(self@),
            is_unit(other@),
    {
        self.combine(other, false)
    }

    /// The quotient of two units, if each of its exponents fits an `isize`.
    pub fn checked_divide(&self, other: &Unit) -> (result: Option<Unit>)
        ensures
            result is Some <==> quotient_fits(self@, other@),
            result is Some ==> result.unwrap()@ == quotient(self@, other@),
            result is Some ==> is_unit(result.unwrap()@),
            is_unit(self@),
            is_unit(other@),
    {
        self.combine(other, true)
    }

    /// The product of two units: for every dimension of either the sum of
    /// its exponents, unless that is zero.
    pub fn multiply(&self, other: &Unit) -> (result: Unit)
        requires
            product_fits(self@, other@),
        ensures
            result@ == product(self@, other@),
            is_unit(result@),
            is_unit(self@),
            is_unit(other@),
    {
        self.combine(other, false).unwrap()
    }

    /// The quotient of two units: for every dimension of either the
    /// difference of its exponents, unless that is zero.
    pub fn divide(&self, other: &Unit) -> (result: Unit)
        requires
            quotient_fits(self@, other@),
        ensures
            result@ == quotient(self@, other@),
            is_unit(result@),
            is_unit(self@),
            is_unit(other@),
    {
        self.combine(other, true).unwrap()
    }

    /// The unit raised to the power `n`, if each of its exponents fits an
    /// `isize`.
    pub fn checked_pow(&self, n: isize) -> (result: Option<Unit>)
        ensures
            result is Some <==> power_fits(self@, n as int),
            result is Some ==> result.unwrap()@ == power(self@, n as int),
            result is Some ==> is_unit(result.unwrap()@),
            is_unit(self@),
    {
        proof {
            use_type_invariant(self);
            lemma_parts_are_unit(self.parts@);
        }
        let ghost a = entries_of(self.parts@);
        if n == 0 {
            assert(power(self@, 0) =~= dimensionless());
            return Some(Unit::new());
        }
        let mut parts: Vec<(Name, isize)> = Vec::new();
        let mut i: usize = 0;
        while i < self.parts.len()
            invariant
                i <= self.parts.len(),
                n != 0,
                a == entries_of(self.parts@),
                self@ == entries_map(a),
                is_unit(self@),
                is_sorted(a),
                is_nonzero(a),
                parts.len() == i,
                forall|k: int|
                    0 <= k < i ==> (#[trigger] entries_of(parts@)[k]) == (a[k].0, a[k].1 * n),
            decreases self.parts.len() - i,
        {
            let entry = &self.parts[i];
            let ghost o = entries_of(parts@);
            assert(a[i as int] == (entry.0@, entry.1 as int));
            match entry.1.checked_mul(n) {
                None => {
                    proof {
                        lemma_entries_map_values(a, i as int);
                    }
                    return None;
                },
                Some(exponent) => {
                    parts.push((entry.0.clone(), exponent));
                    assert(entries_of(parts@) =~= o.push((a[i as int].0, a[i as int].1 * n)));
                },
            }
            i += 1;
        }
        proof {
            lemma_scaled_entries(a, entries_of(parts@), n as int);
            lemma_parts_are_unit(parts@);
            assert forall|k: int| 0 <= k < a.len() implies isize::MIN <= #[trigger] a[k].1 * n
                <= isize::MAX by {
                assert(entries_of(parts@)[k].1 == parts@[k].1);
            }
            lemma_scaled_entries_fit(a, n as int);
        }
        Some(Unit { parts })
    }

    /// The unit raised to the power `n`: every exponent is multiplied by
    /// `n`, so that the power zero of any unit is dimensionless and a
    /// negative power inverts.
    pub fn pow(&self, n: isize) -> (result: Unit)
        requires
            power_fits(self@, n as int),
        ensures
            result@ == power(self@, n as int),
            is_unit(result@),
            is_unit(self@),
    {
        self.checked_pow(n).unwrap()
    }

    /// The text of the unit: its dimensions in the order of their names,
    /// one space between them, each with its exponent behind a `^` unless
    /// that is one.
    pub fn to_string(&self) -> (text: String)
        ensures
            text@ == unit_text(self@),
            is_unit(self@),
    {
        proof {
            use_type_invariant(self);
            lemma_parts_are_unit(self.parts@);
        }
        let ghost a = entries_of(self.parts@);
        let mut text = String::new();
        let mut i: usize = 0;
        assert(a.take(0) =~= Seq::<Entry>::empty());
        while i < self.parts.len()
            invariant
                i <= self.parts.len(),
                a == entries_of(self.parts@),
                text@ == entries_text(a.take(i as int)),
            decreases self.parts.len() - i,
        {
            let ghost before = text@;
            let ghost s = a.take(i + 1);
            if i > 0 {
                proof {
                    reveal_strlit(" ");
                }
                text.append(" ");
                assert(text@ =~= before + seq![' ']);
            }
            let entry = &self.parts[i];
            assert(a[i as int] == (entry.0@, entry.1 as int));
            let ghost spaced = text@;
            text.append(entry.0.as_str());
            if entry.1 != 1 {
                proof {
                    reveal_strlit("^");
                }
                text.append("^");
                let exponent = int_to_string(entry.1 as i128);
                text.append(exponent.as_str());
            }
            proof {
                assert(text@ =~= spaced + entry_text(a[i as int]));
                assert(s.drop_last() =~= a.take(i as int));
                assert(s.last() == a[i as int]);
                if i == 0 {
                    assert(s.len() == 1);
                    assert(text@ =~= entry_text(s[0]));
                }
            }
            i += 1;
        }
        proof {
            assert(a.take(i as int) =~= a);
            lemma_listing_of_entries(a);
        }
        text
    }
}

impl Clone for Unit {
    fn clone(&self) -> (copy: Unit)
        ensures
            copy@ == self@,
            is_unit(copy@),
    {
        proof {
            use_type_invariant(self);
            lemma_parts_are_unit(self.parts@);
        }
        let ghost a = entries_of(self.parts@);
        let mut parts: Vec<(Name, isize)> = Vec::new();
        let mut i: usize = 0;
        while i < self.parts.len()
            invariant
                i <= self.parts.len(),
                a == entries_of(self.parts@),
                entries_of(parts@) =~= a.take(i as int),
            decreases self.parts.len() - i,
        {
            let entry = &self.parts[i];
            let ghost o = entries_of(parts@);
            assert(a[i as int] == (entry.0@, entry.1 as int));
            parts.push((entry.0.clone(), entry.1));
            assert(entries_of(parts@) =~= o.push(a[i as int]));
            i += 1;
        }
        assert(a.take(i as int) =~= a);
        Unit { parts }
    }
}

impl Default for Unit {
    fn default() -> (unit: Unit)
        ensures
            unit@ == dimensionless(),
            is_unit(unit@),
    {
        Unit::new()
    }
}

impl PartialEq for Unit {
    fn eq(&self, other: &Unit) -> (equal: bool) {
        proof {
            use_type_invariant(self);
            use_type_invariant(other);
        }
        let ghost a = entries_of(self.parts@);
        let ghost b = entries_of(other.parts@);
        proof {
            if self@ == other@ {
                lemma_listing_unique(a, b);
            }
        }
        if self.parts.len() != other.parts.len() {
            return false;
        }
        let mut i: usize = 0;
        while i < self.parts.len()
            invariant
                i <= self.parts.len(),
                self.parts.len() == other.parts.len(),
                a == entries_of(self.parts@),
                b == entries_of(other.parts@),
                self@ == other@ ==> a == b,
                forall|k: int| 0 <= k < i ==> a[k] == b[k],
            decreases self.parts.len() - i,
        {
            let mine = &self.parts[i];
            let theirs = &other.parts[i];
            assert(a[i as int] == (mine.0@, mine.1 as int));
            assert(b[i as int] == (theirs.0@, theirs.1 as int));
            if mine.1 != theirs.1 || mine.0 != theirs.0 {
                return false;
            }
            i += 1;
        }
        assert(a =~= b);
        true
    }
}

impl PartialEqSpecImpl for Unit {
    open spec fn obeys_eq_spec() -> bool {
        true
    }

    open spec fn eq_spec(&self, other: &Unit) -> bool {
        self@ == other@
    }
}

impl Eq for Unit {

}

/// Entries with the same names as those of a sorted sequence and `n` times
/// their exponents, for an `n` other than zero, write down the power `n` of
/// its unit.
proof fn lemma_scaled_entries(a: Seq<Entry>, o: Seq<Entry>, n: int)
    requires
        is_sorted(a),
        is_nonzero(a),
        n != 0,
        o.len() == a.len(),
        forall|k: int| 0 <= k < a.len() ==> (#[trigger] o[k]) == (a[k].0, a[k].1 * n),
    ensures
        is_sorted(o),
        is_nonzero(o),
        entries_map(o) == power(entries_map(a), n),
{
    assert forall|p: int, q: int| 0 <= p < q < o.len() implies name_lt(
        (#[trigger] o[p]).0,
        (#[trigger] o[q]).0,
    ) by {
        assert(name_lt(a[p].0, a[q].0));
    }
    assert forall|k: int| 0 <= k < o.len() implies (#[trigger] o[k]).1 != 0 by {
        let e = a[k].1;
        assert(e != 0);
        assert(e * n != 0) by (nonlinear_arith)
            requires
                e != 0,
                n != 0,
        ;
    }
    let ma = entries_map(a);
    let mo = entries_map(o);
    assert forall|name: Seq<char>|
        #![trigger mo.dom().contains(name)]
        #![trigger mo[name]]
        mo.dom().contains(name) == power(ma, n).dom().contains(name) && (mo.dom().contains(name)
            ==> mo[name] == power(ma, n)[name]) by {
        lemma_entries_map_keys(a, name);
        lemma_entries_map_keys(o, name);
        if has_name(a, name) {
            let k = choose|k: int| 0 <= k < a.len() && (#[trigger] a[k]).0 == name;
            lemma_entries_map_values(a, k);
            lemma_entries_map_values(o, k);
            assert(o[k].0 == name);
            assert(mo[name] == a[k].1 * n);
            assert(exponent_of(ma, name) == a[k].1);
        } else if has_name(o, name) {
            let k = choose|k: int| 0 <= k < o.len() && (#[trigger] o[k]).0 == name;
            assert(a[k].0 == name);
        } else {
            assert(exponent_of(ma, name) * n == 0);
        }
    }
    assert(mo =~= power(ma, n));
}

/// Where `n` times each exponent of a sorted sequence fits an `isize`, the
/// power `n` of its unit fits.
proof fn lemma_scaled_entries_fit(a: Seq<Entry>, n: int)
    requires
        is_sorted(a),
        forall|k: int| 0 <= k < a.len() ==> isize::MIN <= #[trigger] a[k].1 * n <= isize::MAX,
    ensures
        power_fits(entries_map(a), n),
{
    let ma = entries_map(a);
    assert forall|name: Seq<char>| isize::MIN <= #[trigger] exponent_of(ma, name) * n
        <= isize::MAX by {
        lemma_entries_map_keys(a, name);
        if has_name(a, name) {
            let k = choose|k: int| 0 <= k < a.len() && (#[trigger] a[k]).0 == name;
            lemma_entries_map_values(a, k);
        }
    }
}

/// What holds of the name that a merge of two sorted sequences takes next:
/// `x` is the name at `i` in `a` or at `j` in `b`, whichever comes first,
/// and `i1` and `j1` are the places behind it.
proof fn lemma_next_name(
    a: Seq<Entry>,
    b: Seq<Entry>,
    o: Seq<Entry>,
    i: int,
    j: int,
    i1: int,
    j1: int,
    x: Seq<char>,
)
    requires
        0 <= i <= a.len(),
        0 <= j <= b.len(),
        is_sorted(a),
        is_sorted(b),
        all_before(o, o.len() as int, a, i),
        all_before(o, o.len() as int, b, j),
        all_before(a, i, b, j),
        all_before(b, j, a, i),
        i1 == i || i1 == i + 1,
        j1 == j || j1 == j + 1,
        i1 > i || j1 > j,
        i1 > i ==> i < a.len() && a[i].0 == x,
        j1 > j ==> j < b.len() && b[j].0 == x,
        i1 == i && i < a.len() ==> name_lt(x, a[i].0),
        j1 == j && j < b.len() ==> name_lt(x, b[j].0),
    ensures
        forall|k: int| 0 <= k < i ==> name_lt((#[trigger] a[k]).0, x),
        forall|k: int| 0 <= k < j ==> name_lt((#[trigger] b[k]).0, x),
        forall|k: int| i1 <= k < a.len() ==> name_lt(x, (#[trigger] a[k]).0),
        forall|k: int| j1 <= k < b.len() ==> name_lt(x, (#[trigger] b[k]).0),
        forall|k: int| 0 <= k < o.len() ==> name_lt((#[trigger] o[k]).0, x),
        all_before(o, o.len() as int, a, i1),
        all_before(o, o.len() as int, b, j1),
        all_before(a, i1, b, j1),
        all_before(b, j1, a, i1),
{
    assert forall|k: int| i1 <= k < a.len() implies name_lt(x, (#[trigger] a[k]).0) by {
        if i1 > i {
            assert(name_lt(a[i].0, a[k].0));
        } else if k > i {
            assert(name_lt(a[i].0, a[k].0));
            lemma_name_lt_transitive(x, a[i].0, a[k].0);
        }
    }
    assert forall|k: int| j1 <= k < b.len() implies name_lt(x, (#[trigger] b[k]).0) by {
        if j1 > j {
            assert(name_lt(b[j].0, b[k].0));
        } else if k > j {
            assert(name_lt(b[j].0, b[k].0));
            lemma_name_lt_transitive(x, b[j].0, b[k].0);
        }
    }
    assert forall|k: int| 0 <= k < i implies name_lt((#[trigger] a[k]).0, x) by {
        if i1 > i {
            assert(name_lt(a[k].0, a[i].0));
        } else {
            assert(name_lt(a[k].0, b[j].0));
        }
    }
    assert forall|k: int| 0 <= k < j implies name_lt((#[trigger] b[k]).0, x) by {
        if j1 > j {
            assert(name_lt(b[k].0, b[j].0));
        } else {
            assert(name_lt(b[k].0, a[i].0));
        }
    }
    assert forall|k: int| 0 <= k < o.len() implies name_lt((#[trigger] o[k]).0, x) by {
        if i1 > i {
            assert(name_lt(o[k].0, a[i].0));
        } else {
            assert(name_lt(o[k].0, b[j].0));
        }
    }
    assert(all_before(a, i1, b, j1)) by {
        assert forall|k: int, m: int|
            #![trigger a[k], b[m]]
            0 <= k < i1 && j1 <= m < b.len() implies name_lt(a[k].0, b[m].0) by {
            if k < i {
                assert(name_lt(a[k].0, b[m].0));
            }
        }
    }
    assert(all_before(b, j1, a, i1)) by {
        assert forall|k: int, m: int|
            #![trigger b[k], a[m]]
            0 <= k < j1 && i1 <= m < a.len() implies name_lt(b[k].0, a[m].0) by {
            if k < j {
                assert(name_lt(b[k].0, a[m].0));
            }
        }
    }
}

/// The exponent that a sorted sequence gives for the name a merge takes
/// next: that of its entry at `i` if the name is taken from there
/// (`i1 == i + 1`), zero if the sequence lacks the name (`i1 == i`).
proof fn lemma_next_exponent(s: Seq<Entry>, i: int, i1: int, x: Seq<char>, e: int)
    requires
        0 <= i <= s.len(),
        is_sorted(s),
        is_nonzero(s),
        forall|k: int| 0 <= k < i ==> name_lt((#[trigger] s[k]).0, x),
        forall|k: int| i1 <= k < s.len() ==> name_lt(x, (#[trigger] s[k]).0),
        i1 == i + 1 ==> i < s.len() && s[i] == (x, e),
        i1 == i ==> e == 0,
        i1 == i || i1 == i + 1,
    ensures
        exponent_of(entries_map(s), x) == e,
        !entries_map(s.take(i)).contains_key(x),
        entries_map(s.take(i1)) == if e != 0 {
            entries_map(s.take(i)).insert(x, e)
        } else {
            entries_map(s.take(i))
        },
{
    lemma_name_lt_irreflexive(x);
    lemma_absent_name(s.take(i), x);
    if i1 == i {
        lemma_absent_name(s, x);
    } else {
        lemma_entries_map_values(s, i);
        lemma_take_next(s, i);
        assert(s[i].1 != 0);
    }
}

/// Taking one more name into two units changes their product, or their
/// quotient, in that name alone.
proof fn lemma_combined_step(
    ma: Dimensions,
    mb: Dimensions,
    ma1: Dimensions,
    mb1: Dimensions,
    x: Seq<char>,
    left: int,
    right: int,
    invert: bool,
)
    requires
        !ma.contains_key(x),
        !mb.contains_key(x),
        ma1 == if left != 0 {
            ma.insert(x, left)
        } else {
            ma
        },
        mb1 == if right != 0 {
            mb.insert(x, right)
        } else {
            mb
        },
    ensures
        ({
            let total = if invert {
                left - right
            } else {
                left + right
            };
            &&& combined(ma1, mb1, invert) == if total != 0 {
                combined(ma, mb, invert).insert(x, total)
            } else {
                combined(ma, mb, invert)
            }
            &&& combined_fits(ma, mb, invert) && isize::MIN <= total <= isize::MAX
                ==> combined_fits(ma1, mb1, invert)
        }),
{
    let total = if invert {
        left - right
    } else {
        left + right
    };
    let expected = if total != 0 {
        combined(ma, mb, invert).insert(x, total)
    } else {
        combined(ma, mb, invert)
    };
    assert forall|name: Seq<char>|
        exponent_of(ma1, name) == (if name == x {
            left
        } else {
            exponent_of(ma, name)
        }) && exponent_of(mb1, name) == (if name == x {
            right
        } else {
            exponent_of(mb, name)
        }) by {}
    assert(combined(ma1, mb1, invert) =~= expected);
    if combined_fits(ma, mb, invert) && isize::MIN <= total <= isize::MAX {
        if invert {
            assert forall|name: Seq<char>|
                isize::MIN <= #[trigger] exponent_of(ma1, name) - exponent_of(mb1, name)
                    <= isize::MAX by {
                if name != x {
                    assert(isize::MIN <= exponent_of(ma, name) - exponent_of(mb, name)
                        <= isize::MAX);
                }
            }
        } else {
            assert forall|name: Seq<char>|
                isize::MIN <= #[trigger] exponent_of(ma1, name) + exponent_of(mb1, name)
                    <= isize::MAX by {
                if name != x {
                    assert(isize::MIN <= exponent_of(ma, name) + exponent_of(mb, name)
                        <= isize::MAX);
                }
            }
        }
    }
}

/// An entry whose name comes behind all names of a sorted sequence, and
/// before what is left of two others, can be put at its end.
proof fn lemma_push_entry(
    o: Seq<Entry>,
    e: Entry,
    a: Seq<Entry>,
    i: int,
    b: Seq<Entry>,
    j: int,
)
    requires
        is_sorted(o),
        is_nonzero(o),
        e.1 != 0,
        forall|k: int| 0 <= k < o.len() ==> name_lt((#[trigger] o[k]).0, e.0),
        forall|k: int| i <= k < a.len() ==> name_lt(e.0, (#[trigger] a[k]).0),
        forall|k: int| j <= k < b.len() ==> name_lt(e.0, (#[trigger] b[k]).0),
        all_before(o, o.len() as int, a, i),
        all_before(o, o.len() as int, b, j),
    ensures
        is_sorted(o.push(e)),
        is_nonzero(o.push(e)),
        entries_map(o.push(e)) == entries_map(o).insert(e.0, e.1),
        all_before(o.push(e), o.len() as int + 1, a, i),
        all_before(o.push(e), o.len() as int + 1, b, j),
{
    let o2 = o.push(e);
    assert(o2.drop_last() =~= o);
    assert forall|p: int, q: int| 0 <= p < q < o2.len() implies name_lt(
        (#[trigger] o2[p]).0,
        (#[trigger] o2[q]).0,
    ) by {
        assert(o2[p] == o[p]);
        if q < o.len() {
            assert(o2[q] == o[q]);
        }
    }
    assert forall|p: int| 0 <= p < o2.len() implies (#[trigger] o2[p]).1 != 0 by {
        if p < o.len() {
            assert(o2[p] == o[p]);
        }
    }
    assert forall|k: int, m: int|
        #![trigger o2[k], a[m]]
        0 <= k < o2.len() && i <= m < a.len() implies name_lt(o2[k].0, a[m].0) by {
        if k < o.len() {
            assert(o2[k] == o[k]);
            assert(name_lt(o[k].0, a[m].0));
        }
    }
    assert forall|k: int, m: int|
        #![trigger o2[k], b[m]]
        0 <= k < o2.len() && j <= m < b.len() implies name_lt(o2[k].0, b[m].0) by {
        if k < o.len() {
            assert(o2[k] == o[k]);
            assert(name_lt(o[k].0, b[m].0));
        }
    }
}

} // verus!
