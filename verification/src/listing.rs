//! Units written down: the dimensions of a unit listed in the order of their
//! names. Every unit has exactly one such listing, so that two units are the
//! same unit exactly when their listings are equal, and the text of a unit is
//! the text of its listing.

use crate::algebra::{exponent_of, is_canonical, Dimensions};
use crate::name::{lemma_name_lt_irreflexive, lemma_name_lt_transitive, name_lt};
use crate::text::int_text;
use vstd::prelude::*;

verus! {

/// A dimension with its exponent.
pub type Entry = (Seq<char>, int);

/// The names grow strictly along the sequence.
pub open spec fn is_sorted(s: Seq<Entry>) -> bool {
    forall|i: int, j: int|
        #![trigger s[i], s[j]]
        0 <= i < j < s.len() ==> name_lt(s[i].0, s[j].0)
}

/// No entry has the exponent zero.
pub open spec fn is_nonzero(s: Seq<Entry>) -> bool {
    forall|i: int| 0 <= i < s.len() ==> (#[trigger] s[i]).1 != 0
}

/// Some entry of the sequence has this name.
pub open spec fn has_name(s: Seq<Entry>, name: Seq<char>) -> bool {
    exists|i: int| 0 <= i < s.len() && (#[trigger] s[i]).0 == name
}

/// The unit that a sequence of entries writes down.
pub open spec fn entries_map(s: Seq<Entry>) -> Dimensions
    decreases s.len(),
{
    if s.len() == 0 {
        Map::empty()
    } else {
        entries_map(s.drop_last()).insert(s.last().0, s.last().1)
    }
}

/// `s` lists the dimensions of `u`, each once, in the order of their names.
pub open spec fn is_listing(s: Seq<Entry>, u: Dimensions) -> bool {
    is_sorted(s) && entries_map(s) == u
}

/// The unit can be written down.
pub open spec fn has_listing(u: Dimensions) -> bool {
    exists|s: Seq<Entry>| is_listing(s, u)
}

/// The listing of a unit that has one; it has no other (see
/// [`lemma_listing_unique`]).
pub open spec fn listing(u: Dimensions) -> Seq<Entry> {
    choose|s: Seq<Entry>| is_listing(s, u)
}

/// Text of one dimension: its name, and behind a `^` its exponent unless
/// that is one.
pub open spec fn entry_text(e: Entry) -> Seq<char> {
    if e.1 == 1 {
        e.0
    } else {
        e.0 + seq!['^'] + int_text(e.1)
    }
}

/// Text of a listing: the texts of its entries with one space between them.
pub open spec fn entries_text(s: Seq<Entry>) -> Seq<char>
    decreases s.len(),
{
    if s.len() == 0 {
        Seq::empty()
    } else if s.len() == 1 {
        entry_text(s[0])
    } else {
        entries_text(s.drop_last()) + seq![' '] + entry_text(s.last())
    }
}

/// Text of a unit: that of its listing. The dimensionless unit has the empty
/// text.
pub open spec fn unit_text(u: Dimensions) -> Seq<char> {
    entries_text(listing(u))
}

/// The names that a sequence of entries writes down are the names of its
/// entries.
pub proof fn lemma_entries_map_keys(s: Seq<Entry>, name: Seq<char>)
    ensures
        entries_map(s).contains_key(name) <==> has_name(s, name),
    decreases s.len(),
{
    if s.len() > 0 {
        let t = s.drop_last();
        lemma_entries_map_keys(t, name);
        if has_name(t, name) {
            let i = choose|i: int| 0 <= i < t.len() && (#[trigger] t[i]).0 == name;
            assert(s[i].0 == name);
        }
        if has_name(s, name) {
            let i = choose|i: int| 0 <= i < s.len() && (#[trigger] s[i]).0 == name;
            if i < t.len() {
                assert(t[i].0 == name);
            }
        }
        if s.last().0 == name {
            assert(s[s.len() - 1].0 == name);
        }
    }
}

/// A name that no entry has is not among the dimensions, and has the
/// exponent zero.
pub proof fn lemma_absent_name(s: Seq<Entry>, name: Seq<char>)
    requires
        forall|i: int| 0 <= i < s.len() ==> (#[trigger] s[i]).0 != name,
    ensures
        !entries_map(s).contains_key(name),
        exponent_of(entries_map(s), name) == 0,
{
    lemma_entries_map_keys(s, name);
}

/// In a sorted sequence each entry gives its dimension's exponent.
pub proof fn lemma_entries_map_values(s: Seq<Entry>, i: int)
    requires
        is_sorted(s),
        0 <= i < s.len(),
    ensures
        entries_map(s).contains_key(s[i].0),
        entries_map(s)[s[i].0] == s[i].1,
        exponent_of(entries_map(s), s[i].0) == s[i].1,
    decreases s.len(),
{
    let t = s.drop_last();
    if i < s.len() - 1 {
        assert(t[i] == s[i]);
        assert(is_sorted(t)) by {
            assert forall|a: int, b: int| 0 <= a < b < t.len() implies name_lt(
                (#[trigger] t[a]).0,
                (#[trigger] t[b]).0,
            ) by {
                assert(t[a] == s[a] && t[b] == s[b]);
            }
        }
        lemma_entries_map_values(t, i);
        assert(name_lt(s[i].0, s[s.len() - 1].0));
        lemma_name_lt_irreflexive(s[i].0);
    }
}

/// Entries without a zero exponent write down a canonical unit.
pub proof fn lemma_entries_map_canonical(s: Seq<Entry>)
    requires
        is_nonzero(s),
    ensures
        is_canonical(entries_map(s)),
    decreases s.len(),
{
    if s.len() > 0 {
        let t = s.drop_last();
        assert(is_nonzero(t)) by {
            assert forall|i: int| 0 <= i < t.len() implies (#[trigger] t[i]).1 != 0 by {
                assert(t[i] == s[i]);
            }
        }
        lemma_entries_map_canonical(t);
        assert(s[s.len() - 1].1 != 0);
    }
}

/// A prefix of a sorted sequence is sorted.
pub proof fn lemma_sorted_prefix(s: Seq<Entry>, n: int)
    requires
        is_sorted(s),
        0 <= n <= s.len(),
    ensures
        is_sorted(s.take(n)),
{
    let t = s.take(n);
    assert forall|a: int, b: int| 0 <= a < b < t.len() implies name_lt(
        (#[trigger] t[a]).0,
        (#[trigger] t[b]).0,
    ) by {
        assert(t[a] == s[a] && t[b] == s[b]);
    }
}

/// Without its last entry a sorted sequence writes down the same unit
/// without that entry's dimension.
pub proof fn lemma_entries_map_drop_last(s: Seq<Entry>)
    requires
        is_sorted(s),
        s.len() > 0,
    ensures
        is_sorted(s.drop_last()),
        entries_map(s.drop_last()) == entries_map(s).remove(s.last().0),
{
    let t = s.drop_last();
    let name = s.last().0;
    lemma_sorted_prefix(s, s.len() - 1);
    assert(t =~= s.take(s.len() - 1));
    assert forall|i: int| 0 <= i < t.len() implies (#[trigger] t[i]).0 != name by {
        assert(t[i] == s[i]);
        assert(name_lt(s[i].0, s[s.len() - 1].0));
        lemma_name_lt_irreflexive(name);
    }
    lemma_absent_name(t, name);
    assert(entries_map(t) =~= entries_map(s).remove(name));
}

/// A unit has at most one listing.
pub proof fn lemma_listing_unique(s1: Seq<Entry>, s2: Seq<Entry>)
    requires
        is_sorted(s1),
        is_sorted(s2),
        entries_map(s1) == entries_map(s2),
    ensures
        s1 == s2,
    decreases s1.len(),
{
    let u = entries_map(s1);
    if s1.len() == 0 {
        if s2.len() > 0 {
            lemma_entries_map_values(s2, s2.len() - 1);
        }
        assert(s1 =~= s2);
    } else if s2.len() == 0 {
        lemma_entries_map_values(s1, s1.len() - 1);
    } else {
        let x = s1.last();
        let y = s2.last();
        lemma_entries_map_values(s1, s1.len() - 1);
        lemma_entries_map_values(s2, s2.len() - 1);
        lemma_entries_map_keys(s2, x.0);
        lemma_entries_map_keys(s1, y.0);
        let k = choose|k: int| 0 <= k < s2.len() && (#[trigger] s2[k]).0 == x.0;
        let l = choose|l: int| 0 <= l < s1.len() && (#[trigger] s1[l]).0 == y.0;
        if k < s2.len() - 1 {
            assert(name_lt(s2[k].0, s2[s2.len() - 1].0));
            if l < s1.len() - 1 {
                assert(name_lt(s1[l].0, s1[s1.len() - 1].0));
                lemma_name_lt_transitive(x.0, y.0, x.0);
            }
            lemma_name_lt_irreflexive(x.0);
            assert(false);
        }
        assert(x.0 == y.0);
        assert(x == y);
        lemma_entries_map_drop_last(s1);
        lemma_entries_map_drop_last(s2);
        lemma_listing_unique(s1.drop_last(), s2.drop_last());
        assert(s1 =~= s1.drop_last().push(x));
        assert(s2 =~= s2.drop_last().push(y));
    }
}

/// A sorted sequence is the listing of the unit that it writes down.
pub proof fn lemma_listing_of_entries(s: Seq<Entry>)
    requires
        is_sorted(s),
    ensures
        has_listing(entries_map(s)),
        listing(entries_map(s)) == s,
{
    let u = entries_map(s);
    assert(is_listing(s, u));
    lemma_listing_unique(listing(u), s);
}

} // verus!
