//! Lists of texts in ascending order: what it means, and that a set or a
//! collection of texts has one ascending list only.

use crate::text::{lemma_lt_irreflexive, lemma_text_le_total, text_le, text_lt};
use vstd::prelude::*;
use vstd::relations::{sorted_by, total_ordering};
use vstd::seq_lib::lemma_sorted_unique;

verus! {

/// Ordinal order on texts, as a relation.
pub open spec fn ordinal() -> spec_fn(Seq<char>, Seq<char>) -> bool {
    |a: Seq<char>, b: Seq<char>| text_le(a, b)
}

/// Each text of `s` comes strictly before all that follow it.
pub open spec fn strictly_ascending(s: Seq<Seq<char>>) -> bool {
    forall|a: int, b: int| 0 <= a < b < s.len() ==> text_lt(#[trigger] s[a], #[trigger] s[b])
}

/// Ordinal order is a total order.
pub proof fn lemma_ordinal_total()
    ensures
        total_ordering(ordinal()),
{
    lemma_text_le_total();
    assert(ordinal() == (|a: Seq<char>, b: Seq<char>| text_le(a, b)));
}

/// `Set::to_seq` lists no element twice.
pub proof fn lemma_to_seq_no_duplicates<A>(s: Set<A>)
    requires
        s.finite(),
    ensures
        s.to_seq().no_duplicates(),
        s.to_seq().to_set() == s,
    decreases s.len(),
{
    s.lemma_to_seq_to_set_id();
    if s.len() > 0 {
        let x = s.choose();
        let rest = s.remove(x).to_seq();
        lemma_to_seq_no_duplicates(s.remove(x));
        assert(!rest.contains(x));
        assert(s.to_seq() =~= seq![x] + rest);
    }
}

/// Two lists without repeats that hold the same elements hold each as often.
pub proof fn lemma_same_set_same_elements<A>(a: Seq<A>, b: Seq<A>)
    requires
        a.no_duplicates(),
        b.no_duplicates(),
        a.to_set() == b.to_set(),
    ensures
        a.to_multiset() == b.to_multiset(),
{
    broadcast use vstd::seq_lib::group_to_multiset_ensures;
    broadcast use vstd::multiset::group_multiset_axioms;

    a.lemma_multiset_has_no_duplicates();
    b.lemma_multiset_has_no_duplicates();
    assert forall|x: A| a.to_multiset().count(x) == b.to_multiset().count(x) by {
        assert(a.contains(x) == a.to_set().contains(x));
        assert(b.contains(x) == b.to_set().contains(x));
    }
    assert(a.to_multiset() =~= b.to_multiset());
}

/// A strictly ascending list is the sorted list of its set of elements.
pub proof fn lemma_ascending_is_sorted_set(s: Seq<Seq<char>>)
    requires
        strictly_ascending(s),
    ensures
        s.no_duplicates(),
        s == s.to_set().to_sorted_seq(ordinal()),
{
    assert forall|a: int, b: int| 0 <= a < b < s.len() implies s[a] != s[b] by {
        lemma_lt_irreflexive(s[a]);
    }
    let t = s.to_set().to_seq();
    vstd::seq_lib::seq_to_set_is_finite(s);
    lemma_to_seq_no_duplicates(s.to_set());
    lemma_same_set_same_elements(s, t);
    lemma_ordinal_total();
    t.lemma_sort_by_ensures(ordinal());
    assert(sorted_by(s, ordinal()));
    lemma_sorted_unique(s, t.sort_by(ordinal()), ordinal());
}

/// The sorted list of a finite set is strictly ascending and holds the
/// elements of the set, each once.
pub proof fn lemma_sorted_set(s: Set<Seq<char>>)
    requires
        s.finite(),
    ensures
        strictly_ascending(s.to_sorted_seq(ordinal())),
        s.to_sorted_seq(ordinal()).no_duplicates(),
        s.to_sorted_seq(ordinal()).to_set() == s,
        s.to_sorted_seq(ordinal()).len() == s.len(),
{
    broadcast use vstd::seq_lib::group_to_multiset_ensures;

    let t = s.to_seq();
    let u = s.to_sorted_seq(ordinal());
    lemma_to_seq_no_duplicates(s);
    lemma_ordinal_total();
    t.lemma_sort_by_ensures(ordinal());
    t.lemma_multiset_has_no_duplicates();
    u.lemma_multiset_has_no_duplicates_conv();
    assert(u.to_set() =~= s) by {
        assert forall|x: Seq<char>| u.to_set().contains(x) == s.contains(x) by {
            assert(u.contains(x) == (u.to_multiset().count(x) > 0));
            assert(t.contains(x) == (t.to_multiset().count(x) > 0));
            assert(t.to_set().contains(x) == t.contains(x));
        }
    }
    assert forall|a: int, b: int| 0 <= a < b < u.len() implies text_lt(#[trigger] u[a], #[trigger] u[b]) by {
        assert(ordinal()(u[a], u[b]));
    }
    u.unique_seq_to_set();
}

/// Lists of the same lines, in whatever order, sort to the same list.
pub proof fn lemma_sort_by_elements(a: Seq<Seq<char>>, b: Seq<Seq<char>>)
    requires
        a.to_multiset() == b.to_multiset(),
    ensures
        a.sort_by(ordinal()) == b.sort_by(ordinal()),
{
    lemma_ordinal_total();
    a.lemma_sort_by_ensures(ordinal());
    b.lemma_sort_by_ensures(ordinal());
    lemma_sorted_unique(a.sort_by(ordinal()), b.sort_by(ordinal()), ordinal());
}

/// Sorting whole lines keeps every line as often as it occurs, and puts
/// no line after one that comes later in ordinal order.
pub proof fn lemma_sorted_whole(lines: Seq<Seq<char>>)
    ensures
        lines.sort_by(ordinal()).to_multiset() == lines.to_multiset(),
        lines.sort_by(ordinal()).len() == lines.len(),
        sorted_by(lines.sort_by(ordinal()), ordinal()),
{
    lemma_ordinal_total();
    lines.lemma_sort_by_ensures(ordinal());
    vstd::seq_lib::to_multiset_len(lines);
    vstd::seq_lib::to_multiset_len(lines.sort_by(ordinal()));
}

} // verus!
