//! Distinct lines.

use crate::ascending::{lemma_ascending_is_sorted_set, lemma_sorted_set, ordinal, strictly_ascending};
use crate::ranking::{gather, last_of_each, lemma_selects_last, picked, rank_all};
use vstd::prelude::*;

verus! {

/// The distinct lines among `lines`, in ascending ordinal order.
pub open spec fn distinct(lines: Seq<Seq<char>>) -> Seq<Seq<char>> {
    lines.to_set().to_sorted_seq(ordinal())
}

/// What `distinct` gives: every line of the input once, each before the
/// next in ordinal order; as many lines as the input only where the input
/// holds no line twice.
pub proof fn lemma_distinct(lines: Seq<Seq<char>>)
    ensures
        strictly_ascending(distinct(lines)),
        distinct(lines).no_duplicates(),
        distinct(lines).to_set() == lines.to_set(),
        distinct(lines).len() <= lines.len(),
        distinct(lines).len() == lines.len() <==> lines.no_duplicates(),
{
    let d = distinct(lines);
    vstd::seq_lib::seq_to_set_is_finite(lines);
    lemma_sorted_set(lines.to_set());
    d.unique_seq_to_set();
    lines.lemma_cardinality_of_set();
    if lines.no_duplicates() {
        lines.unique_seq_to_set();
    }
    if d.len() == lines.len() {
        lines.lemma_no_dup_set_cardinality();
    }
}

/// Keeps one copy of every distinct line, in ascending ordinal order.
pub fn uniq(lines: Vec<String>) -> (out: Vec<String>)
    ensures
        out.deep_view() == distinct(lines.deep_view()),
        strictly_ascending(out.deep_view()),
        out.deep_view().to_set() == lines.deep_view().to_set(),
        out.len() <= lines.len(),
        out.len() == lines.len() <==> lines.deep_view().no_duplicates(),
{
    let ghost l = lines.deep_view();
    let perm = rank_all(&lines);
    let picks = last_of_each(&lines, &perm);
    proof {
        lemma_selects_last(l, picks@);
        lemma_ascending_is_sorted_set(picked(l, picks@));
        lemma_distinct(l);
    }
    gather(lines, &picks)
}

} // verus!
