//! Laws that hold of the operations, whatever the input.

use crate::ascending::{lemma_sort_by_elements, lemma_sorted_set, lemma_sorted_whole, ordinal};
use crate::sort::{
    by_key, in_order, keyed, keys_of, lemma_in_order, lemma_keyed, lemma_keyed_values, sorted, Order,
};
use crate::uniq::{distinct, lemma_distinct};
use vstd::prelude::*;

verus! {

/// Removing repeats from lines without repeats changes nothing.
pub proof fn lemma_uniq_idempotent(lines: Seq<Seq<char>>)
    ensures
        distinct(distinct(lines)) == distinct(lines),
{
    lemma_distinct(lines);
}

/// The lines that sorting by key gives hold, key by key, what the input held.
proof fn lemma_keyed_of_sorted(
    lines: Seq<Seq<char>>,
    order: Order,
    column: nat,
    delimiter: Option<Seq<char>>,
)
    ensures
        keyed(in_order(by_key(lines, column, delimiter), order), column, delimiter) == keyed(
            lines,
            column,
            delimiter,
        ),
{
    let m = keyed(lines, column, delimiter);
    let ks = m.dom().to_sorted_seq(ordinal());
    let out = by_key(lines, column, delimiter);
    let y = in_order(out, order);
    let ky = keys_of(y, column, delimiter);
    let my = keyed(y, column, delimiter);
    lemma_keyed(lines, column, delimiter);
    lemma_keyed_values(lines, column, delimiter);
    lemma_sorted_set(m.dom());
    assert forall|a: int| 0 <= a < ks.len() implies m.dom().contains(#[trigger] ks[a]) by {
        assert(ks.to_set().contains(ks[a]));
    }
    assert(ky =~= in_order(ks, order));
    assert(ky.no_duplicates());
    lemma_keyed(y, column, delimiter);
    assert(ky.to_set() =~= ks.to_set()) by {
        assert forall|x: Seq<char>| ky.contains(x) == ks.contains(x) by {
            if ky.contains(x) {
                let a = choose|a: int| 0 <= a < ky.len() && ky[a] == x;
                assert(ks[a] == x || ks[ks.len() - 1 - a] == x);
            }
            if ks.contains(x) {
                let a = choose|a: int| 0 <= a < ks.len() && ks[a] == x;
                assert(ky[a] == x || ky[ky.len() - 1 - a] == x);
            }
        }
    }
    assert forall|x: Seq<char>| my.dom().contains(x) implies #[trigger] my[x] == m[x] by {
        assert(ky.contains(x));
        let a = choose|a: int| 0 <= a < ky.len() && ky[a] == x;
        assert forall|j: int| a < j < y.len() implies #[trigger] ky[j] != ky[a] by {}
        assert(my[ky[a]] == y[a]);
    }
    assert(my =~= m);
}

/// Sorting lines that are already sorted, with the same options, changes
/// nothing.
pub proof fn lemma_sort_idempotent(
    lines: Seq<Seq<char>>,
    order: Order,
    column: Option<nat>,
    delimiter: Option<Seq<char>>,
)
    ensures
        sorted(sorted(lines, order, column, delimiter), order, column, delimiter) == sorted(
            lines,
            order,
            column,
            delimiter,
        ),
{
    match column {
        None => {
            lemma_sorted_whole(lines);
            lemma_in_order(lines.sort_by(ordinal()), order);
            lemma_sort_by_elements(in_order(lines.sort_by(ordinal()), order), lines);
        },
        Some(c) => {
            lemma_keyed_of_sorted(lines, order, c, delimiter);
        },
    }
}

} // verus!
