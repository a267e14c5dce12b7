//! Ranking the positions of a list of keys: a stable merge sort that moves
//! positions, not texts.

use crate::ascending::strictly_ascending;
use crate::text::{
    lemma_lt_connected, lemma_lt_irreflexive, lemma_lt_transitive, rank, text_le, text_lt, Rank,
};
use vstd::multiset::Multiset;
use vstd::prelude::*;
use vstd::seq_lib::{
    lemma_multiset_commutative, to_multiset_build, to_multiset_insert, to_multiset_len,
    to_multiset_remove,
};

verus! {

/// Position `i` comes before position `j`: its key comes first, or the keys
/// are the same and `i` is the earlier position.
pub open spec fn slot_lt(keys: Seq<Seq<char>>, i: int, j: int) -> bool {
    text_lt(keys[i], keys[j]) || (keys[i] == keys[j] && i < j)
}

/// `perm` holds positions of `keys`, each before all that follow it.
pub open spec fn ranked(keys: Seq<Seq<char>>, perm: Seq<usize>) -> bool {
    &&& forall|a: int| 0 <= a < perm.len() ==> #[trigger] perm[a] < keys.len()
    &&& forall|a: int, b: int|
        0 <= a < b < perm.len() ==> slot_lt(keys, #[trigger] perm[a] as int, #[trigger] perm[b] as int)
}

/// The positions from `lo` up to, not including, `hi`.
pub open spec fn span(lo: int, hi: int) -> Seq<usize> {
    Seq::new((hi - lo) as nat, |k: int| (lo + k) as usize)
}

/// The texts found at the positions `picks`.
pub open spec fn picked(lines: Seq<Seq<char>>, picks: Seq<usize>) -> Seq<Seq<char>> {
    picks.map_values(|i: usize| lines[i as int])
}

/// Coming before is transitive among positions.
pub proof fn lemma_slot_lt_transitive(keys: Seq<Seq<char>>, i: int, j: int, k: int)
    requires
        slot_lt(keys, i, j),
        slot_lt(keys, j, k),
    ensures
        slot_lt(keys, i, k),
{
    if text_lt(keys[i], keys[j]) && text_lt(keys[j], keys[k]) {
        lemma_lt_transitive(keys[i], keys[j], keys[k]);
    }
}

/// A ranked list holds no position twice, and its keys never descend.
pub proof fn lemma_ranked(keys: Seq<Seq<char>>, perm: Seq<usize>)
    requires
        ranked(keys, perm),
    ensures
        perm.no_duplicates(),
        forall|a: int, b: int|
            0 <= a <= b < perm.len() ==> text_le(
                keys[#[trigger] perm[a] as int],
                keys[#[trigger] perm[b] as int],
            ),
{
    assert forall|a: int, b: int| 0 <= a < b < perm.len() implies perm[a] != perm[b] by {
        assert(slot_lt(keys, perm[a] as int, perm[b] as int));
        lemma_lt_irreflexive(keys[perm[a] as int]);
    }
    assert forall|a: int, b: int| 0 <= a <= b < perm.len() implies text_le(
        keys[#[trigger] perm[a] as int],
        keys[#[trigger] perm[b] as int],
    ) by {
        if a < b {
            assert(slot_lt(keys, perm[a] as int, perm[b] as int));
        }
    }
}

/// Applying one function to two lists of the same elements gives two lists
/// of the same elements.
pub proof fn lemma_map_keeps_elements<A, B>(a: Seq<A>, b: Seq<A>, f: spec_fn(A) -> B)
    requires
        a.to_multiset() == b.to_multiset(),
    ensures
        a.map_values(f).to_multiset() == b.map_values(f).to_multiset(),
    decreases a.len(),
{
    broadcast use vstd::seq_lib::group_to_multiset_ensures;
    broadcast use vstd::multiset::group_multiset_axioms;

    if a.len() == 0 {
        to_multiset_len(a);
        to_multiset_len(b);
        assert(a.map_values(f) =~= b.map_values(f));
    } else {
        let x = a.last();
        assert(a =~= a.drop_last().push(x));
        assert(a.to_multiset().count(x) > 0);
        assert(b.contains(x));
        let k = choose|k: int| 0 <= k < b.len() && b[k] == x;
        to_multiset_build(a.drop_last(), x);
        to_multiset_remove(b, k);
        assert(a.drop_last().to_multiset() =~= b.remove(k).to_multiset());
        lemma_map_keeps_elements(a.drop_last(), b.remove(k), f);
        assert(a.map_values(f) =~= a.drop_last().map_values(f).push(f(x)));
        assert(b.map_values(f) =~= b.remove(k).map_values(f).insert(k, f(x)));
        to_multiset_build(a.drop_last().map_values(f), f(x));
        to_multiset_insert(b.remove(k).map_values(f), k, f(x));
    }
}

/// The empty list has no elements.
pub proof fn lemma_empty_has_no_elements<A>()
    ensures
        Seq::<A>::empty().to_multiset() == Multiset::<A>::empty(),
{
    broadcast use vstd::seq_lib::group_to_multiset_ensures;
    broadcast use vstd::multiset::group_multiset_axioms;

    assert(Seq::<A>::empty().to_multiset() =~= Multiset::<A>::empty());
}

/// A list with the elements of a span holds each of its positions, and no other.
pub proof fn lemma_span_elements(perm: Seq<usize>, lo: int, hi: int)
    requires
        0 <= lo <= hi <= usize::MAX,
        perm.to_multiset() == span(lo, hi).to_multiset(),
    ensures
        perm.len() == hi - lo,
        forall|a: int| 0 <= a < perm.len() ==> lo <= #[trigger] perm[a] < hi,
        forall|i: usize| lo <= i < hi ==> #[trigger] perm.contains(i),
{
    broadcast use vstd::seq_lib::group_to_multiset_ensures;

    to_multiset_len(perm);
    to_multiset_len(span(lo, hi));
    assert forall|a: int| 0 <= a < perm.len() implies lo <= #[trigger] perm[a] < hi by {
        assert(perm.contains(perm[a]));
        assert(span(lo, hi).to_multiset().count(perm[a]) > 0);
        assert(span(lo, hi).contains(perm[a]));
    }
    assert forall|i: usize| lo <= i < hi implies #[trigger] perm.contains(i) by {
        assert(span(lo, hi)[i - lo] == i);
        assert(span(lo, hi).contains(i));
        assert(perm.to_multiset().count(i) > 0);
    }
}

/// Merges two ranked lists into one, where every position of `left` is
/// earlier than every position of `right`.
fn merge(keys: &Vec<String>, left: &Vec<usize>, right: &Vec<usize>) -> (out: Vec<usize>)
    requires
        ranked(keys.deep_view(), left@),
        ranked(keys.deep_view(), right@),
        forall|a: int, b: int|
            0 <= a < left.len() && 0 <= b < right.len() ==> #[trigger] left@[a] < #[trigger] right@[b],
    ensures
        ranked(keys.deep_view(), out@),
        out@.to_multiset() == left@.to_multiset().add(right@.to_multiset()),
{
    broadcast use vstd::multiset::group_multiset_axioms;

    let ghost k = keys.deep_view();
    let mut out: Vec<usize> = Vec::new();
    let mut i: usize = 0;
    let mut j: usize = 0;
    proof {
        lemma_empty_has_no_elements::<usize>();
        assert(left@.take(0) =~= Seq::empty() && right@.take(0) =~= Seq::empty());
    }
    while i < left.len() || j < right.len()
        invariant
            k == keys.deep_view(),
            i <= left.len(),
            j <= right.len(),
            ranked(k, left@),
            ranked(k, right@),
            forall|a: int, b: int|
                0 <= a < left.len() && 0 <= b < right.len() ==> #[trigger] left@[a]
                    < #[trigger] right@[b],
            ranked(k, out@),
            forall|a: int, b: int|
                0 <= a < out.len() && i <= b < left.len() ==> slot_lt(
                    k,
                    #[trigger] out@[a] as int,
                    #[trigger] left@[b] as int,
                ),
            forall|a: int, b: int|
                0 <= a < out.len() && j <= b < right.len() ==> slot_lt(
                    k,
                    #[trigger] out@[a] as int,
                    #[trigger] right@[b] as int,
                ),
            out@.to_multiset() == left@.take(i as int).to_multiset().add(
                right@.take(j as int).to_multiset(),
            ),
        decreases left.len() - i + right.len() - j,
    {
        let from_left = if j == right.len() {
            true
        } else if i == left.len() {
            false
        } else {
            match rank(keys[left[i]].as_str(), keys[right[j]].as_str()) {
                Rank::After => false,
                _ => true,
            }
        };
        let ghost before = out@;
        if from_left {
            let x = left[i];
            out.push(x);
            proof {
                assert(left@.take(i + 1) =~= left@.take(i as int).push(x));
                to_multiset_build(left@.take(i as int), x);
                to_multiset_build(before, x);
                assert forall|b: int| j <= b < right.len() implies slot_lt(
                    k,
                    x as int,
                    #[trigger] right@[b] as int,
                ) by {
                    assert(x < right@[j as int]);
                    assert(slot_lt(k, x as int, right@[j as int] as int));
                    if j < b {
                        lemma_slot_lt_transitive(k, x as int, right@[j as int] as int, right@[b] as int);
                    }
                }
            }
            i = i + 1;
        } else {
            let x = right[j];
            out.push(x);
            proof {
                assert(right@.take(j + 1) =~= right@.take(j as int).push(x));
                to_multiset_build(right@.take(j as int), x);
                to_multiset_build(before, x);
                assert forall|b: int| i <= b < left.len() implies slot_lt(
                    k,
                    x as int,
                    #[trigger] left@[b] as int,
                ) by {
                    lemma_lt_connected(k[x as int], k[left@[i as int] as int]);
                    assert(slot_lt(k, x as int, left@[i as int] as int));
                    if i < b {
                        lemma_slot_lt_transitive(k, x as int, left@[i as int] as int, left@[b] as int);
                    }
                }
            }
            j = j + 1;
        }
    }
    assert(left@.take(i as int) =~= left@ && right@.take(j as int) =~= right@);
    out
}

/// Ranks the positions from `lo` up to `hi`.
fn rank_span(keys: &Vec<String>, lo: usize, hi: usize) -> (perm: Vec<usize>)
    requires
        lo <= hi <= keys.len(),
    ensures
        ranked(keys.deep_view(), perm@),
        perm@.to_multiset() == span(lo as int, hi as int).to_multiset(),
    decreases hi - lo,
{
    let mut perm: Vec<usize> = Vec::new();
    if hi - lo == 0 {
        assert(perm@ =~= span(lo as int, hi as int));
        return perm;
    }
    if hi - lo == 1 {
        perm.push(lo);
        assert(perm@ =~= span(lo as int, hi as int));
        return perm;
    }
    let mid = lo + (hi - lo) / 2;
    let left = rank_span(keys, lo, mid);
    let right = rank_span(keys, mid, hi);
    proof {
        lemma_span_elements(left@, lo as int, mid as int);
        lemma_span_elements(right@, mid as int, hi as int);
        assert(span(lo as int, mid as int) + span(mid as int, hi as int) =~= span(lo as int, hi as int));
        lemma_multiset_commutative(span(lo as int, mid as int), span(mid as int, hi as int));
    }
    merge(keys, &left, &right)
}

/// Ranks all positions of `keys`: the result lists every position once, by
/// ascending key, and positions of the same key from first to last.
pub(crate) fn rank_all(keys: &Vec<String>) -> (perm: Vec<usize>)
    ensures
        ranked(keys.deep_view(), perm@),
        perm@.to_multiset() == span(0, keys.len() as int).to_multiset(),
{
    rank_span(keys, 0, keys.len())
}

/// Some position in `picks` has the key of position `i` and is not earlier.
pub open spec fn covered(keys: Seq<Seq<char>>, picks: Seq<usize>, i: int) -> bool {
    exists|x: int| 0 <= x < picks.len() && keys[#[trigger] picks[x] as int] == keys[i] && i <= picks[x]
}

/// `picks` holds, by ascending key, the last position of each key.
pub open spec fn selects_last(keys: Seq<Seq<char>>, picks: Seq<usize>) -> bool {
    &&& forall|a: int| 0 <= a < picks.len() ==> #[trigger] picks[a] < keys.len()
    &&& forall|a: int, b: int|
        0 <= a < b < picks.len() ==> text_lt(
            keys[#[trigger] picks[a] as int],
            keys[#[trigger] picks[b] as int],
        )
    &&& forall|i: int| 0 <= i < keys.len() ==> covered(keys, picks, i)
}

/// A selection of last positions holds no position twice; its keys are the
/// keys of the list, each once and in ascending order; and after a selected
/// position none has its key.
pub proof fn lemma_selects_last(keys: Seq<Seq<char>>, picks: Seq<usize>)
    requires
        selects_last(keys, picks),
    ensures
        picks.no_duplicates(),
        strictly_ascending(picked(keys, picks)),
        picked(keys, picks).to_set() == keys.to_set(),
        forall|a: int, j: int|
            0 <= a < picks.len() && picks[a] < j < keys.len() ==> #[trigger] keys[j] != keys[#[trigger] picks[a] as int],
{
    let pk = picked(keys, picks);
    assert forall|a: int, b: int| 0 <= a < b < picks.len() implies picks[a] != picks[b] by {
        assert(text_lt(pk[a], pk[b]));
        lemma_lt_irreflexive(pk[a]);
    }
    assert(pk.to_set() =~= keys.to_set()) by {
        assert forall|x: Seq<char>| pk.to_set().contains(x) == keys.to_set().contains(x) by {
            if pk.contains(x) {
                let a = choose|a: int| 0 <= a < pk.len() && pk[a] == x;
                assert(keys[picks[a] as int] == x);
            }
            if keys.contains(x) {
                let i = choose|i: int| 0 <= i < keys.len() && keys[i] == x;
                assert(covered(keys, picks, i));
                let a = choose|a: int|
                    0 <= a < picks.len() && keys[#[trigger] picks[a] as int] == keys[i] && i <= picks[a];
                assert(pk[a] == x);
            }
        }
    }
    assert forall|a: int, j: int| 0 <= a < picks.len() && picks[a] < j < keys.len() implies #[trigger] keys[j]
        != keys[#[trigger] picks[a] as int] by {
        assert(covered(keys, picks, j));
        let b = choose|b: int|
            0 <= b < picks.len() && keys[#[trigger] picks[b] as int] == keys[j] && j <= picks[b];
        if keys[j] == keys[picks[a] as int] {
            if a < b {
                assert(text_lt(pk[a], pk[b]));
            } else if b < a {
                assert(text_lt(pk[b], pk[a]));
            }
            lemma_lt_irreflexive(keys[j]);
        }
    }
}

/// Picks, from a ranking of all positions, the last position of each key.
pub(crate) fn last_of_each(keys: &Vec<String>, perm: &Vec<usize>) -> (picks: Vec<usize>)
    requires
        ranked(keys.deep_view(), perm@),
        perm@.to_multiset() == span(0, keys.len() as int).to_multiset(),
    ensures
        selects_last(keys.deep_view(), picks@),
{
    let ghost k = keys.deep_view();
    let n = perm.len();
    proof {
        lemma_span_elements(perm@, 0, keys.len() as int);
        lemma_ranked(k, perm@);
    }
    let mut picks: Vec<usize> = Vec::new();
    let mut a: usize = 0;
    while a < n
        invariant
            k == keys.deep_view(),
            n == perm.len(),
            a <= n,
            ranked(k, perm@),
            forall|x: int, y: int|
                0 <= x <= y < perm.len() ==> text_le(
                    k[#[trigger] perm@[x] as int],
                    k[#[trigger] perm@[y] as int],
                ),
            forall|x: int| 0 <= x < picks.len() ==> #[trigger] picks@[x] < k.len(),
            forall|x: int, y: int|
                0 <= x < y < picks.len() ==> text_lt(
                    k[#[trigger] picks@[x] as int],
                    k[#[trigger] picks@[y] as int],
                ),
            a < n ==> forall|x: int|
                0 <= x < picks.len() ==> text_lt(k[#[trigger] picks@[x] as int], k[perm@[a as int] as int]),
            forall|c: int|
                0 <= c < a ==> covered(k, picks@, #[trigger] perm@[c] as int) || (a < n && k[perm@[c] as int]
                    == k[perm@[a as int] as int]),
        decreases n - a,
    {
        let here = perm[a];
        let last = if a + 1 == n {
            true
        } else {
            match rank(keys[here].as_str(), keys[perm[a + 1]].as_str()) {
                Rank::Same => false,
                _ => true,
            }
        };
        let ghost before = picks@;
        if last {
            picks.push(here);
            proof {
                assert(forall|x: int| 0 <= x < before.len() ==> picks@[x] == before[x]);
                assert forall|c: int| 0 <= c < a + 1 implies covered(k, picks@, #[trigger] perm@[c] as int) by {
                    if c < a && covered(k, before, perm@[c] as int) {
                        let x = choose|x: int|
                            0 <= x < before.len() && k[#[trigger] before[x] as int] == k[perm@[c] as int]
                                && perm@[c] <= before[x];
                        assert(picks@[x] == before[x]);
                    } else {
                        if c < a {
                            assert(slot_lt(k, perm@[c] as int, perm@[a as int] as int));
                            lemma_lt_irreflexive(k[here as int]);
                        }
                        assert(picks@[before.len() as int] == here);
                    }
                }
                if a + 1 < n {
                    assert(text_le(k[perm@[a as int] as int], k[perm@[a + 1] as int]));
                    assert forall|x: int| 0 <= x < picks.len() implies text_lt(
                        k[#[trigger] picks@[x] as int],
                        k[perm@[a + 1] as int],
                    ) by {
                        if x < before.len() {
                            lemma_lt_transitive(k[picks@[x] as int], k[here as int], k[perm@[a + 1] as int]);
                        }
                    }
                }
            }
        }
        a = a + 1;
    }
    proof {
        assert forall|i: int| 0 <= i < k.len() implies covered(k, picks@, i) by {
            assert(perm@.contains(i as usize));
            let c = choose|c: int| 0 <= c < perm@.len() && perm@[c] == i as usize;
            assert(covered(k, picks@, perm@[c] as int));
        }
    }
    picks
}

/// The same positions, last to first.
pub(crate) fn reversed(picks: &Vec<usize>) -> (out: Vec<usize>)
    ensures
        out@ == picks@.reverse(),
{
    let n = picks.len();
    let mut out: Vec<usize> = Vec::new();
    let mut i: usize = 0;
    while i < n
        invariant
            n == picks.len(),
            i <= n,
            out.len() == i,
            forall|a: int| 0 <= a < i ==> out@[a] == picks@[n - 1 - a],
        decreases n - i,
    {
        out.push(picks[n - 1 - i]);
        i = i + 1;
    }
    assert(out@ =~= picks@.reverse());
    out
}

/// Moves the lines at the positions `picks` out of `lines`, in that order.
pub(crate) fn gather(lines: Vec<String>, picks: &Vec<usize>) -> (out: Vec<String>)
    requires
        picks@.no_duplicates(),
        forall|a: int| 0 <= a < picks.len() ==> #[trigger] picks@[a] < lines.len(),
    ensures
        out.deep_view() == picked(lines.deep_view(), picks@),
{
    let n = picks.len();
    let mut slots = lines;
    let mut out: Vec<String> = Vec::new();
    let mut i: usize = 0;
    while i < n
        invariant
            n == picks.len(),
            i <= n,
            picks@.no_duplicates(),
            slots.len() == lines.len(),
            forall|a: int| 0 <= a < picks.len() ==> #[trigger] picks@[a] < lines.len(),
            forall|a: int| i <= a < n ==> slots@[#[trigger] picks@[a] as int] == lines@[picks@[a] as int],
            out.len() == i,
            forall|a: int| 0 <= a < i ==> #[trigger] out@[a] == lines@[picks@[a] as int],
        decreases n - i,
    {
        let mut line = String::new();
        slots.set_and_swap(picks[i], &mut line);
        out.push(line);
        i = i + 1;
    }
    assert(out.deep_view() =~= picked(lines.deep_view(), picks@));
    out
}

} // verus!
