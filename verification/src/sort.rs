//! Sorting lines: whole lines with every copy kept, or by a key taken from
//! each line, where the last line of a key replaces the earlier ones.

use crate::ascending::{
    lemma_ascending_is_sorted_set, lemma_ordinal_total, lemma_sorted_set, lemma_sorted_whole, ordinal,
    strictly_ascending,
};
use crate::error::InvalidInput;
use crate::fields::{chars_of, key_in, key_of};
use crate::ranking::{
    gather, last_of_each, lemma_map_keeps_elements, lemma_ranked, lemma_selects_last, lemma_span_elements,
    picked, rank_all, reversed, selects_last, span,
};
use crate::text::{rank, Rank};
use vstd::prelude::*;
use vstd::relations::sorted_by;
use vstd::seq_lib::lemma_sorted_unique;

verus! {

/// Direction in which sorted lines are emitted.
#[derive(Clone, Copy, Debug, PartialEq, Eq, Structural)]
pub enum Order {
    Asc,
    Desc,
}

/// The order that a name stands for.
pub open spec fn order_named(name: Seq<char>) -> Result<Order, InvalidInput> {
    if name == "asc"@ {
        Ok(Order::Asc)
    } else if name == "desc"@ {
        Ok(Order::Desc)
    } else {
        Err(InvalidInput)
    }
}

impl Order {
    /// Reads an order from its name, `asc` or `desc`.
    pub fn from_str(s: &str) -> (r: Result<Order, InvalidInput>)
        ensures
            r == order_named(s@),
    {
        match rank(s, "asc") {
            Rank::Same => Ok(Order::Asc),
            _ => match rank(s, "desc") {
                Rank::Same => Ok(Order::Desc),
                _ => Err(InvalidInput),
            },
        }
    }
}

/// `asc` as it stands, or last to first.
pub open spec fn in_order(asc: Seq<Seq<char>>, order: Order) -> Seq<Seq<char>> {
    match order {
        Order::Asc => asc,
        Order::Desc => asc.reverse(),
    }
}

/// The key of every line.
pub open spec fn keys_of(lines: Seq<Seq<char>>, column: nat, delimiter: Option<Seq<char>>) -> Seq<
    Seq<char>,
> {
    lines.map_values(|line: Seq<char>| key_of(line, column, delimiter))
}

/// The map from key to line that inserting the lines one after another
/// leaves: of the lines with one key, the last.
pub open spec fn keyed(lines: Seq<Seq<char>>, column: nat, delimiter: Option<Seq<char>>) -> Map<
    Seq<char>,
    Seq<char>,
>
    decreases lines.len(),
{
    if lines.len() == 0 {
        Map::empty()
    } else {
        keyed(lines.drop_last(), column, delimiter).insert(
            key_of(lines.last(), column, delimiter),
            lines.last(),
        )
    }
}

/// The lines that `keyed` holds, by ascending key.
pub open spec fn by_key(lines: Seq<Seq<char>>, column: nat, delimiter: Option<Seq<char>>) -> Seq<
    Seq<char>,
> {
    let m = keyed(lines, column, delimiter);
    m.dom().to_sorted_seq(ordinal()).map_values(|k: Seq<char>| m[k])
}

/// What sorting `lines` gives.
pub open spec fn sorted(
    lines: Seq<Seq<char>>,
    order: Order,
    column: Option<nat>,
    delimiter: Option<Seq<char>>,
) -> Seq<Seq<char>> {
    match column {
        None => in_order(lines.sort_by(ordinal()), order),
        Some(c) => in_order(by_key(lines, c, delimiter), order),
    }
}

/// The number of a column, as a natural number.
pub open spec fn column_number(column: Option<usize>) -> Option<nat> {
    match column {
        Some(c) => Some(c as nat),
        None => None,
    }
}

/// What `keyed` holds: its keys are the keys of the lines, and each stands
/// for the last line that has it.
pub proof fn lemma_keyed(lines: Seq<Seq<char>>, column: nat, delimiter: Option<Seq<char>>)
    ensures
        keyed(lines, column, delimiter).dom().finite(),
        keyed(lines, column, delimiter).dom() == keys_of(lines, column, delimiter).to_set(),
        forall|i: int|
            0 <= i < lines.len() && (forall|j: int|
                i < j < lines.len() ==> #[trigger] keys_of(lines, column, delimiter)[j] != keys_of(
                    lines,
                    column,
                    delimiter,
                )[i]) ==> keyed(lines, column, delimiter)[#[trigger] keys_of(lines, column, delimiter)[i]]
                == lines[i],
    decreases lines.len(),
{
    let k = keys_of(lines, column, delimiter);
    let m = keyed(lines, column, delimiter);
    if lines.len() == 0 {
        assert(m.dom() =~= k.to_set());
    } else {
        let front = lines.drop_last();
        let kf = keys_of(front, column, delimiter);
        let mf = keyed(front, column, delimiter);
        lemma_keyed(front, column, delimiter);
        assert(kf =~= k.drop_last());
        assert(k =~= kf.push(k.last()));
        assert(m.dom() =~= k.to_set()) by {
            assert forall|x: Seq<char>| m.dom().contains(x) == k.to_set().contains(x) by {
                if kf.contains(x) {
                    let i = choose|i: int| 0 <= i < kf.len() && kf[i] == x;
                    assert(k[i] == x);
                }
                if k.contains(x) {
                    let i = choose|i: int| 0 <= i < k.len() && k[i] == x;
                    if i < kf.len() {
                        assert(kf[i] == x);
                    }
                }
            }
        }
        assert forall|i: int|
            0 <= i < lines.len() && (forall|j: int| i < j < lines.len() ==> #[trigger] k[j] != k[i])
            implies m[#[trigger] k[i]] == lines[i] by {
            if i < front.len() {
                assert(k[lines.len() - 1] != k[i]);
                assert forall|j: int| i < j < front.len() implies #[trigger] kf[j] != kf[i] by {
                    assert(k[j] != k[i]);
                }
                assert(mf[kf[i]] == front[i]);
            }
        }
    }
}

/// Position `i` holds the last line of `lines` that has its key.
pub open spec fn last_of_key(
    lines: Seq<Seq<char>>,
    column: nat,
    delimiter: Option<Seq<char>>,
    i: int,
) -> bool {
    &&& 0 <= i < lines.len()
    &&& forall|j: int|
        i < j < lines.len() ==> key_of(#[trigger] lines[j], column, delimiter) != key_of(
            lines[i],
            column,
            delimiter,
        )
}

/// Every line that `keyed` holds has the key under which it stands.
pub proof fn lemma_keyed_values(lines: Seq<Seq<char>>, column: nat, delimiter: Option<Seq<char>>)
    ensures
        forall|k: Seq<char>| #[trigger]
            keyed(lines, column, delimiter).dom().contains(k) ==> key_of(
                keyed(lines, column, delimiter)[k],
                column,
                delimiter,
            ) == k,
    decreases lines.len(),
{
    let m = keyed(lines, column, delimiter);
    if lines.len() > 0 {
        let front = keyed(lines.drop_last(), column, delimiter);
        lemma_keyed_values(lines.drop_last(), column, delimiter);
        assert forall|k: Seq<char>| #[trigger] m.dom().contains(k) implies key_of(
            m[k],
            column,
            delimiter,
        ) == k by {
            if k != key_of(lines.last(), column, delimiter) {
                assert(front.dom().contains(k));
            }
        }
    }
}

/// Sorting by key gives one line for each key, by strictly ascending key;
/// the line of a key is the last line of the input that has it.
pub proof fn lemma_sorted_by_key(lines: Seq<Seq<char>>, column: nat, delimiter: Option<Seq<char>>)
    ensures
        strictly_ascending(keys_of(by_key(lines, column, delimiter), column, delimiter)),
        by_key(lines, column, delimiter).len() == keyed(lines, column, delimiter).dom().len(),
        by_key(lines, column, delimiter).len() <= lines.len(),
        forall|line: Seq<char>| #[trigger]
            by_key(lines, column, delimiter).contains(line) <==> exists|i: int| #[trigger]
                last_of_key(lines, column, delimiter, i) && lines[i] == line,
{
    let m = keyed(lines, column, delimiter);
    let k = keys_of(lines, column, delimiter);
    let ks = m.dom().to_sorted_seq(ordinal());
    let out = by_key(lines, column, delimiter);
    lemma_keyed(lines, column, delimiter);
    lemma_keyed_values(lines, column, delimiter);
    lemma_sorted_set(m.dom());
    assert forall|a: int| 0 <= a < ks.len() implies m.dom().contains(#[trigger] ks[a]) by {
        assert(ks.to_set().contains(ks[a]));
    }
    assert(keys_of(out, column, delimiter) =~= ks);
    k.lemma_cardinality_of_set();
    assert forall|line: Seq<char>| #[trigger] out.contains(line) <==> exists|i: int| #[trigger]
        last_of_key(lines, column, delimiter, i) && lines[i] == line by {
        if out.contains(line) {
            let a = choose|a: int| 0 <= a < out.len() && out[a] == line;
            let i = lemma_last_position(k, ks[a]);
            assert forall|j: int| i < j < lines.len() implies key_of(
                #[trigger] lines[j],
                column,
                delimiter,
            ) != key_of(lines[i], column, delimiter) by {
                assert(k[j] != k[i]);
            }
            assert(last_of_key(lines, column, delimiter, i));
            assert(m[k[i]] == lines[i]);
        }
        if exists|i: int| #[trigger] last_of_key(lines, column, delimiter, i) && lines[i] == line {
            let i = choose|i: int| #[trigger] last_of_key(lines, column, delimiter, i) && lines[i] == line;
            assert forall|j: int| i < j < lines.len() implies #[trigger] k[j] != k[i] by {
                assert(key_of(lines[j], column, delimiter) != key_of(lines[i], column, delimiter));
            }
            assert(m[k[i]] == lines[i]);
            assert(k.to_set().contains(k[i]));
            assert(ks.to_set().contains(k[i]));
            let a = choose|a: int| 0 <= a < ks.len() && ks[a] == k[i];
            assert(out[a] == lines[i]);
        }
    }
}

/// The last position at which a list holds an element.
proof fn lemma_last_position(s: Seq<Seq<char>>, x: Seq<char>) -> (i: int)
    requires
        s.to_set().contains(x),
    ensures
        0 <= i < s.len(),
        s[i] == x,
        forall|j: int| i < j < s.len() ==> #[trigger] s[j] != x,
    decreases s.len(),
{
    assert(s.contains(x));
    if s.last() == x {
        s.len() - 1
    } else {
        let at = choose|at: int| 0 <= at < s.len() && s[at] == x;
        assert(s.drop_last()[at] == x);
        assert(s.drop_last().to_set().contains(x));
        let i = lemma_last_position(s.drop_last(), x);
        assert forall|j: int| i < j < s.len() implies #[trigger] s[j] != x by {
            if j < s.len() - 1 {
                assert(s.drop_last()[j] != x);
            }
        }
        i
    }
}

/// A list in either order holds the same lines, and twice turned it is as
/// it was.
pub proof fn lemma_in_order(asc: Seq<Seq<char>>, order: Order)
    ensures
        in_order(in_order(asc, order), order) == asc,
        in_order(asc, order).len() == asc.len(),
        in_order(asc, order).to_multiset() == asc.to_multiset(),
        forall|line: Seq<char>| #[trigger] in_order(asc, order).contains(line) <==> asc.contains(line),
{
    asc.lemma_reverse_to_multiset();
    assert(asc.reverse().reverse() =~= asc);
    assert forall|line: Seq<char>| #[trigger] asc.reverse().contains(line) <==> asc.contains(line) by {
        if asc.contains(line) {
            let i = choose|i: int| 0 <= i < asc.len() && asc[i] == line;
            assert(asc.reverse()[asc.len() - 1 - i] == line);
        }
        if asc.reverse().contains(line) {
            let i = choose|i: int| 0 <= i < asc.len() && asc.reverse()[i] == line;
            assert(asc[asc.len() - 1 - i] == line);
        }
    }
}

/// Reading a list backwards gives the texts at the positions read backwards.
proof fn lemma_picked_reverse(lines: Seq<Seq<char>>, picks: Seq<usize>)
    ensures
        picked(lines, picks.reverse()) == picked(lines, picks).reverse(),
        picks.no_duplicates() ==> picks.reverse().no_duplicates(),
        forall|a: int| 0 <= a < picks.len() ==> #[trigger] picks.reverse()[a] == picks[picks.len() - 1 - a],
{
    assert(picked(lines, picks.reverse()) =~= picked(lines, picks).reverse());
}

/// Sorts whole lines in ordinal order. Lines that occur several times are
/// kept as often.
pub fn sort_heap(lines: Vec<String>, order: Order) -> (out: Vec<String>)
    ensures
        out.deep_view() == in_order(lines.deep_view().sort_by(ordinal()), order),
        out.deep_view().to_multiset() == lines.deep_view().to_multiset(),
        sorted_by(in_order(out.deep_view(), order), ordinal()),
{
    let ghost l = lines.deep_view();
    let perm = rank_all(&lines);
    proof {
        let at = |i: usize| l[i as int];
        lemma_ranked(l, perm@);
        lemma_span_elements(perm@, 0, l.len() as int);
        lemma_map_keeps_elements(perm@, span(0, l.len() as int), at);
        assert(span(0, l.len() as int).map_values(at) =~= l);
        lemma_ordinal_total();
        l.lemma_sort_by_ensures(ordinal());
        assert(sorted_by(picked(l, perm@), ordinal()));
        lemma_sorted_unique(picked(l, perm@), l.sort_by(ordinal()), ordinal());
        lemma_picked_reverse(l, perm@);
        lemma_sorted_whole(l);
        lemma_in_order(l.sort_by(ordinal()), order);
    }
    match order {
        Order::Asc => gather(lines, &perm),
        Order::Desc => {
            let back = reversed(&perm);
            gather(lines, &back)
        },
    }
}

/// The key of every line of `lines`.
fn keys(lines: &Vec<String>, column: usize, delimiter: &Option<Vec<char>>) -> (keys: Vec<String>)
    ensures
        keys.deep_view() == keys_of(lines.deep_view(), column as nat, delimiter.deep_view()),
{
    let n = lines.len();
    let mut keys: Vec<String> = Vec::new();
    let mut i: usize = 0;
    while i < n
        invariant
            n == lines.len(),
            i <= n,
            keys.len() == i,
            forall|a: int|
                0 <= a < i ==> (#[trigger] keys@[a])@ == key_of(
                    lines@[a]@,
                    column as nat,
                    delimiter.deep_view(),
                ),
        decreases n - i,
    {
        keys.push(key_in(lines[i].as_str(), column, delimiter));
        i = i + 1;
    }
    assert(keys.deep_view() =~= keys_of(lines.deep_view(), column as nat, delimiter.deep_view()));
    keys
}

/// The last positions of the keys give the lines that `by_key` lists.
proof fn lemma_picks_by_key(
    lines: Seq<Seq<char>>,
    column: nat,
    delimiter: Option<Seq<char>>,
    picks: Seq<usize>,
)
    requires
        selects_last(keys_of(lines, column, delimiter), picks),
    ensures
        picks.no_duplicates(),
        picked(lines, picks) == by_key(lines, column, delimiter),
{
    let k = keys_of(lines, column, delimiter);
    let m = keyed(lines, column, delimiter);
    let pk = picked(k, picks);
    lemma_selects_last(k, picks);
    lemma_ascending_is_sorted_set(pk);
    lemma_keyed(lines, column, delimiter);
    assert forall|a: int| 0 <= a < picks.len() implies m[pk[a]] == lines[#[trigger] picks[a] as int] by {
        let p = picks[a] as int;
        assert forall|j: int| p < j < lines.len() implies #[trigger] k[j] != k[p] by {}
        assert(m[k[p]] == lines[p]);
    }
    assert(picked(lines, picks) =~= pk.map_values(|key: Seq<char>| m[key]));
}

/// Sorts lines by the key in field number `column`. Of the lines that have
/// the same key only the last one is kept.
pub fn sort_btree(lines: Vec<String>, order: Order, column: usize, delimiter: Option<String>) -> (out:
    Vec<String>)
    ensures
        out.deep_view() == in_order(
            by_key(lines.deep_view(), column as nat, delimiter.deep_view()),
            order,
        ),
        strictly_ascending(
            keys_of(in_order(out.deep_view(), order), column as nat, delimiter.deep_view()),
        ),
        forall|line: Seq<char>| #[trigger]
            out.deep_view().contains(line) <==> exists|i: int| #[trigger]
                last_of_key(lines.deep_view(), column as nat, delimiter.deep_view(), i)
                    && lines.deep_view()[i] == line,
{
    let ghost l = lines.deep_view();
    let delimiter_chars = match &delimiter {
        None => None,
        Some(d) => Some(chars_of(d.as_str())),
    };
    assert(delimiter_chars.deep_view() =~= delimiter.deep_view()) by {
        if delimiter_chars is Some {
            assert(delimiter_chars->0.deep_view() =~= delimiter_chars->0@);
        }
    }
    let keys = keys(&lines, column, &delimiter_chars);
    let perm = rank_all(&keys);
    let picks = last_of_each(&keys, &perm);
    proof {
        lemma_picks_by_key(l, column as nat, delimiter.deep_view(), picks@);
        lemma_picked_reverse(l, picks@);
        lemma_sorted_by_key(l, column as nat, delimiter.deep_view());
        lemma_in_order(by_key(l, column as nat, delimiter.deep_view()), order);
    }
    match order {
        Order::Asc => gather(lines, &picks),
        Order::Desc => {
            let back = reversed(&picks);
            gather(lines, &back)
        },
    }
}

/// Sorts lines: by the key in field number `column` where one is given, else
/// as whole lines.
pub fn sort(lines: Vec<String>, order: Order, column: Option<usize>, delimiter: Option<String>) -> (out:
    Vec<String>)
    ensures
        out.deep_view() == sorted(
            lines.deep_view(),
            order,
            column_number(column),
            delimiter.deep_view(),
        ),
{
    match column {
        Some(c) => sort_btree(lines, order, c, delimiter),
        None => sort_heap(lines, order),
    }
}

} // verus!
