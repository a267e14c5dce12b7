//! Fields of a line: runs of text between whitespace, or between
//! occurrences of a literal delimiter, and the sort key taken from them.

use vstd::prelude::*;
use vstd::std_specs::iter::IteratorSpec;

verus! {

/// Whether `c` is whitespace: one of the characters that Unicode marks as
/// White_Space.
pub open spec fn is_whitespace(c: char) -> bool {
    ||| '\u{9}' <= c <= '\u{D}'
    ||| c == ' '
    ||| c == '\u{85}'
    ||| c == '\u{A0}'
    ||| c == '\u{1680}'
    ||| '\u{2000}' <= c <= '\u{200A}'
    ||| c == '\u{2028}'
    ||| c == '\u{2029}'
    ||| c == '\u{202F}'
    ||| c == '\u{205F}'
    ||| c == '\u{3000}'
}

/// Tells whether `c` is whitespace.
pub fn whitespace(c: char) -> (r: bool)
    ensures
        r == is_whitespace(c),
{
    ('\u{9}' <= c && c <= '\u{D}') || c == ' ' || c == '\u{85}' || c == '\u{A0}' || c
        == '\u{1680}' || ('\u{2000}' <= c && c <= '\u{200A}') || c == '\u{2028}' || c
        == '\u{2029}' || c == '\u{202F}' || c == '\u{205F}' || c == '\u{3000}'
}

/// Length of the longest prefix of `s` that holds no whitespace.
pub open spec fn run_len(s: Seq<char>) -> nat
    decreases s.len(),
{
    if s.len() == 0 || is_whitespace(s[0]) {
        0
    } else {
        1 + run_len(s.drop_first())
    }
}

/// The run at the start of `s` lies within `s`, and ends at whitespace or at
/// the end of `s`.
pub proof fn lemma_run_len(s: Seq<char>)
    ensures
        run_len(s) <= s.len(),
        forall|i: int| 0 <= i < run_len(s) ==> !is_whitespace(#[trigger] s[i]),
        run_len(s) < s.len() ==> is_whitespace(s[run_len(s) as int]),
    decreases s.len(),
{
    if s.len() > 0 && !is_whitespace(s[0]) {
        lemma_run_len(s.drop_first());
        assert forall|i: int| 0 <= i < run_len(s) implies !is_whitespace(#[trigger] s[i]) by {
            if i > 0 {
                assert(s[i] == s.drop_first()[i - 1]);
            }
        }
    }
}

/// The maximal runs of non-whitespace characters of `s`, from left to right.
pub open spec fn ws_fields(s: Seq<char>) -> Seq<Seq<char>>
    decreases s.len(),
{
    if s.len() == 0 {
        Seq::empty()
    } else if is_whitespace(s[0]) {
        ws_fields(s.drop_first())
    } else {
        proof {
            lemma_run_len(s);
        }
        seq![s.take(run_len(s) as int)] + ws_fields(s.skip(run_len(s) as int))
    }
}

/// Counts the words of `line`: its maximal runs of non-whitespace characters.
pub fn word_count(line: &str) -> (words: usize)
    ensures
        words == ws_fields(line@).len(),
{
    broadcast use vstd::string::group_string_axioms;

    let bytes = line.as_bytes();
    proof {
        lemma_encoding_len(line@);
        vstd::slice::axiom_spec_len(bytes);
    }
    let mut rest = line.chars();
    let mut words: usize = 0;
    let mut in_word = false;
    let ghost mut done: int = 0;
    assert(line@.skip(0) =~= line@);
    loop
        invariant
            0 <= done <= line@.len() <= usize::MAX,
            rest.remaining() == line@.skip(done),
            rest.decrease() is Some,
            words <= done,
            !in_word ==> ws_fields(line@).len() == words + ws_fields(line@.skip(done)).len(),
            in_word ==> ws_fields(line@).len() == words + ws_fields(
                line@.skip(done).skip(run_len(line@.skip(done)) as int),
            ).len(),
        decreases rest.decrease()->0,
    {
        let ghost r = line@.skip(done);
        proof {
            lemma_run_len(r);
            if r.len() > 0 {
                assert(r.drop_first() =~= line@.skip(done + 1));
                lemma_run_len(r.drop_first());
                if !is_whitespace(r[0]) {
                    assert(r.skip(run_len(r) as int) =~= r.drop_first().skip(
                        run_len(r.drop_first()) as int,
                    ));
                }
            } else {
                assert(r.skip(0) =~= r);
            }
        }
        match rest.next() {
            None => {
                return words;
            },
            Some(c) => {
                if whitespace(c) {
                    in_word = false;
                    proof {
                        assert(r.skip(0) =~= r);
                    }
                } else if !in_word {
                    in_word = true;
                    words = words + 1;
                }
                proof {
                    done = done + 1;
                }
            },
        }
    }
}

/// Whether an occurrence of `d` starts at position `p` of `s`.
pub open spec fn matches_at(s: Seq<char>, d: Seq<char>, p: int) -> bool {
    0 <= p && p + d.len() <= s.len() && s.subrange(p, p + d.len()) == d
}

/// Position of the leftmost occurrence of `d` in `s`, if there is one.
pub open spec fn first_match(s: Seq<char>, d: Seq<char>) -> Option<int>
    decreases s.len(),
{
    if matches_at(s, d, 0) {
        Some(0)
    } else if s.len() == 0 {
        None
    } else {
        match first_match(s.drop_first(), d) {
            Some(p) => Some(p + 1),
            None => None,
        }
    }
}

/// An occurrence in `s` without its first character is one in `s`, one place on.
pub proof fn lemma_matches_shift(s: Seq<char>, d: Seq<char>, from: int, p: int)
    requires
        0 <= from <= s.len(),
    ensures
        matches_at(s.skip(from), d, p) == (0 <= p && matches_at(s, d, from + p)),
{
    if 0 <= p && from + p + d.len() <= s.len() {
        assert(s.skip(from).subrange(p, p + d.len()) =~= s.subrange(from + p, from + p + d.len()));
    }
}

/// `first_match` finds an occurrence, and none starts before it; it finds
/// none only where there is none.
pub proof fn lemma_first_match(s: Seq<char>, d: Seq<char>)
    ensures
        match first_match(s, d) {
            Some(p) => matches_at(s, d, p) && forall|q: int| 0 <= q < p ==> !matches_at(s, d, q),
            None => forall|q: int| !matches_at(s, d, q),
        },
    decreases s.len(),
{
    if s.len() > 0 && !matches_at(s, d, 0) {
        lemma_first_match(s.drop_first(), d);
        assert forall|q: int| matches_at(s.drop_first(), d, q) == (0 <= q && matches_at(s, d, 1 + q)) by {
            lemma_matches_shift(s, d, 1, q);
        }
        match first_match(s.drop_first(), d) {
            Some(p) => {
                assert forall|q: int| 0 <= q < p + 1 implies !matches_at(s, d, q) by {
                    if q > 0 {
                        assert(!matches_at(s.drop_first(), d, q - 1));
                    }
                }
            },
            None => {
                assert forall|q: int| !matches_at(s, d, q) by {
                    if q > 0 {
                        assert(!matches_at(s.drop_first(), d, q - 1));
                    }
                }
            },
        }
    }
}

/// The leftmost occurrence is the one before which there is none.
pub proof fn lemma_first_match_is(s: Seq<char>, d: Seq<char>, p: int)
    requires
        matches_at(s, d, p),
        forall|q: int| 0 <= q < p ==> !matches_at(s, d, q),
    ensures
        first_match(s, d) == Some(p),
{
    lemma_first_match(s, d);
}

/// The pieces of `s` between the occurrences of `d`, found from left to right
/// without overlap. An empty `d` occurs before and after every character.
pub open spec fn split_on(s: Seq<char>, d: Seq<char>) -> Seq<Seq<char>>
    decreases s.len(),
{
    if d.len() == 0 {
        seq![Seq::empty()] + s.map_values(|c: char| seq![c]) + seq![Seq::empty()]
    } else {
        match first_match(s, d) {
            None => seq![s],
            Some(p) => {
                proof {
                    lemma_first_match(s, d);
                }
                seq![s.take(p)] + split_on(s.skip(p + d.len()), d)
            },
        }
    }
}

/// The fields of `line`: split at whitespace where no delimiter is given,
/// else at the delimiter.
pub open spec fn fields_of(line: Seq<char>, delimiter: Option<Seq<char>>) -> Seq<Seq<char>> {
    match delimiter {
        None => ws_fields(line),
        Some(d) => split_on(line, d),
    }
}

/// The key by which a line is sorted: its field number `column`, counted
/// from 1, and the whole line where it has no such field.
pub open spec fn key_of(line: Seq<char>, column: nat, delimiter: Option<Seq<char>>) -> Seq<char> {
    let fields = fields_of(line, delimiter);
    if 1 <= column <= fields.len() {
        fields[column - 1]
    } else {
        line
    }
}

/// What a search for field number `column` among `fields` of `s` returns:
/// the range of `s` that the field takes, or nothing where it is absent.
pub open spec fn locates(
    found: Option<(usize, usize)>,
    s: Seq<char>,
    fields: Seq<Seq<char>>,
    column: nat,
) -> bool {
    match found {
        Some((from, to)) => {
            &&& 1 <= column <= fields.len()
            &&& from <= to <= s.len()
            &&& fields[column - 1] == s.subrange(from as int, to as int)
        },
        None => !(1 <= column <= fields.len()),
    }
}

/// The characters of `s`.
pub(crate) fn chars_of(s: &str) -> (chars: Vec<char>)
    ensures
        chars@ == s@,
{
    broadcast use vstd::string::group_string_axioms;

    let mut chars: Vec<char> = Vec::new();
    let mut rest = s.chars();
    let ghost mut done: int = 0;
    assert(s@.skip(0) =~= s@);
    loop
        invariant
            0 <= done <= s@.len(),
            rest.remaining() == s@.skip(done),
            rest.decrease() is Some,
            chars@ == s@.take(done),
        decreases rest.decrease()->0,
    {
        match rest.next() {
            None => {
                assert(s@.take(done) =~= s@);
                return chars;
            },
            Some(c) => {
                chars.push(c);
                proof {
                    assert(s@.skip(done).drop_first() =~= s@.skip(done + 1));
                    assert(s@.take(done).push(c) =~= s@.take(done + 1));
                    done = done + 1;
                }
            },
        }
    }
}

/// A run that ends at whitespace, or at the end, is the whole run.
proof fn lemma_run_len_is(s: Seq<char>, k: int)
    requires
        0 <= k <= s.len(),
        forall|i: int| 0 <= i < k ==> !is_whitespace(#[trigger] s[i]),
        k < s.len() ==> is_whitespace(s[k]),
    ensures
        run_len(s) == k,
{
    lemma_run_len(s);
    if run_len(s) < k {
        assert(is_whitespace(s[run_len(s) as int]));
    }
}

/// Finds field number `column` among the whitespace-separated fields.
pub(crate) fn ws_field(chars: &Vec<char>, column: usize) -> (found: Option<(usize, usize)>)
    ensures
        locates(found, chars@, ws_fields(chars@), column as nat),
{
    if column == 0 {
        return None;
    }
    let n = chars.len();
    let mut i: usize = 0;
    let mut seen: usize = 0;
    let ghost mut before: Seq<Seq<char>> = Seq::empty();
    assert(chars@.skip(0) =~= chars@);
    while i < n
        invariant
            n == chars.len(),
            i <= n,
            seen < column,
            before.len() == seen,
            ws_fields(chars@) == before + ws_fields(chars@.skip(i as int)),
        decreases n - i,
    {
        let ghost rest = chars@.skip(i as int);
        if whitespace(chars[i]) {
            assert(rest.drop_first() =~= chars@.skip(i + 1));
            i = i + 1;
        } else {
            let from = i;
            while i < n && !whitespace(chars[i])
                invariant
                    n == chars.len(),
                    from <= i <= n,
                    forall|q: int| from <= q < i ==> !is_whitespace(#[trigger] chars@[q]),
                decreases n - i,
            {
                i = i + 1;
            }
            proof {
                lemma_run_len_is(rest, i - from);
                assert(rest.take(i - from) =~= chars@.subrange(from as int, i as int));
                assert(rest.skip(i - from) =~= chars@.skip(i as int));
                assert(before + (seq![rest.take(i - from)] + ws_fields(rest.skip(i - from)))
                    =~= before.push(rest.take(i - from)) + ws_fields(rest.skip(i - from)));
            }
            if seen + 1 == column {
                return Some((from, i));
            }
            seen = seen + 1;
            proof {
                before = before.push(rest.take(i - from));
            }
        }
    }
    assert(ws_fields(chars@.skip(i as int)) =~= Seq::empty());
    None
}

/// Tells whether an occurrence of `delimiter` starts at position `p`.
pub(crate) fn occurs_at(chars: &Vec<char>, delimiter: &Vec<char>, p: usize) -> (r: bool)
    requires
        p + delimiter.len() <= chars.len(),
    ensures
        r == matches_at(chars@, delimiter@, p as int),
{
    let m = delimiter.len();
    let mut j: usize = 0;
    while j < m
        invariant
            m == delimiter.len(),
            j <= m,
            p + m <= chars.len(),
            forall|q: int| 0 <= q < j ==> chars@[p + q] == delimiter@[q],
        decreases m - j,
    {
        if chars[p + j] != delimiter[j] {
            assert(chars@.subrange(p as int, p + m)[j as int] != delimiter@[j as int]);
            return false;
        }
        j = j + 1;
    }
    assert(chars@.subrange(p as int, p + m) =~= delimiter@);
    true
}

/// Finds field number `column` among the fields that `delimiter` separates.
pub(crate) fn split_field(chars: &Vec<char>, delimiter: &Vec<char>, column: usize) -> (found: Option<
    (usize, usize),
>)
    ensures
        locates(found, chars@, split_on(chars@, delimiter@), column as nat),
{
    let n = chars.len();
    let m = delimiter.len();
    if column == 0 {
        return None;
    }
    if m == 0 {
        let ghost singles = chars@.map_values(|c: char| seq![c]);
        let ghost all = seq![Seq::<char>::empty()] + singles + seq![Seq::<char>::empty()];
        assert(all.len() == n + 2);
        if column == 1 {
            assert(all[0] =~= chars@.subrange(0, 0));
            return Some((0, 0));
        }
        if column - 2 < n {
            assert(all[column - 1] =~= chars@.subrange(column - 2, column - 1));
            return Some((column - 2, column - 1));
        }
        if column - 2 == n {
            assert(all[column - 1] =~= chars@.subrange(n as int, n as int));
            return Some((n, n));
        }
        return None;
    }
    let mut from: usize = 0;
    let mut p: usize = 0;
    let mut seen: usize = 0;
    let ghost mut before: Seq<Seq<char>> = Seq::empty();
    assert(chars@.skip(0) =~= chars@);
    loop
        invariant
            n == chars.len(),
            m == delimiter.len(),
            m > 0,
            from <= p <= n,
            seen < column,
            before.len() == seen,
            split_on(chars@, delimiter@) == before + split_on(chars@.skip(from as int), delimiter@),
            forall|q: int| from <= q < p ==> !matches_at(chars@, delimiter@, q),
        decreases n - p,
    {
        let ghost rest = chars@.skip(from as int);
        proof {
            assert forall|q: int| matches_at(rest, delimiter@, q) == (0 <= q && matches_at(
                chars@,
                delimiter@,
                from + q,
            )) by {
                lemma_matches_shift(chars@, delimiter@, from as int, q);
            }
            lemma_first_match(rest, delimiter@);
        }
        if m > n - p {
            assert(first_match(rest, delimiter@) is None) by {
                if first_match(rest, delimiter@) is Some {
                    let q = first_match(rest, delimiter@)->0;
                    assert(matches_at(chars@, delimiter@, from + q));
                }
            }
            assert(rest =~= chars@.subrange(from as int, n as int));
            assert(before + seq![rest] =~= before.push(rest));
            if seen + 1 == column {
                return Some((from, n));
            }
            return None;
        }
        if occurs_at(chars, delimiter, p) {
            proof {
                lemma_first_match_is(rest, delimiter@, p - from);
                assert(rest.take(p - from) =~= chars@.subrange(from as int, p as int));
                assert(rest.skip(p - from + m) =~= chars@.skip(p + m));
                assert(before + (seq![rest.take(p - from)] + split_on(
                    rest.skip(p - from + m),
                    delimiter@,
                )) =~= before.push(rest.take(p - from)) + split_on(
                    rest.skip(p - from + m),
                    delimiter@,
                ));
            }
            if seen + 1 == column {
                return Some((from, p));
            }
            proof {
                before = before.push(rest.take(p - from));
            }
            seen = seen + 1;
            p = p + m;
            from = p;
        } else {
            p = p + 1;
        }
    }
}

/// The sort key of `line`, with the delimiter given by its characters.
pub(crate) fn key_in(line: &str, column: usize, delimiter: &Option<Vec<char>>) -> (key: String)
    ensures
        key@ == key_of(line@, column as nat, delimiter.deep_view()),
{
    let chars = chars_of(line);
    let found = match delimiter {
        None => ws_field(&chars, column),
        Some(d) => {
            assert(d.deep_view() =~= d@);
            split_field(&chars, d, column)
        },
    };
    match found {
        Some((from, to)) => line.substring_char(from, to).to_owned(),
        None => line.to_owned(),
    }
}

/// The sort key of `line`: its field number `column`, counted from 1, among
/// the fields that whitespace or `delimiter` separates; the whole line where
/// it has no such field.
pub fn sort_key(line: &str, column: usize, delimiter: Option<&str>) -> (key: String)
    ensures
        key@ == key_of(line@, column as nat, delimiter.deep_view()),
{
    let separator = match delimiter {
        None => None,
        Some(d) => Some(chars_of(d)),
    };
    assert(separator is Some ==> separator->0.deep_view() =~= separator->0@);
    key_in(line, column, &separator)
}

/// Every character takes at least one byte in UTF-8.
pub proof fn lemma_encoding_len(s: Seq<char>)
    ensures
        s.len() <= vstd::utf8::encode_utf8(s).len(),
    decreases s.len(),
{
    if s.len() > 0 {
        lemma_encoding_len(s.drop_first());
    }
}

} // verus!
