//! Ordinal ordering of text.
//!
//! Lines are compared character by character, by code point; a proper prefix
//! comes before every text that extends it. No locale is involved.

use vstd::prelude::*;
use vstd::relations::total_ordering;
use vstd::std_specs::iter::IteratorSpec;

verus! {

/// `a` comes strictly before `b` in ordinal order.
pub open spec fn text_lt(a: Seq<char>, b: Seq<char>) -> bool
    decreases a.len(),
{
    if b.len() == 0 {
        false
    } else if a.len() == 0 {
        true
    } else if a[0] != b[0] {
        a[0] < b[0]
    } else {
        text_lt(a.drop_first(), b.drop_first())
    }
}

/// `a` comes before `b`, or is the same text.
pub open spec fn text_le(a: Seq<char>, b: Seq<char>) -> bool {
    a == b || text_lt(a, b)
}

/// How one text stands to another.
#[derive(Clone, Copy, Debug, PartialEq, Eq, Structural)]
pub enum Rank {
    Before,
    Same,
    After,
}

/// The rank of `a` relative to `b`.
pub open spec fn text_rank(a: Seq<char>, b: Seq<char>) -> Rank {
    if a == b {
        Rank::Same
    } else if text_lt(a, b) {
        Rank::Before
    } else {
        Rank::After
    }
}

/// Two texts that start with the same character compare as their rests do.
pub proof fn lemma_rank_step(a: Seq<char>, b: Seq<char>)
    requires
        a.len() > 0,
        b.len() > 0,
        a[0] == b[0],
    ensures
        text_rank(a, b) == text_rank(a.drop_first(), b.drop_first()),
{
    if a.drop_first() == b.drop_first() {
        assert(a =~= seq![a[0]] + a.drop_first());
        assert(b =~= seq![b[0]] + b.drop_first());
    }
}

/// No text comes before itself.
pub proof fn lemma_lt_irreflexive(a: Seq<char>)
    ensures
        !text_lt(a, a),
    decreases a.len(),
{
    if a.len() > 0 {
        lemma_lt_irreflexive(a.drop_first());
    }
}

/// Of two texts at most one comes before the other.
pub proof fn lemma_lt_asymmetric(a: Seq<char>, b: Seq<char>)
    ensures
        !(text_lt(a, b) && text_lt(b, a)),
    decreases a.len(),
{
    if a.len() > 0 && b.len() > 0 && a[0] == b[0] {
        lemma_lt_asymmetric(a.drop_first(), b.drop_first());
    }
}

/// "Comes before" is transitive.
pub proof fn lemma_lt_transitive(a: Seq<char>, b: Seq<char>, c: Seq<char>)
    requires
        text_lt(a, b),
        text_lt(b, c),
    ensures
        text_lt(a, c),
    decreases a.len(),
{
    if a.len() > 0 && a[0] == b[0] && b[0] == c[0] {
        lemma_lt_transitive(a.drop_first(), b.drop_first(), c.drop_first());
    }
}

/// Any two texts are the same, or one comes before the other.
pub proof fn lemma_lt_connected(a: Seq<char>, b: Seq<char>)
    ensures
        a == b || text_lt(a, b) || text_lt(b, a),
    decreases a.len(),
{
    if a.len() > 0 && b.len() > 0 && a[0] == b[0] {
        lemma_lt_connected(a.drop_first(), b.drop_first());
        lemma_rank_step(a, b);
    } else if a.len() == 0 && b.len() == 0 {
        assert(a =~= b);
    }
}

/// Ordinal order is a total order on texts.
pub proof fn lemma_text_le_total()
    ensures
        total_ordering(|a: Seq<char>, b: Seq<char>| text_le(a, b)),
{
    let le = |a: Seq<char>, b: Seq<char>| text_le(a, b);
    assert forall|a: Seq<char>, b: Seq<char>| #[trigger] le(a, b) && #[trigger] le(b, a) implies a
        == b by {
        lemma_lt_asymmetric(a, b);
    }
    assert forall|a: Seq<char>, b: Seq<char>, c: Seq<char>| #[trigger]
        le(a, b) && #[trigger] le(b, c) implies le(a, c) by {
        if a != b && b != c {
            lemma_lt_transitive(a, b, c);
        }
    }
    assert forall|a: Seq<char>, b: Seq<char>| #[trigger] le(a, b) || #[trigger] le(b, a) by {
        lemma_lt_connected(a, b);
    }
}

/// Compares two texts in ordinal order.
pub fn rank(a: &str, b: &str) -> (r: Rank)
    ensures
        r == text_rank(a@, b@),
{
    broadcast use vstd::string::group_string_axioms;

    let mut rest_a = a.chars();
    let mut rest_b = b.chars();
    let ghost mut done: int = 0;
    assert(a@.skip(0) =~= a@ && b@.skip(0) =~= b@);
    loop
        invariant
            0 <= done <= a@.len(),
            done <= b@.len(),
            rest_a.remaining() == a@.skip(done),
            rest_b.remaining() == b@.skip(done),
            text_rank(a@, b@) == text_rank(a@.skip(done), b@.skip(done)),
            rest_a.decrease() is Some,
        decreases rest_a.decrease()->0,
    {
        proof {
            let ra = a@.skip(done);
            let rb = b@.skip(done);
            if ra.len() > 0 && rb.len() > 0 && ra[0] == rb[0] {
                lemma_rank_step(ra, rb);
                assert(ra.drop_first() =~= a@.skip(done + 1));
                assert(rb.drop_first() =~= b@.skip(done + 1));
            }
            if ra.len() == 0 && rb.len() == 0 {
                assert(ra =~= rb);
            }
        }
        match (rest_a.next(), rest_b.next()) {
            (None, None) => {
                return Rank::Same;
            },
            (None, Some(_)) => {
                return Rank::Before;
            },
            (Some(_), None) => {
                return Rank::After;
            },
            (Some(x), Some(y)) => {
                if x < y {
                    return Rank::Before;
                }
                if y < x {
                    return Rank::After;
                }
                proof {
                    done = done + 1;
                }
            },
        }
    }
}

} // verus!
