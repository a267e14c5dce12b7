//! The text that goes to the output.

use vstd::prelude::*;

verus! {

/// The lines as they are written: each followed by a line feed.
pub open spec fn written(lines: Seq<Seq<char>>) -> Seq<char>
    decreases lines.len(),
{
    if lines.len() == 0 {
        Seq::empty()
    } else {
        written(lines.drop_last()) + lines.last() + seq!['\n']
    }
}

/// Renders `lines` for the output: every line, in order, with a line feed
/// after it.
pub fn pass_to_stdout(lines: &Vec<String>) -> (text: String)
    ensures
        text@ == written(lines.deep_view()),
{
    let ghost l = lines.deep_view();
    let n = lines.len();
    let mut text = String::new();
    let mut i: usize = 0;
    proof {
        reveal_strlit("\n");
        assert(l.take(0) =~= Seq::empty());
    }
    while i < n
        invariant
            l == lines.deep_view(),
            n == lines.len(),
            i <= n,
            "\n"@ == seq!['\n'],
            text@ == written(l.take(i as int)),
        decreases n - i,
    {
        proof {
            assert(l.take(i + 1).drop_last() =~= l.take(i as int));
        }
        text.append(lines[i].as_str());
        text.append("\n");
        i = i + 1;
    }
    assert(l.take(n as int) =~= l);
    text
}

} // verus!
