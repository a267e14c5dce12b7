//! Counting lines, words and bytes.

use crate::fields::{word_count, ws_fields};
use vstd::prelude::*;
use vstd::utf8::encode_utf8;

verus! {

/// The words of all `lines` together.
pub open spec fn total_words(lines: Seq<Seq<char>>) -> nat
    decreases lines.len(),
{
    if lines.len() == 0 {
        0
    } else {
        total_words(lines.drop_last()) + ws_fields(lines.last()).len()
    }
}

/// The bytes of all `lines` together, in UTF-8 and without line ends.
pub open spec fn total_bytes(lines: Seq<Seq<char>>) -> nat
    decreases lines.len(),
{
    if lines.len() == 0 {
        0
    } else {
        total_bytes(lines.drop_last()) + encode_utf8(lines.last()).len()
    }
}

/// The decimal digit that stands for `d`.
pub open spec fn digit(d: nat) -> char {
    ('0' as nat + d) as char
}

/// `n` in decimal digits, without leading zeros.
pub open spec fn decimal(n: nat) -> Seq<char>
    decreases n,
{
    if n < 10 {
        seq![digit(n)]
    } else {
        decimal(n / 10).push(digit(n % 10))
    }
}

/// The three counts as they are written: lines, words and bytes in decimal,
/// one space between them.
pub open spec fn counts_text(lines: nat, words: nat, bytes: nat) -> Seq<char> {
    decimal(lines) + seq![' '] + decimal(words) + seq![' '] + decimal(bytes)
}

/// The count that `wc` writes for `lines`.
pub open spec fn word_counts(lines: Seq<Seq<char>>) -> Seq<char> {
    counts_text(lines.len(), total_words(lines), total_bytes(lines))
}

/// Counts of lines, words and bytes. The counters are wide enough for any
/// list of lines that memory can hold.
#[derive(Clone, Copy, Debug, PartialEq, Eq, Structural)]
pub struct WcData {
    pub lines: u128,
    pub words: u128,
    pub bytes: u128,
}

/// One decimal digit as text.
fn digit_text(d: u8) -> (text: &'static str)
    requires
        d < 10,
    ensures
        text@ == seq![digit(d as nat)],
{
    let text = match d {
        0 => "0",
        1 => "1",
        2 => "2",
        3 => "3",
        4 => "4",
        5 => "5",
        6 => "6",
        7 => "7",
        8 => "8",
        _ => "9",
    };
    proof {
        reveal_strlit("0");
        reveal_strlit("1");
        reveal_strlit("2");
        reveal_strlit("3");
        reveal_strlit("4");
        reveal_strlit("5");
        reveal_strlit("6");
        reveal_strlit("7");
        reveal_strlit("8");
        reveal_strlit("9");
        assert(text@ =~= seq![digit(d as nat)]);
    }
    text
}

/// Appends `n` in decimal to `text`.
pub(crate) fn push_decimal(text: &mut String, n: u128)
    ensures
        final(text)@ == old(text)@ + decimal(n as nat),
{
    let mut low: Vec<u8> = Vec::new();
    let mut rest = n;
    while rest >= 10
        invariant
            decimal(n as nat) == decimal(rest as nat) + Seq::new(
                low.len() as nat,
                |i: int| digit(low@[low.len() - 1 - i] as nat),
            ),
            forall|i: int| 0 <= i < low.len() ==> low@[i] < 10,
        decreases rest,
    {
        let ghost before = low@;
        low.push((rest % 10) as u8);
        proof {
            let tail = Seq::new(before.len() as nat, |i: int| digit(before[before.len() - 1 - i] as nat));
            let next = Seq::new(low.len() as nat, |i: int| digit(low@[low.len() - 1 - i] as nat));
            assert(decimal(rest as nat) == decimal((rest / 10) as nat).push(digit((rest % 10) as nat)));
            assert(decimal((rest / 10) as nat).push(digit((rest % 10) as nat)) + tail =~= decimal(
                (rest / 10) as nat,
            ) + next);
        }
        rest = rest / 10;
    }
    text.append(digit_text(rest as u8));
    let mut i = low.len();
    while i > 0
        invariant
            i <= low.len(),
            forall|j: int| 0 <= j < low.len() ==> low@[j] < 10,
            text@ == old(text)@ + seq![digit(rest as nat)] + Seq::new(
                (low.len() - i) as nat,
                |j: int| digit(low@[low.len() - 1 - j] as nat),
            ),
        decreases i,
    {
        let ghost before = text@;
        i = i - 1;
        text.append(digit_text(low[i]));
        assert(text@ =~= old(text)@ + seq![digit(rest as nat)] + Seq::new(
            (low.len() - i) as nat,
            |j: int| digit(low@[low.len() - 1 - j] as nat),
        ));
    }
    assert(text@ =~= old(text)@ + decimal(n as nat));
}

impl WcData {
    /// Counts the lines, words and bytes of `lines`: a word is a maximal run
    /// of non-whitespace characters, and the bytes are those of the lines'
    /// text in UTF-8.
    pub fn from_iter(lines: &Vec<String>) -> (data: WcData)
        ensures
            data.lines == lines.len(),
            data.words == total_words(lines.deep_view()),
            data.bytes == total_bytes(lines.deep_view()),
    {
        let ghost l = lines.deep_view();
        let mut result = WcData { lines: 0, words: 0, bytes: 0 };
        let n = lines.len();
        let mut i: usize = 0;
        assert(l.take(0) =~= Seq::empty());
        while i < n
            invariant
                l == lines.deep_view(),
                n == lines.len(),
                i <= n,
                result.lines == i,
                result.words == total_words(l.take(i as int)),
                result.bytes == total_bytes(l.take(i as int)),
                result.words <= i * 0xffff_ffff_ffff_ffff,
                result.bytes <= i * 0xffff_ffff_ffff_ffff,
            decreases n - i,
        {
            let line = lines[i].as_str();
            let bytes = line.as_bytes().len();
            let words = word_count(line);
            proof {
                assert(l.take(i + 1).drop_last() =~= l.take(i as int));
                assert(l.take(i + 1).last() == line@);
            }
            result.bytes = result.bytes + bytes as u128;
            result.words = result.words + words as u128;
            result.lines = result.lines + 1;
            i = i + 1;
        }
        assert(l.take(n as int) =~= l);
        result
    }

    /// The counts as text: lines, words and bytes in decimal, separated by
    /// single spaces, with no line end.
    pub fn render(&self) -> (text: String)
        ensures
            text@ == counts_text(self.lines as nat, self.words as nat, self.bytes as nat),
    {
        let mut text = String::new();
        push_decimal(&mut text, self.lines);
        proof {
            reveal_strlit(" ");
        }
        text.append(" ");
        push_decimal(&mut text, self.words);
        text.append(" ");
        push_decimal(&mut text, self.bytes);
        assert(" "@ =~= seq![' ']);
        assert(text@ =~= counts_text(self.lines as nat, self.words as nat, self.bytes as nat));
        text
    }
}

/// Counts the lines, words and bytes of `lines` and writes the three
/// numbers in that order.
pub fn wc(lines: &Vec<String>) -> (text: String)
    ensures
        text@ == word_counts(lines.deep_view()),
{
    let data = WcData::from_iter(lines);
    data.render()
}

} // verus!
