//! The six commands, their options, and the output of each.

use crate::count::{wc, word_counts};
use crate::error::InvalidInput;
use crate::output::{pass_to_stdout, written};
use crate::sort::{column_number, sort, sorted, Order};
use crate::text::{rank, Rank};
use crate::uniq::{distinct, uniq};
use crate::window::{first_lines, head, last_lines, later_lines, skip, tail};
use vstd::prelude::*;

verus! {

/// What to do with the lines.
#[derive(Clone, Copy, Debug, PartialEq, Eq, Structural)]
pub enum Command {
    Sort,
    Head,
    Skip,
    Tail,
    Uniq,
    Wc,
}

/// The command that a name stands for.
pub open spec fn command_named(name: Seq<char>) -> Result<Command, InvalidInput> {
    if name == "sort"@ {
        Ok(Command::Sort)
    } else if name == "head"@ {
        Ok(Command::Head)
    } else if name == "skip"@ {
        Ok(Command::Skip)
    } else if name == "tail"@ {
        Ok(Command::Tail)
    } else if name == "uniq"@ {
        Ok(Command::Uniq)
    } else if name == "wc"@ {
        Ok(Command::Wc)
    } else {
        Err(InvalidInput)
    }
}

/// Tells whether two texts are the same.
fn same(a: &str, b: &str) -> (r: bool)
    ensures
        r == (a@ == b@),
{
    match rank(a, b) {
        Rank::Same => true,
        _ => false,
    }
}

impl Command {
    /// Reads a command from its name: `sort`, `head`, `skip`, `tail`, `uniq`
    /// or `wc`.
    pub fn from_str(s: &str) -> (r: Result<Command, InvalidInput>)
        ensures
            r == command_named(s@),
    {
        if same(s, "sort") {
            Ok(Command::Sort)
        } else if same(s, "head") {
            Ok(Command::Head)
        } else if same(s, "skip") {
            Ok(Command::Skip)
        } else if same(s, "tail") {
            Ok(Command::Tail)
        } else if same(s, "uniq") {
            Ok(Command::Uniq)
        } else if same(s, "wc") {
            Ok(Command::Wc)
        } else {
            Err(InvalidInput)
        }
    }
}

/// The options of a run. An option that is absent is `None`.
#[derive(Clone, Debug)]
pub struct Options {
    /// The number of lines for head, skip and tail; 0 where absent.
    pub lines: Option<usize>,
    /// The field by which to sort, counted from 1; whole lines where absent.
    pub column: Option<usize>,
    /// The text that separates fields; whitespace where absent.
    pub delimiter: Option<String>,
    /// The direction of sorting; ascending where absent.
    pub order: Option<Order>,
}

impl Options {
    /// The number of lines that head, skip and tail work with.
    pub open spec fn count(&self) -> nat {
        match self.lines {
            Some(n) => n as nat,
            None => 0,
        }
    }

    /// The direction in which sorted lines come out.
    pub open spec fn direction(&self) -> Order {
        match self.order {
            Some(order) => order,
            None => Order::Asc,
        }
    }
}

/// The lines that `command` makes of `lines`; for `Wc`, which writes
/// counts, none.
pub open spec fn lines_of(command: Command, lines: Seq<Seq<char>>, options: Options) -> Seq<Seq<char>> {
    match command {
        Command::Sort => sorted(
            lines,
            options.direction(),
            column_number(options.column),
            options.delimiter.deep_view(),
        ),
        Command::Head => first_lines(lines, options.count()),
        Command::Skip => later_lines(lines, options.count()),
        Command::Tail => last_lines(lines, options.count()),
        Command::Uniq => distinct(lines),
        Command::Wc => Seq::empty(),
    }
}

/// The text that `command` writes for `lines`: its lines, each with a line
/// feed after it; for `Wc` the three counts, with no line feed.
pub open spec fn output_of(command: Command, lines: Seq<Seq<char>>, options: Options) -> Seq<char> {
    match command {
        Command::Wc => word_counts(lines),
        _ => written(lines_of(command, lines, options)),
    }
}

/// The number of lines from the start of the input that decide the output,
/// where the rest cannot change it.
pub open spec fn lines_needed(command: Command, options: Options) -> Option<usize> {
    match command {
        Command::Head => Some(
            match options.lines {
                Some(n) => n,
                None => 0,
            },
        ),
        _ => None,
    }
}

/// How many lines of input `command` has to see: the number returned, or
/// all of them.
pub fn input_limit(command: Command, options: &Options) -> (limit: Option<usize>)
    ensures
        limit == lines_needed(command, *options),
{
    match command {
        Command::Head => Some(
            match options.lines {
                Some(n) => n,
                None => 0,
            },
        ),
        _ => None,
    }
}

/// The input cut off at the limit gives the output of the whole input.
pub proof fn lemma_limit_suffices(command: Command, lines: Seq<Seq<char>>, options: Options)
    requires
        lines_needed(command, options) is Some,
    ensures
        output_of(command, first_lines(lines, lines_needed(command, options)->0 as nat), options)
            == output_of(command, lines, options),
{
    let limit = lines_needed(command, options)->0 as nat;
    assert(first_lines(first_lines(lines, limit), limit) =~= first_lines(lines, limit));
}

/// Runs `command` on `lines` and gives the text to write.
pub fn run(command: Command, lines: Vec<String>, options: Options) -> (text: String)
    ensures
        text@ == output_of(command, lines.deep_view(), options),
{
    let count = match options.lines {
        Some(n) => n,
        None => 0,
    };
    let order = match options.order {
        Some(order) => order,
        None => Order::Asc,
    };
    match command {
        Command::Sort => {
            let out = sort(lines, order, options.column, options.delimiter);
            pass_to_stdout(&out)
        },
        Command::Head => {
            let out = head(lines, count);
            pass_to_stdout(&out)
        },
        Command::Skip => {
            let out = skip(lines, count);
            pass_to_stdout(&out)
        },
        Command::Tail => {
            let out = tail(lines, count);
            pass_to_stdout(&out)
        },
        Command::Uniq => {
            let out = uniq(lines);
            pass_to_stdout(&out)
        },
        Command::Wc => wc(&lines),
    }
}

} // verus!
