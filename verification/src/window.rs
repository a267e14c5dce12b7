//! Taking lines from the start or the end of the input: head, skip and tail.

use std::collections::VecDeque;
use vstd::math::{max, min};
use vstd::prelude::*;

verus! {

/// The first `count` lines, or all of them where there are fewer.
pub open spec fn first_lines(lines: Seq<Seq<char>>, count: nat) -> Seq<Seq<char>> {
    lines.take(min(count as int, lines.len() as int))
}

/// The lines after the first `count`; none where there are no more than `count`.
pub open spec fn later_lines(lines: Seq<Seq<char>>, count: nat) -> Seq<Seq<char>> {
    lines.skip(min(count as int, lines.len() as int))
}

/// The last `count` lines, or all of them where there are fewer.
pub open spec fn last_lines(lines: Seq<Seq<char>>, count: nat) -> Seq<Seq<char>> {
    lines.skip(lines.len() - min(count as int, lines.len() as int))
}

/// Keeps the first `count` lines, in their order.
pub fn head(lines: Vec<String>, count: usize) -> (out: Vec<String>)
    ensures
        out.deep_view() == first_lines(lines.deep_view(), count as nat),
        out.len() == min(count as int, lines.len() as int),
{
    let mut out = lines;
    out.truncate(count);
    assert(out.deep_view() =~= first_lines(lines.deep_view(), count as nat));
    out
}

/// Drops the first `count` lines and keeps the rest, in their order.
pub fn skip(lines: Vec<String>, count: usize) -> (out: Vec<String>)
    ensures
        out.deep_view() == later_lines(lines.deep_view(), count as nat),
        out.len() == max(0, lines.len() - count),
{
    let mut front = lines;
    if count <= front.len() {
        let out = front.split_off(count);
        assert(out.deep_view() =~= later_lines(lines.deep_view(), count as nat));
        out
    } else {
        let out: Vec<String> = Vec::new();
        assert(out.deep_view() =~= later_lines(lines.deep_view(), count as nat));
        out
    }
}

/// A window over the most recent lines of a stream: it holds no more than
/// its capacity, and gives up the oldest line for a new one.
pub struct Window {
    capacity: usize,
    held: VecDeque<String>,
}

impl View for Window {
    type V = Seq<Seq<char>>;

    /// The lines in the window, oldest first.
    closed spec fn view(&self) -> Seq<Seq<char>> {
        self.held.deep_view()
    }
}

impl Window {
    /// The number of lines that the window can hold.
    pub closed spec fn capacity(&self) -> nat {
        self.capacity as nat
    }

    /// The window holds no more lines than its capacity.
    pub closed spec fn wf(&self) -> bool {
        self.held@.len() <= self.capacity
    }

    /// An empty window for `capacity` lines.
    pub fn new(capacity: usize) -> (window: Window)
        ensures
            window.wf(),
            window@ == Seq::<Seq<char>>::empty(),
            window.capacity() == capacity,
    {
        let window = Window { capacity, held: VecDeque::new() };
        assert(window@ =~= Seq::<Seq<char>>::empty());
        window
    }

    /// Takes in `line`; a full window gives up its oldest line first.
    pub fn push(&mut self, line: String)
        requires
            old(self).wf(),
        ensures
            final(self).wf(),
            final(self).capacity() == old(self).capacity(),
            final(self)@ == last_lines(old(self)@.push(line@), old(self).capacity()),
            final(self)@.len() <= final(self).capacity(),
    {
        if self.capacity == 0 {
            assert(self@ =~= last_lines(old(self)@.push(line@), old(self).capacity()));
            return;
        }
        if self.held.len() == self.capacity {
            self.held.pop_front();
        }
        self.held.push_back(line);
        assert(self@ =~= last_lines(old(self)@.push(line@), old(self).capacity()));
    }

    /// The lines in the window, oldest first.
    pub fn into_lines(self) -> (out: Vec<String>)
        ensures
            out.deep_view() == self@,
    {
        let out = unload(self.held);
        assert(out.deep_view() =~= self@);
        out
    }
}

/// Moves the lines of a queue into a list, first to last.
fn unload(queue: VecDeque<String>) -> (out: Vec<String>)
    ensures
        out@ == queue@,
{
    let mut rest = queue;
    let mut out: Vec<String> = Vec::new();
    loop
        invariant
            out@ + rest@ == queue@,
        decreases rest@.len(),
    {
        match rest.pop_front() {
            Some(line) => {
                out.push(line);
                assert(out@ + rest@ =~= queue@);
            },
            None => {
                assert(out@ =~= queue@);
                return out;
            },
        }
    }
}

/// Keeps the last `count` lines, in their order.
pub fn tail(lines: Vec<String>, count: usize) -> (out: Vec<String>)
    ensures
        out.deep_view() == last_lines(lines.deep_view(), count as nat),
        out.len() == min(count as int, lines.len() as int),
{
    let ghost l = lines.deep_view();
    let mut window = Window::new(count);
    assert(l.take(0) =~= Seq::empty());
    for line in it: lines
        invariant
            it.seq() == lines@,
            l == lines.deep_view(),
            window.wf(),
            window.capacity() == count,
            window@ == last_lines(l.take(it.index() as int), count as nat),
    {
        assert(l.take(it.index() + 1) =~= l.take(it.index() as int).push(line@));
        assert(last_lines(last_lines(l.take(it.index() as int), count as nat).push(line@), count as nat)
            =~= last_lines(l.take(it.index() as int).push(line@), count as nat));
        window.push(line);
    }
    assert(l.take(l.len() as int) =~= l);
    window.into_lines()
}

} // verus!
