//! A bare arena of lines, usable on its own: named signals driven and
//! read by index, with no gates attached.

use vstd::prelude::*;
use crate::line::Line;

verus! {

/// An ordered collection of lines addressed by index.
pub struct LineRegistry {
    pub lines: Vec<Line>,
}

impl View for LineRegistry {
    type V = Seq<Line>;

    open spec fn view(&self) -> Seq<Line> {
        self.lines@
    }
}

impl LineRegistry {
    /// An empty registry.
    pub fn new() -> (r: LineRegistry)
        ensures
            r@ == Seq::<Line>::empty(),
    {
        let r = LineRegistry { lines: Vec::new() };
        proof {
            assert(r@ =~= Seq::<Line>::empty());
        }
        r
    }

    /// How many lines the registry holds.
    pub fn num_lines(&self) -> (n: usize)
        ensures
            n == self@.len(),
    {
        self.lines.len()
    }

    /// Adds one line, initially `Low`, and returns its index.
    pub fn add_line(&mut self) -> (h: usize)
        ensures
            h == old(self)@.len(),
            final(self)@ == old(self)@.push(Line::Low),
    {
        let h = self.lines.len();
        self.lines.push(Line::Low);
        h
    }

    /// Drives a line `High`.
    pub fn drive_high(&mut self, line: usize)
        requires
            line < old(self)@.len(),
        ensures
            final(self)@ == old(self)@.update(line as int, Line::High),
    {
        self.lines.set(line, Line::High);
    }

    /// Drives a line `Low`.
    pub fn drive_low(&mut self, line: usize)
        requires
            line < old(self)@.len(),
        ensures
            final(self)@ == old(self)@.update(line as int, Line::Low),
    {
        self.lines.set(line, Line::Low);
    }

    /// Drives a line to the given state.
    pub fn set_line_state(&mut self, line: usize, state: Line)
        requires
            line < old(self)@.len(),
        ensures
            final(self)@ == old(self)@.update(line as int, state),
    {
        self.lines.set(line, state);
    }

    /// The state currently on a line.
    pub fn get_line_state(&self, line: usize) -> (r: Line)
        requires
            line < self@.len(),
        ensures
            r == self@[line as int],
    {
        self.lines[line]
    }

    /// Deletes a line; indices above it shift down by one.
    pub fn remove(&mut self, line: usize)
        requires
            line < old(self)@.len(),
        ensures
            final(self)@ == old(self)@.remove(line as int),
    {
        let _ = self.lines.remove(line);
    }
}

} // verus!
