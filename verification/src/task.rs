//! The work cursor: a half-open index interval `[start, end)` whose
//! endpoints a worker moves forward as it consumes units and a thief
//! reassigns during a steal.

use vstd::prelude::*;
use core::ops::Range;
use crate::task_list::TaskList;

verus! {

/// A half-open interval `[start, end)` of work-unit indexes.
///
/// One `Task` value serves both as an immutable range (an entry of a
/// range list) and as a worker's cursor over its currently assigned,
/// unconsumed work.
#[derive(Clone, Copy, Debug, PartialEq, Eq, Structural)]
pub struct Task {
    pub start: u64,
    pub end: u64,
}

/// An ordered list of ranges.
pub type Tasks = Vec<Task>;

/// A list of range lists, one share per worker.
pub type TaskGroup = Vec<Tasks>;

/// The number of units a range still covers, saturating at zero when a
/// transiently observed `start` lies past `end`.
pub open spec fn task_len(t: Task) -> int {
    if t.start <= t.end {
        t.end - t.start
    } else {
        0
    }
}

impl Task {
    /// How many units this cursor still covers; zero when `start` has
    /// run past `end`.
    pub fn remain(&self) -> (r: u64)
        ensures
            r == task_len(*self),
    {
        let start = self.start();
        let end = self.end();
        if end >= start {
            end - start
        } else {
            0
        }
    }

    pub fn start(&self) -> (r: u64)
        ensures
            r == self.start,
    {
        self.start
    }

    pub fn set_start(&mut self, start: u64)
        ensures
            final(self).start == start,
            final(self).end == old(self).end,
    {
        self.start = start;
    }

    /// Advances `start` by `value`, returning the previous value.
    pub fn fetch_add_start(&mut self, value: u64) -> (r: u64)
        requires
            old(self).start + value <= u64::MAX,
        ensures
            r == old(self).start,
            final(self).start == old(self).start + value,
            final(self).end == old(self).end,
    {
        let prev = self.start;
        self.start = self.start + value;
        prev
    }

    /// Moves `start` back by `value` (returning excess of an optimistic
    /// claim), returning the previous value.
    pub fn fetch_sub_start(&mut self, value: u64) -> (r: u64)
        requires
            value <= old(self).start,
        ensures
            r == old(self).start,
            final(self).start == old(self).start - value,
            final(self).end == old(self).end,
    {
        let prev = self.start;
        self.start = self.start - value;
        prev
    }

    pub fn end(&self) -> (r: u64)
        ensures
            r == self.end,
    {
        self.end
    }

    pub fn set_end(&mut self, end: u64)
        ensures
            final(self).end == end,
            final(self).start == old(self).start,
    {
        self.end = end;
    }

    /// Advances `end` by `value`, returning the previous value.
    pub fn fetch_add_end(&mut self, value: u64) -> (r: u64)
        requires
            old(self).end + value <= u64::MAX,
        ensures
            r == old(self).end,
            final(self).end == old(self).end + value,
            final(self).start == old(self).start,
    {
        let prev = self.end;
        self.end = self.end + value;
        prev
    }

    /// Moves `end` back by `value`, returning the previous value.
    pub fn fetch_sub_end(&mut self, value: u64) -> (r: u64)
        requires
            value <= old(self).end,
        ensures
            r == old(self).end,
            final(self).end == old(self).end - value,
            final(self).start == old(self).start,
    {
        let prev = self.end;
        self.end = self.end - value;
        prev
    }

    pub fn new(start: u64, end: u64) -> (r: Self)
        ensures
            r.start == start,
            r.end == end,
    {
        Self { start, end }
    }
}

impl From<&(u64, u64)> for Task {
    fn from(value: &(u64, u64)) -> (r: Self) {
        Self::new(value.0, value.1)
    }
}

impl vstd::std_specs::convert::FromSpecImpl<&(u64, u64)> for Task {
    open spec fn obeys_from_spec() -> bool {
        true
    }

    open spec fn from_spec(v: &(u64, u64)) -> Task {
        Task { start: v.0, end: v.1 }
    }
}

impl From<&Range<u64>> for Task {
    fn from(value: &Range<u64>) -> (r: Self) {
        Self::new(value.start, value.end)
    }
}

impl vstd::std_specs::convert::FromSpecImpl<&Range<u64>> for Task {
    open spec fn obeys_from_spec() -> bool {
        true
    }

    open spec fn from_spec(v: &Range<u64>) -> Task {
        Task { start: v.start, end: v.end }
    }
}

impl From<&TaskList> for Task {
    fn from(value: &TaskList) -> (r: Self) {
        Self::new(0, value.len)
    }
}

impl vstd::std_specs::convert::FromSpecImpl<&TaskList> for Task {
    open spec fn obeys_from_spec() -> bool {
        true
    }

    open spec fn from_spec(v: &TaskList) -> Task {
        Task { start: 0, end: v.len }
    }
}

} // verus!
