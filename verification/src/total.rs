//! Total length of a range, of a range list, and of a list of range
//! lists, with the summation model the other modules' contracts use.

use vstd::prelude::*;
use crate::task::{Task, Tasks, TaskGroup, task_len};

verus! {

/// Sum of the lengths of all ranges in a list.
pub open spec fn tasks_total(s: Seq<Task>) -> int
    decreases s.len(),
{
    if s.len() == 0 {
        0
    } else {
        tasks_total(s.drop_last()) + task_len(s.last())
    }
}

/// Sum of the lengths over a list of range lists.
pub open spec fn group_total(g: Seq<Tasks>) -> int
    decreases g.len(),
{
    if g.len() == 0 {
        0
    } else {
        group_total(g.drop_last()) + tasks_total(g.last()@)
    }
}

/// All ranges in the list are proper: `start <= end`.
pub open spec fn tasks_wf(s: Seq<Task>) -> bool {
    forall|i: int| 0 <= i < s.len() ==> (#[trigger] s[i]).start <= s[i].end
}

pub proof fn lemma_tasks_total_nonneg(s: Seq<Task>)
    ensures
        tasks_total(s) >= 0,
    decreases s.len(),
{
    if s.len() > 0 {
        lemma_tasks_total_nonneg(s.drop_last());
    }
}

/// Extending a prefix by one element adds that element's length.
pub proof fn lemma_tasks_total_take_step(s: Seq<Task>, i: int)
    requires
        0 <= i < s.len(),
    ensures
        tasks_total(s.take(i + 1)) == tasks_total(s.take(i)) + task_len(s[i]),
{
    assert(s.take(i + 1).drop_last() =~= s.take(i));
    assert(s.take(i + 1).last() == s[i]);
}

/// The total of any prefix is bounded by the total of the whole list.
pub proof fn lemma_tasks_total_prefix_le(s: Seq<Task>, i: int)
    requires
        0 <= i <= s.len(),
    ensures
        tasks_total(s.take(i)) <= tasks_total(s),
    decreases s.len() - i,
{
    if i == s.len() {
        assert(s.take(i) =~= s);
    } else {
        lemma_tasks_total_take_step(s, i);
        lemma_tasks_total_prefix_le(s, i + 1);
        assert(task_len(s[i]) >= 0);
    }
}

pub proof fn lemma_group_total_nonneg(g: Seq<Tasks>)
    ensures
        group_total(g) >= 0,
    decreases g.len(),
{
    if g.len() > 0 {
        lemma_group_total_nonneg(g.drop_last());
        lemma_tasks_total_nonneg(g.last()@);
    }
}

pub proof fn lemma_group_total_take_step(g: Seq<Tasks>, i: int)
    requires
        0 <= i < g.len(),
    ensures
        group_total(g.take(i + 1)) == group_total(g.take(i)) + tasks_total(g[i]@),
{
    assert(g.take(i + 1).drop_last() =~= g.take(i));
    assert(g.take(i + 1).last() == g[i]);
}

pub proof fn lemma_group_total_prefix_le(g: Seq<Tasks>, i: int)
    requires
        0 <= i <= g.len(),
    ensures
        group_total(g.take(i)) <= group_total(g),
    decreases g.len() - i,
{
    if i == g.len() {
        assert(g.take(i) =~= g);
    } else {
        lemma_group_total_take_step(g, i);
        lemma_group_total_prefix_le(g, i + 1);
        lemma_tasks_total_nonneg(g[i]@);
    }
}

/// How many units a value covers in all.
pub trait Total {
    /// When the total is well defined and fits the index type.
    spec fn total_wf(&self) -> bool;

    /// The total as a mathematical integer.
    spec fn total_spec(&self) -> int;

    fn total(&self) -> (r: u64)
        requires
            self.total_wf(),
        ensures
            r == self.total_spec(),
    ;
}

impl Total for Task {
    open spec fn total_wf(&self) -> bool {
        self.start <= self.end
    }

    open spec fn total_spec(&self) -> int {
        self.end - self.start
    }

    fn total(&self) -> (r: u64) {
        self.end - self.start
    }
}

impl Total for Tasks {
    open spec fn total_wf(&self) -> bool {
        tasks_wf(self@) && tasks_total(self@) <= u64::MAX
    }

    open spec fn total_spec(&self) -> int {
        tasks_total(self@)
    }

    fn total(&self) -> (r: u64) {
        let n = self.len();
        let mut acc: u64 = 0;
        let mut i: usize = 0;
        while i < n
            invariant
                n == self@.len(),
                0 <= i <= n,
                tasks_wf(self@),
                tasks_total(self@) <= u64::MAX,
                acc == tasks_total(self@.take(i as int)),
            decreases n - i,
        {
            proof {
                lemma_tasks_total_take_step(self@, i as int);
                lemma_tasks_total_prefix_le(self@, i + 1);
            }
            let t = self[i];
            acc = acc + (t.end - t.start);
            i = i + 1;
        }
        proof {
            assert(self@.take(n as int) =~= self@);
        }
        acc
    }
}

impl Total for TaskGroup {
    open spec fn total_wf(&self) -> bool {
        (forall|i: int| 0 <= i < self@.len() ==> tasks_wf(#[trigger] self@[i]@))
            && group_total(self@) <= u64::MAX
    }

    open spec fn total_spec(&self) -> int {
        group_total(self@)
    }

    fn total(&self) -> (r: u64) {
        let n = self.len();
        let mut acc: u64 = 0;
        let mut i: usize = 0;
        while i < n
            invariant
                n == self@.len(),
                0 <= i <= n,
                forall|j: int| 0 <= j < self@.len() ==> tasks_wf(#[trigger] self@[j]@),
                group_total(self@) <= u64::MAX,
                acc == group_total(self@.take(i as int)),
            decreases n - i,
        {
            proof {
                lemma_group_total_take_step(self@, i as int);
                lemma_group_total_prefix_le(self@, i + 1);
                lemma_group_total_nonneg(self@.take(i as int));
                lemma_tasks_total_nonneg(self@[i as int]@);
            }
            let part = self[i].total();
            acc = acc + part;
            i = i + 1;
        }
        proof {
            assert(self@.take(n as int) =~= self@);
        }
        acc
    }
}

} // verus!
