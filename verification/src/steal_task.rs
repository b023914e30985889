//! The steal step: an idle cursor picks the donor with the most
//! remaining work and, when that donor still holds a splittable amount,
//! takes the upper half of its range.

use vstd::prelude::*;
use crate::split_task::SplitTask;
use crate::task::{Task, Tasks, task_len};
use crate::total::tasks_total;

verus! {

/// Index of the first cursor holding the greatest remaining count
/// (zero for an empty list).
pub open spec fn max_pos(s: Seq<Task>) -> int
    decreases s.len(),
{
    if s.len() <= 1 {
        0
    } else {
        let p = max_pos(s.drop_last());
        if task_len(s.last()) > task_len(s[p]) {
            s.len() - 1
        } else {
            p
        }
    }
}

/// The greatest remaining count over a list of cursors; zero when the
/// list is empty.
pub open spec fn max_remain(s: Seq<Task>) -> int {
    if s.len() == 0 {
        0
    } else {
        task_len(s[max_pos(s)])
    }
}

/// The donor's cursor after a bisection: it keeps the lower half.
pub open spec fn donor_after(d: Task) -> Task {
    Task { start: d.start, end: (((d.start + d.end) / 2) as u64) }
}

/// The thief's cursor after a bisection: it receives the upper half.
pub open spec fn thief_after(d: Task) -> Task {
    Task { start: (((d.start + d.end) / 2) as u64), end: d.end }
}

pub proof fn lemma_max_pos(s: Seq<Task>)
    requires
        s.len() > 0,
    ensures
        0 <= max_pos(s) < s.len(),
        forall|i: int| 0 <= i < s.len() ==> #[trigger] task_len(s[i]) <= max_remain(s),
        forall|i: int| 0 <= i < max_pos(s) ==> #[trigger] task_len(s[i]) < max_remain(s),
    decreases s.len(),
{
    if s.len() > 1 {
        let s0 = s.drop_last();
        lemma_max_pos(s0);
        let p0 = max_pos(s0);
        assert(s0[p0] == s[p0]);
        assert forall|i: int| 0 <= i < s.len() implies #[trigger] task_len(s[i]) <= max_remain(
            s,
        ) by {
            if i < s.len() - 1 {
                assert(s0[i] == s[i]);
                assert(task_len(s0[i]) <= max_remain(s0));
            }
        }
        assert forall|i: int| 0 <= i < max_pos(s) implies #[trigger] task_len(s[i]) < max_remain(
            s,
        ) by {
            assert(s0[i] == s[i]);
            if max_pos(s) == p0 {
                assert(task_len(s0[i]) < max_remain(s0));
            } else {
                assert(task_len(s0[i]) <= max_remain(s0));
            }
        }
    }
}

/// Stealing the upper half of the busiest peer's cursor.
pub trait StealTask: Sized {
    spec fn steal_req(&self, tasks: Tasks, min_chunk_size: u64) -> bool;

    spec fn steal_ens(
        &self,
        new_self: Self,
        old_tasks: Tasks,
        new_tasks: Tasks,
        min_chunk_size: u64,
        r: bool,
    ) -> bool;

    /// Bisects the cursor in `tasks` with the most remaining work and
    /// claims the upper half for `self`; reports whether any donor held
    /// at least `min_chunk_size` units.
    fn steal(&mut self, tasks: &mut Tasks, min_chunk_size: u64) -> (r: bool)
        requires
            old(self).steal_req(*old(tasks), min_chunk_size),
        ensures
            old(self).steal_ens(*final(self), *old(tasks), *final(tasks), min_chunk_size, r),
    ;
}

impl StealTask for Task {
    open spec fn steal_req(&self, tasks: Tasks, min_chunk_size: u64) -> bool {
        min_chunk_size >= 2
    }

    open spec fn steal_ens(
        &self,
        new_self: Task,
        old_tasks: Tasks,
        new_tasks: Tasks,
        min_chunk_size: u64,
        r: bool,
    ) -> bool {
        let s = old_tasks@;
        &&& r == (max_remain(s) >= min_chunk_size)
        &&& if r {
            &&& new_tasks@ == s.update(max_pos(s), donor_after(s[max_pos(s)]))
            &&& new_self == thief_after(s[max_pos(s)])
        } else {
            &&& new_tasks@ == s
            &&& new_self == *self
        }
    }

    fn steal(&mut self, tasks: &mut Tasks, min_chunk_size: u64) -> (r: bool) {
        let ghost s = tasks@;
        let n = tasks.len();
        let mut best: u64 = 0;
        let mut pos: usize = 0;
        let mut i: usize = 0;
        while i < n
            invariant
                n == s.len(),
                tasks@ == s,
                0 <= i <= n,
                i == 0 ==> best == 0 && pos == 0,
                i > 0 ==> pos < i && pos == max_pos(s.take(i as int)) && best == max_remain(
                    s.take(i as int),
                ),
            decreases n - i,
        {
            let rem_i = tasks[i].remain();
            proof {
                assert(s.take(i as int + 1).drop_last() =~= s.take(i as int));
                assert(s.take(i as int + 1).last() == s[i as int]);
                if i > 0 {
                    lemma_max_pos(s.take(i as int));
                }
            }
            if rem_i > best {
                best = rem_i;
                pos = i;
            }
            i = i + 1;
        }
        proof {
            assert(s.take(n as int) =~= s);
        }
        if best < min_chunk_size {
            return false;
        }
        proof {
            lemma_max_pos(s);
        }
        let mut donor = tasks[pos];
        let piece = donor.split_two();
        tasks[pos] = donor;
        self.set_end(piece.1);
        self.set_start(piece.0);
        true
    }
}

/// The sum of a range list's lengths after one entry is replaced.
pub proof fn lemma_tasks_total_update(s: Seq<Task>, p: int, v: Task)
    requires
        0 <= p < s.len(),
    ensures
        tasks_total(s.update(p, v)) == tasks_total(s) - task_len(s[p]) + task_len(v),
    decreases s.len(),
{
    if p == s.len() - 1 {
        assert(s.update(p, v).drop_last() =~= s.drop_last());
        assert(s.update(p, v).last() == v);
    } else {
        assert(s.update(p, v).drop_last() =~= s.drop_last().update(p, v));
        assert(s.update(p, v).last() == s.last());
        lemma_tasks_total_update(s.drop_last(), p, v);
    }
}

/// A bisected donor's two halves carry exactly its old length between
/// them.
pub proof fn lemma_split_two_conserves(d: Task)
    requires
        d.start <= d.end,
    ensures
        task_len(donor_after(d)) + task_len(thief_after(d)) == task_len(d),
        donor_after(d).start <= donor_after(d).end,
        thief_after(d).start <= thief_after(d).end,
{
    let mid = (d.start + d.end) / 2;
    assert(d.start <= mid <= d.end);
}

/// Work conservation: a successful steal by an exhausted thief leaves
/// the summed remaining count over all cursors, thief included,
/// unchanged.
pub proof fn lemma_steal_conserves(s: Seq<Task>, thief: Task)
    requires
        s.len() > 0,
        task_len(thief) == 0,
        task_len(s[max_pos(s)]) >= 2,
    ensures
        tasks_total(s.update(max_pos(s), donor_after(s[max_pos(s)]))) + task_len(
            thief_after(s[max_pos(s)]),
        ) == tasks_total(s) + task_len(thief),
{
    let p = max_pos(s);
    let d = s[p];
    lemma_max_pos(s);
    lemma_tasks_total_update(s, p, donor_after(d));
    lemma_split_two_conserves(d);
}

/// Starvation floor: when every cursor holds fewer than two units, the
/// best donor does too, so no steal can be granted.
pub proof fn lemma_starvation_floor(s: Seq<Task>)
    requires
        forall|i: int| 0 <= i < s.len() ==> #[trigger] task_len(s[i]) < 2,
    ensures
        max_remain(s) < 2,
{
    if s.len() > 0 {
        lemma_max_pos(s);
    }
}

/// The set of unit indexes a cursor still covers.
pub open spec fn task_set(t: Task) -> Set<int> {
    Set::new(|v: int| t.start <= v < t.end)
}

/// No two cursors of the list cover a common unit.
pub open spec fn pairwise_disjoint(s: Seq<Task>) -> bool {
    forall|i: int, j: int|
        0 <= i < s.len() && 0 <= j < s.len() && i != j ==> (#[trigger] task_set(s[i])).disjoint(
            #[trigger] task_set(s[j]),
        )
}

/// Cursors laid end to end — as the balanced split produces them —
/// cover pairwise disjoint index sets, the state in which a pool
/// starts.
pub proof fn lemma_ordered_cursors_disjoint(s: Seq<Task>)
    requires
        forall|i: int, j: int|
            0 <= i < j < s.len() ==> (#[trigger] s[i]).end <= (#[trigger] s[j]).start,
    ensures
        pairwise_disjoint(s),
{
    assert forall|i: int, j: int|
        0 <= i < s.len() && 0 <= j < s.len() && i != j implies (#[trigger] task_set(
        s[i],
    )).disjoint(#[trigger] task_set(s[j])) by {
        if i < j {
            assert(s[i].end <= s[j].start);
        } else {
            assert(s[j].end <= s[i].start);
        }
        assert forall|v: int| task_set(s[i]).contains(v) implies !task_set(s[j]).contains(v) by {}
    }
}

/// A bisection reassigns each of the donor's units to exactly one of
/// the two halves: none is duplicated, none is lost.
pub proof fn lemma_split_two_partitions(d: Task)
    requires
        task_len(d) >= 2,
    ensures
        task_set(donor_after(d)).disjoint(task_set(thief_after(d))),
        task_set(donor_after(d)).union(task_set(thief_after(d))) =~= task_set(d),
        task_len(donor_after(d)) >= 1,
        task_len(thief_after(d)) >= 1,
{
    let mid = (d.start + d.end) / 2;
    assert(2 * mid <= d.start + d.end < 2 * (mid + 1));
}

/// Exactly-once assignment is preserved by a steal: if the pool's
/// cursors cover pairwise disjoint index sets, they still do after the
/// busiest donor's upper half moves to an exhausted thief.
pub proof fn lemma_steal_preserves_disjoint(s: Seq<Task>, thief: Task)
    requires
        s.len() > 0,
        task_len(thief) == 0,
        task_len(s[max_pos(s)]) >= 2,
        pairwise_disjoint(s),
    ensures
        pairwise_disjoint(
            s.update(max_pos(s), donor_after(s[max_pos(s)])).push(thief_after(s[max_pos(s)])),
        ),
{
    let p = max_pos(s);
    let d = s[p];
    lemma_max_pos(s);
    lemma_split_two_partitions(d);
    let after = s.update(p, donor_after(d)).push(thief_after(d));
    assert(task_set(donor_after(d)).subset_of(task_set(d)));
    assert(task_set(thief_after(d)).subset_of(task_set(d)));
    assert forall|i: int, j: int|
        0 <= i < after.len() && 0 <= j < after.len() && i != j implies (#[trigger] task_set(
        after[i],
    )).disjoint(#[trigger] task_set(after[j])) by {
        if i < s.len() && j < s.len() {
            if i != p && j != p {
                assert(after[i] == s[i] && after[j] == s[j]);
                assert(task_set(s[i]).disjoint(task_set(s[j])));
            } else if i == p {
                assert(after[j] == s[j]);
                assert(task_set(s[p]).disjoint(task_set(s[j])));
                assert(task_set(after[i]).subset_of(task_set(d)));
            } else {
                assert(after[i] == s[i]);
                assert(task_set(s[i]).disjoint(task_set(s[p])));
                assert(task_set(after[j]).subset_of(task_set(d)));
            }
        } else if i < s.len() {
            assert(after[j] == thief_after(d));
            if i == p {
                assert(task_set(after[i]).disjoint(task_set(thief_after(d))));
            } else {
                assert(after[i] == s[i]);
                assert(task_set(s[i]).disjoint(task_set(s[p])));
                assert(task_set(thief_after(d)).subset_of(task_set(d)));
            }
        } else {
            assert(after[i] == thief_after(d));
            if j == p {
                assert(task_set(after[j]).disjoint(task_set(thief_after(d))));
            } else {
                assert(after[j] == s[j]);
                assert(task_set(s[j]).disjoint(task_set(s[p])));
                assert(task_set(thief_after(d)).subset_of(task_set(d)));
            }
        }
    }
}

} // verus!
