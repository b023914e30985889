//! Balanced splitting of a range into `n` contiguous groups, and the
//! midpoint bisection a steal uses to halve a donor's cursor.

use vstd::prelude::*;
use vstd::arithmetic::div_mod::lemma_fundamental_div_mod;
use crate::task::{Task, Tasks, task_len};

verus! {

/// Flat start position of group `i` when a block of `total` units
/// beginning at `off` is divided into `n` balanced groups: the first
/// `total % n` groups get `total / n + 1` units, the rest `total / n`.
pub open spec fn group_start(off: int, total: int, n: int, i: int) -> int
    recommends
        n > 0,
{
    off + i * (total / n) + (if i <= total % n {
        i
    } else {
        total % n
    })
}

pub proof fn lemma_group_start_step(off: int, total: int, n: int, i: int)
    requires
        n > 0,
        total >= 0,
        i >= 0,
    ensures
        group_start(off, total, n, i + 1) == group_start(off, total, n, i) + total / n + (
        if i < total % n {
            1int
        } else {
            0int
        }),
{
    let per = total / n;
    assert((i + 1) * per == i * per + per) by (nonlinear_arith);
}

pub proof fn lemma_group_start_mono(off: int, total: int, n: int, i: int, j: int)
    requires
        n > 0,
        total >= 0,
        0 <= i <= j,
    ensures
        group_start(off, total, n, i) <= group_start(off, total, n, j),
    decreases j - i,
{
    if i < j {
        lemma_group_start_step(off, total, n, i);
        assert(total / n >= 0) by (nonlinear_arith)
            requires
                total >= 0,
                n > 0,
        ;
        lemma_group_start_mono(off, total, n, i + 1, j);
    }
}

/// The last group ends exactly at `off + total`.
pub proof fn lemma_group_start_full(off: int, total: int, n: int)
    requires
        n > 0,
        total >= 0,
    ensures
        group_start(off, total, n, n) == off + total,
{
    let per = total / n;
    let rem = total % n;
    lemma_fundamental_div_mod(total, n);
    assert(n * per == per * n) by (nonlinear_arith);
    assert(rem <= n) by (nonlinear_arith)
        requires
            n > 0,
            rem == total % n,
    ;
    assert(group_start(off, total, n, n) == off + n * per + rem);
}

/// Group `i` holds flat position `v`.
pub open spec fn in_group(off: int, total: int, n: int, i: int, v: int) -> bool {
    group_start(off, total, n, i) <= v < group_start(off, total, n, i + 1)
}

/// Every unit of `[off, off + total)` lies in some group below `k`,
/// given that it lies below group `k`'s start.
proof fn lemma_group_cover_below(off: int, total: int, n: int, k: int, v: int)
    requires
        n > 0,
        total >= 0,
        0 <= k <= n,
        off <= v < group_start(off, total, n, k),
    ensures
        exists|i: int| 0 <= i < k && #[trigger] in_group(off, total, n, i, v),
    decreases k,
{
    assert(group_start(off, total, n, 0) == off);
    if k > 0 {
        if group_start(off, total, n, k - 1) <= v {
            assert(in_group(off, total, n, k - 1, v));
        } else {
            lemma_group_cover_below(off, total, n, k - 1, v);
        }
    }
}

/// Each unit of the split domain falls in at least one group.
pub proof fn lemma_split_task_covers(off: int, total: int, n: int, v: int)
    requires
        n > 0,
        total >= 0,
        off <= v < off + total,
    ensures
        exists|i: int| 0 <= i < n && #[trigger] in_group(off, total, n, i, v),
{
    lemma_split_task_partition(off, total, n);
    lemma_group_cover_below(off, total, n, n, v);
}

/// No unit falls in two distinct groups.
pub proof fn lemma_split_task_no_overlap(off: int, total: int, n: int, v: int, i: int, j: int)
    requires
        n > 0,
        total >= 0,
        0 <= i < n,
        0 <= j < n,
        in_group(off, total, n, i, v),
        in_group(off, total, n, j, v),
    ensures
        i == j,
{
    if i < j {
        lemma_group_start_mono(off, total, n, i + 1, j);
    }
    if j < i {
        lemma_group_start_mono(off, total, n, j + 1, i);
    }
}

/// The balanced split is a partition: groups are contiguous and ordered,
/// they cover `[off, off + total)` exactly, each unit falls in exactly
/// one group, and group sizes differ by at most one.
pub proof fn lemma_split_task_partition(off: int, total: int, n: int)
    requires
        n > 0,
        total >= 0,
    ensures
        group_start(off, total, n, 0) == off,
        group_start(off, total, n, n) == off + total,
        forall|i: int, j: int|
            0 <= i <= j <= n ==> group_start(off, total, n, i) <= group_start(off, total, n, j),
        forall|i: int|
            0 <= i < n ==> #[trigger] group_start(off, total, n, i + 1) - group_start(
                off,
                total,
                n,
                i,
            ) == total / n + (if i < total % n {
                1int
            } else {
                0int
            }),
        forall|i: int, j: int|
            0 <= i < n && 0 <= j < n ==> (group_start(off, total, n, i + 1) - #[trigger]
            group_start(off, total, n, i)) - (group_start(off, total, n, j + 1) - #[trigger]
            group_start(off, total, n, j)) <= 1,
{
    let per = total / n;
    let rem = total % n;
    lemma_group_start_full(off, total, n);
    assert(group_start(off, total, n, 0) == off);
    assert forall|i: int| 0 <= i < n implies group_start(off, total, n, i + 1) - #[trigger]
    group_start(off, total, n, i) == per + (if i < rem {
        1int
    } else {
        0int
    }) by {
        lemma_group_start_step(off, total, n, i);
    }
    assert forall|i: int, j: int| 0 <= i <= j <= n implies group_start(off, total, n, i)
        <= group_start(off, total, n, j) by {
        lemma_group_start_mono(off, total, n, i, j);
    }
}

/// The groups a balanced split returns are ordered and contiguous,
/// never overlap, and cover the split range exactly.
pub proof fn lemma_split_task_groups(t: Task, n: u64, groups: Tasks)
    requires
        n > 0,
        t.split_task_ens(n, groups),
    ensures
        groups@.len() == n,
        forall|i: int|
            0 <= i < n - 1 ==> (#[trigger] groups@[i]).end == groups@[i + 1].start,
        forall|i: int, j: int|
            0 <= i < j < n ==> (#[trigger] groups@[i]).end <= (#[trigger] groups@[j]).start,
        forall|i: int|
            0 <= i < n ==> t.start <= (#[trigger] groups@[i]).start <= groups@[i].end <= t.start
                + task_len(t),
        groups@[0].start == t.start,
        groups@[n - 1].end == t.start + task_len(t),
{
    let off = t.start as int;
    let total = task_len(t);
    lemma_group_start_full(off, total, n as int);
    assert(group_start(off, total, n as int, 0) == off);
    assert forall|i: int, j: int| 0 <= i < j < n implies (#[trigger] groups@[i]).end <= (
    #[trigger] groups@[j]).start by {
        lemma_group_start_mono(off, total, n as int, i + 1, j);
    }
    assert forall|i: int|
        0 <= i < n implies t.start <= (#[trigger] groups@[i]).start <= groups@[i].end <= t.start
        + task_len(t) by {
        lemma_group_start_mono(off, total, n as int, 0, i);
        lemma_group_start_mono(off, total, n as int, i, i + 1);
        lemma_group_start_mono(off, total, n as int, i + 1, n as int);
    }
}

/// Splitting a range into balanced groups, and bisecting a cursor.
pub trait SplitTask: Sized {
    spec fn split_task_req(&self, n: u64) -> bool;

    spec fn split_task_ens(&self, n: u64, r: Tasks) -> bool;

    /// The `n` balanced, contiguous groups covering this range.
    fn split_task(&self, n: u64) -> (r: Tasks)
        requires
            self.split_task_req(n),
        ensures
            self.split_task_ens(n, r),
    ;

    spec fn split_two_req(&self) -> bool;

    spec fn split_two_ens(&self, new_self: Self, r: (u64, u64)) -> bool;

    /// Truncates this cursor to its lower half and returns the upper
    /// half as a `(start, end)` pair for a thief.
    fn split_two(&mut self) -> (r: (u64, u64))
        requires
            old(self).split_two_req(),
        ensures
            old(self).split_two_ens(*final(self), r),
    ;
}

impl SplitTask for Task {
    open spec fn split_task_req(&self, n: u64) -> bool {
        n > 0
    }

    open spec fn split_task_ens(&self, n: u64, r: Tasks) -> bool {
        let off = self.start as int;
        let total = task_len(*self);
        &&& r@.len() == n
        &&& forall|i: int|
            0 <= i < n ==> (#[trigger] r@[i]).start == group_start(off, total, n as int, i)
                && r@[i].end == group_start(off, total, n as int, i + 1)
    }

    fn split_task(&self, n: u64) -> (r: Tasks) {
        let total = self.remain();
        let offset = self.start();
        let per_group = total / n;
        let remainder = total % n;
        let ghost off = self.start as int;
        let ghost gtotal = task_len(*self);
        let mut res: Tasks = Vec::new();
        let mut cur: u64 = offset;
        let mut i: u64 = 0;
        proof {
            assert(offset + total <= u64::MAX);
            lemma_group_start_full(off, gtotal, n as int);
        }
        while i < n
            invariant
                n > 0,
                total == gtotal,
                off == self.start,
                offset == self.start,
                per_group == gtotal / (n as int),
                remainder == gtotal % (n as int),
                0 <= i <= n,
                res@.len() == i,
                cur == group_start(off, gtotal, n as int, i as int),
                offset + total <= u64::MAX,
                group_start(off, gtotal, n as int, n as int) == off + gtotal,
                forall|j: int|
                    0 <= j < i ==> (#[trigger] res@[j]).start == group_start(
                        off,
                        gtotal,
                        n as int,
                        j,
                    ) && res@[j].end == group_start(off, gtotal, n as int, j + 1),
            decreases n - i,
        {
            proof {
                lemma_group_start_step(off, gtotal, n as int, i as int);
                lemma_group_start_mono(off, gtotal, n as int, i as int + 1, n as int);
            }
            let size = if i < remainder {
                per_group + 1
            } else {
                per_group
            };
            let next = cur + size;
            res.push(Task { start: cur, end: next });
            cur = next;
            i = i + 1;
        }
        res
    }

    open spec fn split_two_req(&self) -> bool {
        self.start <= self.end
    }

    open spec fn split_two_ens(&self, new_self: Task, r: (u64, u64)) -> bool {
        let mid = (self.start + self.end) / 2;
        &&& new_self.start == self.start
        &&& new_self.end == mid
        &&& r.0 == mid
        &&& r.1 == self.end
    }

    fn split_two(&mut self) -> (r: (u64, u64)) {
        let start = self.start();
        let end = self.end();
        let mid = start + (end - start) / 2;
        proof {
            assert(start + (end - start) / 2 == (start + end) / 2) by {
                assert((start + end) - 2 * ((start + end) / 2) == (start + end) % 2);
                assert((end - start) - 2 * ((end - start) / 2) == (end - start) % 2);
            }
        }
        self.set_end(mid);
        (mid, end)
    }
}

} // verus!
