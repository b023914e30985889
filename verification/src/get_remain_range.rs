//! Reconstruction of a trailing window: first discard an amount from
//! the tail of a range list, then carve the exact remaining budget out
//! of what is left.

use vstd::prelude::*;
use crate::get_remain::{GetRemain, remain_of};
use crate::task::{Task, Tasks, task_len};

verus! {

/// The range list with `skip` units removed from its tail: whole
/// ranges are dropped while they fit, and the boundary range is
/// truncated at its end.
pub open spec fn drop_tail(s: Seq<Task>, skip: int) -> Seq<Task>
    decreases s.len(),
{
    if s.len() == 0 || skip <= 0 {
        s
    } else {
        let last = s.last();
        let l = task_len(last);
        if l < skip {
            drop_tail(s.drop_last(), skip - l)
        } else if l == skip {
            s.drop_last()
        } else {
            s.drop_last().push(Task { start: last.start, end: (last.end - skip) as u64 })
        }
    }
}

/// The trailing window: empty whenever `skip >= remain`, otherwise the
/// reconstruction of `remain - skip` units out of the trimmed list.
pub open spec fn remain_range_of(s: Seq<Task>, remain: int, skip: int) -> Seq<Task> {
    if skip >= remain {
        Seq::empty()
    } else {
        remain_of(drop_tail(s, skip), remain - skip)
    }
}

/// Carving an exact-sized window out of a range list's tail, after
/// first discarding a trailing amount.
pub trait GetRemainRange {
    spec fn get_remain_range_ens(&self, remain: u64, skip: u64, r: Tasks) -> bool;

    /// The sub-ranges covering `remain - skip` units that precede the
    /// final `skip` units, in original order; empty when
    /// `skip >= remain`.
    fn get_remain_range(&self, remain: u64, skip: u64) -> (r: Tasks)
        ensures
            self.get_remain_range_ens(remain, skip, r),
    ;
}

impl GetRemainRange for Tasks {
    open spec fn get_remain_range_ens(&self, remain: u64, skip: u64, r: Tasks) -> bool {
        r@ == remain_range_of(self@, remain as int, skip as int)
    }

    fn get_remain_range(&self, remain: u64, skip: u64) -> (r: Tasks) {
        let ghost s = self@;
        if skip >= remain {
            return Vec::new();
        }
        let mut i: usize = self.len();
        let mut sk: u64 = skip;
        proof {
            assert(s.take(i as int) =~= s);
        }
        while i > 0
            invariant
                s == self@,
                0 <= i <= s.len(),
                sk <= skip,
                skip > 0 ==> sk > 0,
                skip == 0 ==> sk == 0 && i == s.len(),
                drop_tail(s, skip as int) == drop_tail(s.take(i as int), sk as int),
            ensures
                s == self@,
                0 <= i <= s.len(),
                sk <= skip,
                skip > 0 ==> sk > 0,
                skip == 0 ==> sk == 0 && i == s.len(),
                drop_tail(s, skip as int) == drop_tail(s.take(i as int), sk as int),
                i > 0 ==> task_len(s[i as int - 1]) >= sk,
            decreases i,
        {
            let t = self[i - 1];
            let l = t.remain();
            if l >= sk {
                break;
            }
            proof {
                let k = i as int;
                assert(s.take(k).last() == s[k - 1]);
                assert(s.take(k).drop_last() =~= s.take(k - 1));
            }
            sk = sk - l;
            i = i - 1;
        }
        let mut cut: usize = i;
        let mut extra: Option<Task> = None;
        if sk > 0 && i > 0 {
            let t = self[i - 1];
            let l = t.remain();
            cut = i - 1;
            if l > sk {
                extra = Some(Task { start: t.start, end: t.end - sk });
            }
            proof {
                let k = i as int;
                assert(s.take(k).last() == s[k - 1]);
                assert(s.take(k).drop_last() =~= s.take(k - 1));
            }
        }
        proof {
            if sk == 0 {
                assert(drop_tail(s.take(i as int), 0) == s.take(i as int));
            }
            if sk > 0 && i == 0 {
                assert(s.take(0) =~= Seq::<Task>::empty());
            }
        }
        let mut trimmed: Tasks = Vec::new();
        let mut j: usize = 0;
        while j < cut
            invariant
                s == self@,
                0 <= j <= cut <= s.len(),
                trimmed@ == s.subrange(0, j as int),
            decreases cut - j,
        {
            proof {
                assert(s.subrange(0, j as int + 1) =~= s.subrange(0, j as int).push(s[j as int]));
            }
            let t = self[j];
            trimmed.push(t);
            j = j + 1;
        }
        proof {
            assert(s.subrange(0, cut as int) =~= s.take(cut as int));
        }
        if let Some(x) = extra {
            trimmed.push(x);
        }
        proof {
            assert(trimmed@ == drop_tail(s, skip as int));
        }
        let res = trimmed.get_remain(remain - skip);
        proof {
            assert(res@ == remain_of(drop_tail(s, skip as int), remain as int - skip as int));
        }
        res
    }
}

/// With nothing discarded, the trailing window is exactly the plain
/// tail reconstruction.
pub proof fn lemma_remain_range_zero_skip(s: Seq<Task>, remain: int)
    ensures
        remain_range_of(s, remain, 0) == remain_of(s, remain),
{
    if remain <= 0 {
        assert(remain_of(s, remain) == Seq::<Task>::empty());
    } else {
        assert(drop_tail(s, 0) == s);
    }
}

/// Discarding at least the whole budget leaves nothing.
pub proof fn lemma_remain_range_skip_all(s: Seq<Task>, remain: int, skip: int)
    requires
        skip >= remain,
    ensures
        remain_range_of(s, remain, skip) == Seq::<Task>::empty(),
{
}

} // verus!
