//! Reconstruction of the trailing part of a range list whose total
//! length is an exact requested amount: whole ranges are taken from
//! the tail, and the boundary range is truncated at its start.

use vstd::prelude::*;
use crate::task::{Task, Tasks, task_len};
use crate::total::{lemma_tasks_total_nonneg, tasks_total};

verus! {

/// The minimal trailing subsequence of `s` carrying
/// `min(remain, total)` units: whole ranges from the tail while they
/// fit, then one range truncated at its start to make the count exact.
pub open spec fn remain_of(s: Seq<Task>, remain: int) -> Seq<Task>
    decreases s.len(),
{
    if s.len() == 0 || remain <= 0 {
        Seq::empty()
    } else {
        let last = s.last();
        let l = task_len(last);
        if l < remain {
            remain_of(s.drop_last(), remain - l).push(last)
        } else {
            seq![Task { start: (last.end - remain) as u64, end: last.end }]
        }
    }
}

/// Carving the trailing `remain` units out of a range list.
pub trait GetRemain {
    spec fn get_remain_ens(&self, remain: u64, r: Tasks) -> bool;

    /// The trailing sub-ranges of `self` whose lengths sum to
    /// `min(remain, total)`, in original order.
    fn get_remain(&self, remain: u64) -> (r: Tasks)
        ensures
            self.get_remain_ens(remain, r),
    ;
}

impl GetRemain for Tasks {
    open spec fn get_remain_ens(&self, remain: u64, r: Tasks) -> bool {
        r@ == remain_of(self@, remain as int)
    }

    fn get_remain(&self, remain: u64) -> (r: Tasks) {
        let ghost s = self@;
        if remain == 0 {
            return Vec::new();
        }
        let mut i: usize = self.len();
        let mut rem: u64 = remain;
        proof {
            assert(s.take(i as int) =~= s);
            assert(s.skip(i as int) =~= Seq::<Task>::empty());
            assert(remain_of(s, remain as int) + Seq::<Task>::empty() =~= remain_of(
                s,
                remain as int,
            ));
        }
        while i > 0
            invariant
                s == self@,
                0 <= i <= s.len(),
                0 < rem <= remain,
                remain_of(s, remain as int) == remain_of(s.take(i as int), rem as int) + s.skip(
                    i as int,
                ),
            ensures
                s == self@,
                0 <= i <= s.len(),
                0 < rem,
                remain_of(s, remain as int) == remain_of(s.take(i as int), rem as int) + s.skip(
                    i as int,
                ),
                i > 0 ==> task_len(s[i as int - 1]) >= rem,
            decreases i,
        {
            let t = self[i - 1];
            let l = t.remain();
            if l >= rem {
                break;
            }
            proof {
                let k = i as int;
                assert(s.take(k).last() == s[k - 1]);
                assert(s.take(k).drop_last() =~= s.take(k - 1));
                assert(remain_of(s.take(k), rem as int) == remain_of(
                    s.take(k - 1),
                    rem as int - l,
                ).push(t));
                assert(s.skip(k - 1) =~= seq![t] + s.skip(k));
                assert(remain_of(s.take(k - 1), rem as int - l).push(t) + s.skip(k) =~= remain_of(
                    s.take(k - 1),
                    rem as int - l,
                ) + s.skip(k - 1));
            }
            rem = rem - l;
            i = i - 1;
        }
        let mut res: Tasks = Vec::new();
        let mut j: usize = i;
        if i == 0 {
            proof {
                assert(s.take(0) =~= Seq::<Task>::empty());
                assert(Seq::<Task>::empty() + s.skip(0) =~= s.skip(0));
                assert(s.skip(0) =~= s);
            }
        } else {
            let t = self[i - 1];
            proof {
                let k = i as int;
                assert(s.take(k).last() == s[k - 1]);
                assert(task_len(t) >= rem);
                assert(rem <= t.end);
                assert(remain_of(s.take(k), rem as int) == seq![
                    Task { start: (t.end - rem) as u64, end: t.end },
                ]);
            }
            res.push(Task { start: t.end - rem, end: t.end });
        }
        while j < self.len()
            invariant
                s == self@,
                i <= j <= s.len(),
                res@ == remain_of(s.take(i as int), rem as int) + s.subrange(i as int, j as int),
            decreases s.len() - j,
        {
            proof {
                assert(s.subrange(i as int, j as int + 1) =~= s.subrange(i as int, j as int).push(
                    s[j as int],
                ));
                assert(res@.push(s[j as int]) =~= remain_of(s.take(i as int), rem as int)
                    + s.subrange(i as int, j as int + 1));
            }
            let t = self[j];
            res.push(t);
            j = j + 1;
        }
        proof {
            assert(s.subrange(i as int, s.len() as int) =~= s.skip(i as int));
        }
        res
    }
}

/// Exactness: the reconstructed tail carries `min(remain, total)`
/// units — exactly `remain` whenever the list holds that much.
pub proof fn lemma_remain_of_total(s: Seq<Task>, remain: int)
    requires
        remain >= 0,
    ensures
        tasks_total(remain_of(s, remain)) == if remain <= tasks_total(s) {
            remain
        } else {
            tasks_total(s)
        },
    decreases s.len(),
{
    lemma_tasks_total_nonneg(s);
    if s.len() == 0 || remain <= 0 {
        assert(tasks_total(remain_of(s, remain)) == 0);
    } else {
        let last = s.last();
        let l = task_len(last);
        lemma_tasks_total_nonneg(s.drop_last());
        if l < remain {
            lemma_remain_of_total(s.drop_last(), remain - l);
            let r0 = remain_of(s.drop_last(), remain - l);
            assert(r0.push(last).drop_last() =~= r0);
            assert(r0.push(last).last() == last);
        } else {
            let h = Task { start: (last.end - remain) as u64, end: last.end };
            assert(task_len(h) == remain);
            assert(seq![h].drop_last() =~= Seq::<Task>::empty());
            assert(seq![h].last() == h);
            assert(tasks_total(Seq::<Task>::empty()) == 0);
            assert(tasks_total(seq![h]) == remain);
        }
    }
}

/// Shape: the reconstruction is a suffix of the input in original
/// order, with at most its first range truncated at its start.
pub proof fn lemma_remain_of_suffix(s: Seq<Task>, remain: int)
    requires
        remain >= 0,
    ensures
        remain_of(s, remain).len() <= s.len(),
        forall|j: int|
            1 <= j < remain_of(s, remain).len() ==> #[trigger] remain_of(s, remain)[j] == s[s.len()
                - remain_of(s, remain).len() + j],
        remain_of(s, remain).len() > 0 ==> remain_of(s, remain)[0].end == s[s.len() - remain_of(
            s,
            remain,
        ).len()].end,
        remain_of(s, remain).len() > 0 ==> remain_of(s, remain)[0].start >= s[s.len() - remain_of(
            s,
            remain,
        ).len()].start,
    decreases s.len(),
{
    if s.len() == 0 || remain <= 0 {
    } else {
        let last = s.last();
        let l = task_len(last);
        if l < remain {
            lemma_remain_of_suffix(s.drop_last(), remain - l);
            let r0 = remain_of(s.drop_last(), remain - l);
            let r = remain_of(s, remain);
            assert(r == r0.push(last));
            assert(forall|j: int| 0 <= j < r0.len() ==> #[trigger] r[j] == r0[j]);
            assert(forall|j: int|
                0 <= j < s.drop_last().len() ==> #[trigger] s.drop_last()[j] == s[j]);
            assert(r[r.len() - 1] == last);
        } else {
            assert(remain_of(s, remain) == seq![
                Task { start: (last.end - remain) as u64, end: last.end },
            ]);
        }
    }
}

} // verus!
