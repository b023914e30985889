//! A flat-index view over an ordered list of raw ranges: prefix sums
//! turn possibly disjoint intervals into one contiguous counting space.

use vstd::prelude::*;
use core::ops::Range;

verus! {

/// Length of a raw range, saturating at zero.
pub open spec fn range_len(r: Range<u64>) -> int {
    if r.start <= r.end {
        r.end - r.start
    } else {
        0
    }
}

/// Sum of the lengths of a list of raw ranges.
pub open spec fn ranges_total(s: Seq<Range<u64>>) -> int
    decreases s.len(),
{
    if s.len() == 0 {
        0
    } else {
        ranges_total(s.drop_last()) + range_len(s.last())
    }
}

/// All raw ranges are proper: `start <= end`.
pub open spec fn ranges_wf(s: Seq<Range<u64>>) -> bool {
    forall|i: int| 0 <= i < s.len() ==> (#[trigger] s[i]).start <= s[i].end
}

/// The underlying value at flat position `i` of the segmented domain.
pub open spec fn flat_get(s: Seq<Range<u64>>, i: int) -> int
    decreases s.len(),
{
    if s.len() == 0 {
        0
    } else if i < range_len(s[0]) {
        s[0].start + i
    } else {
        flat_get(s.skip(1), i - range_len(s[0]))
    }
}

/// Flat position `i` falls in segment `k`.
pub open spec fn seg_at(s: Seq<Range<u64>>, k: int, i: int) -> bool {
    &&& 0 <= k < s.len()
    &&& ranges_total(s.take(k)) <= i < ranges_total(s.take(k + 1))
}

pub proof fn lemma_ranges_total_nonneg(s: Seq<Range<u64>>)
    ensures
        ranges_total(s) >= 0,
    decreases s.len(),
{
    if s.len() > 0 {
        lemma_ranges_total_nonneg(s.drop_last());
    }
}

/// Extending a prefix by one segment adds that segment's length.
pub proof fn lemma_ranges_total_take_step(s: Seq<Range<u64>>, i: int)
    requires
        0 <= i < s.len(),
    ensures
        ranges_total(s.take(i + 1)) == ranges_total(s.take(i)) + range_len(s[i]),
{
    assert(s.take(i + 1).drop_last() =~= s.take(i));
    assert(s.take(i + 1).last() == s[i]);
}

/// Prefix totals are monotone in the prefix length.
pub proof fn lemma_ranges_total_prefix_mono(s: Seq<Range<u64>>, i: int, j: int)
    requires
        0 <= i <= j <= s.len(),
    ensures
        ranges_total(s.take(i)) <= ranges_total(s.take(j)),
    decreases j - i,
{
    if i < j {
        lemma_ranges_total_take_step(s, i);
        lemma_ranges_total_prefix_mono(s, i + 1, j);
    }
}

/// The total of any prefix is bounded by the total of the whole list.
pub proof fn lemma_ranges_total_prefix_le(s: Seq<Range<u64>>, i: int)
    requires
        0 <= i <= s.len(),
    ensures
        ranges_total(s.take(i)) <= ranges_total(s),
{
    lemma_ranges_total_prefix_mono(s, i, s.len() as int);
    assert(s.take(s.len() as int) =~= s);
}

/// The total decomposes at the front.
pub proof fn lemma_ranges_total_first(s: Seq<Range<u64>>)
    requires
        s.len() > 0,
    ensures
        ranges_total(s) == range_len(s[0]) + ranges_total(s.skip(1)),
    decreases s.len(),
{
    if s.len() == 1 {
        assert(s.skip(1) =~= Seq::<Range<u64>>::empty());
        assert(s.drop_last() =~= Seq::<Range<u64>>::empty());
        assert(s.last() == s[0]);
    } else {
        let dl = s.drop_last();
        lemma_ranges_total_first(dl);
        assert(dl[0] == s[0]);
        assert(s.skip(1).len() == s.len() - 1);
        assert(s.skip(1).drop_last() =~= dl.skip(1));
        assert(s.skip(1).last() == s.last());
        assert(ranges_total(s.skip(1)) == ranges_total(s.skip(1).drop_last()) + range_len(
            s.skip(1).last(),
        ));
        assert(ranges_total(s) == ranges_total(dl) + range_len(s.last()));
    }
}

/// Each in-range flat position falls in some segment.
pub proof fn lemma_flat_index_has_seg(s: Seq<Range<u64>>, i: int)
    requires
        0 <= i < ranges_total(s),
    ensures
        exists|k: int| #[trigger] seg_at(s, k, i),
    decreases s.len(),
{
    if s.len() > 0 {
        assert(s.take(s.len() as int) =~= s);
        if i >= ranges_total(s.drop_last()) {
            lemma_ranges_total_take_step(s, s.len() - 1);
            assert(s.take(s.len() - 1) =~= s.drop_last());
            assert(seg_at(s, s.len() - 1, i));
        } else {
            lemma_flat_index_has_seg(s.drop_last(), i);
            let k = choose|k: int| #[trigger] seg_at(s.drop_last(), k, i);
            assert(s.drop_last().take(k) =~= s.take(k));
            assert(s.drop_last().take(k + 1) =~= s.take(k + 1));
            assert(seg_at(s, k, i));
        }
    }
}

/// No flat position falls in two distinct segments.
pub proof fn lemma_flat_index_unique_seg(s: Seq<Range<u64>>, i: int, k1: int, k2: int)
    requires
        seg_at(s, k1, i),
        seg_at(s, k2, i),
    ensures
        k1 == k2,
{
    if k1 < k2 {
        lemma_ranges_total_prefix_mono(s, k1 + 1, k2);
    }
    if k2 < k1 {
        lemma_ranges_total_prefix_mono(s, k2 + 1, k1);
    }
}

/// The segment holding a flat position is non-decreasing in the
/// position.
pub proof fn lemma_position_mono(s: Seq<Range<u64>>, i1: int, i2: int, k1: int, k2: int)
    requires
        i1 <= i2,
        seg_at(s, k1, i1),
        seg_at(s, k2, i2),
    ensures
        k1 <= k2,
{
    if k2 < k1 {
        lemma_ranges_total_prefix_mono(s, k2 + 1, k1);
    }
}

/// Within its segment, the flat-to-underlying conversion is the
/// segment's start plus the position's offset from the segment's first
/// flat index.
pub proof fn lemma_flat_get_in_seg(s: Seq<Range<u64>>, k: int, i: int)
    requires
        ranges_wf(s),
        seg_at(s, k, i),
    ensures
        flat_get(s, i) == s[k].start + (i - ranges_total(s.take(k))),
    decreases k,
{
    lemma_ranges_total_take_step(s, k);
    if k == 0 {
        assert(s.take(0) =~= Seq::<Range<u64>>::empty());
        lemma_ranges_total_nonneg(s.take(0));
        assert(i < range_len(s[0]));
    } else {
        lemma_ranges_total_prefix_mono(s, 1, k);
        assert(ranges_total(s.take(1)) == range_len(s[0])) by {
            lemma_ranges_total_take_step(s, 0);
            assert(s.take(0) =~= Seq::<Range<u64>>::empty());
            assert(ranges_total(Seq::<Range<u64>>::empty()) == 0);
        }
        let t = s.skip(1);
        assert(t.take(k - 1) =~= s.take(k).skip(1));
        assert(t.take(k) =~= s.take(k + 1).skip(1));
        lemma_ranges_total_first(s.take(k));
        lemma_ranges_total_first(s.take(k + 1));
        assert(s.take(k)[0] == s[0]);
        assert(s.take(k + 1)[0] == s[0]);
        assert(seg_at(t, k - 1, i - range_len(s[0])));
        assert(forall|m: int| 0 <= m < t.len() ==> t[m] == s[m + 1]);
        lemma_flat_get_in_seg(t, k - 1, i - range_len(s[0]));
        assert(t[k - 1] == s[k]);
    }
}

/// The underlying value at an in-range flat position lies inside its
/// segment's raw range.
pub proof fn lemma_flat_get_bounds(s: Seq<Range<u64>>, k: int, i: int)
    requires
        ranges_wf(s),
        seg_at(s, k, i),
    ensures
        s[k].start <= flat_get(s, i) < s[k].end,
{
    lemma_flat_get_in_seg(s, k, i);
    lemma_ranges_total_take_step(s, k);
}

/// Non-negative part of an integer.
pub open spec fn clamp0(x: int) -> int {
    if x >= 0 {
        x
    } else {
        0
    }
}

/// The ordered raw sub-ranges covering flat positions `[a, b)`, split
/// at every segment boundary; empty fragments are omitted.
pub open spec fn flat_slice(s: Seq<Range<u64>>, a: int, b: int) -> Seq<Range<u64>>
    decreases s.len(),
{
    if s.len() == 0 || b <= a {
        Seq::empty()
    } else {
        let l = range_len(s[0]);
        let rest = flat_slice(s.skip(1), clamp0(a - l), b - l);
        if a < l {
            seq![
                (Range {
                    start: (s[0].start + a) as u64,
                    end: (s[0].start + (if b <= l {
                        b
                    } else {
                        l
                    })) as u64,
                }),
            ] + rest
        } else {
            rest
        }
    }
}

/// Segments wholly before the requested window contribute nothing.
proof fn lemma_flat_slice_skip_front(s: Seq<Range<u64>>, a: int, b: int)
    requires
        s.len() > 0,
        a >= range_len(s[0]),
    ensures
        flat_slice(s, a, b) == flat_slice(s.skip(1), a - range_len(s[0]), b - range_len(s[0])),
{
    let l = range_len(s[0]);
    if b <= a {
        assert(flat_slice(s, a, b) == Seq::<Range<u64>>::empty());
        assert(b - l <= a - l);
        assert(flat_slice(s.skip(1), a - l, b - l) == Seq::<Range<u64>>::empty());
    }
}

proof fn lemma_flat_slice_skip_to(s: Seq<Range<u64>>, a: int, b: int, k: int)
    requires
        0 <= k <= s.len(),
        ranges_total(s.take(k)) <= a,
    ensures
        flat_slice(s, a, b) == flat_slice(
            s.skip(k),
            a - ranges_total(s.take(k)),
            b - ranges_total(s.take(k)),
        ),
    decreases k,
{
    if k == 0 {
        assert(s.take(0) =~= Seq::<Range<u64>>::empty());
        assert(s.skip(0) =~= s);
    } else {
        let l = range_len(s[0]);
        let p = ranges_total(s.take(k));
        assert(ranges_total(s.take(1)) == l) by {
            lemma_ranges_total_take_step(s, 0);
            assert(s.take(0) =~= Seq::<Range<u64>>::empty());
        }
        lemma_ranges_total_prefix_mono(s, 1, k);
        lemma_flat_slice_skip_front(s, a, b);
        let t = s.skip(1);
        assert(t.take(k - 1) =~= s.take(k).skip(1));
        lemma_ranges_total_first(s.take(k));
        assert(s.take(k)[0] == s[0]);
        assert(ranges_total(t.take(k - 1)) == p - l);
        assert(ranges_total(t.take(k - 1)) <= a - l);
        lemma_flat_slice_skip_to(t, a - l, b - l, k - 1);
        assert(t.skip(k - 1) =~= s.skip(k));
    }
}

/// The sub-ranges covering a flat window carry exactly the window's
/// length between them.
pub proof fn lemma_flat_slice_total(s: Seq<Range<u64>>, a: int, b: int)
    requires
        ranges_wf(s),
        0 <= a <= b,
        b <= ranges_total(s),
    ensures
        ranges_total(flat_slice(s, a, b)) == b - a,
    decreases s.len(),
{
    if s.len() == 0 || b <= a {
        assert(flat_slice(s, a, b) == Seq::<Range<u64>>::empty());
    } else {
        let l = range_len(s[0]);
        lemma_ranges_total_first(s);
        let t = s.skip(1);
        assert(forall|m: int| 0 <= m < t.len() ==> t[m] == s[m + 1]);
        lemma_ranges_total_nonneg(t);
        let rest = flat_slice(t, clamp0(a - l), b - l);
        if a < l {
            let hb = if b <= l {
                b
            } else {
                l
            };
            assert(s[0].start + hb <= s[0].end);
            let h = Range { start: (s[0].start + a) as u64, end: (s[0].start + hb) as u64 };
            assert(range_len(h) == hb - a);
            if b <= l {
                assert(rest == Seq::<Range<u64>>::empty());
            } else {
                lemma_flat_slice_total(t, 0, b - l);
            }
            let whole = seq![h] + rest;
            lemma_ranges_total_first(whole);
            assert(whole[0] == h);
            assert(whole.skip(1) =~= rest);
        } else {
            lemma_flat_slice_total(t, a - l, b - l);
        }
    }
}

/// The window of a single flat position is that position's underlying
/// value as a one-unit range.
pub proof fn lemma_flat_slice_first(s: Seq<Range<u64>>, a: int)
    requires
        ranges_wf(s),
        0 <= a < ranges_total(s),
    ensures
        flat_slice(s, a, a + 1).len() == 1,
        flat_slice(s, a, a + 1)[0].start == flat_get(s, a),
        flat_slice(s, a, a + 1)[0].end == flat_get(s, a) + 1,
    decreases s.len(),
{
    let l = range_len(s[0]);
    lemma_ranges_total_first(s);
    lemma_ranges_total_nonneg(s.skip(1));
    if a < l {
        assert(s[0].start + a + 1 <= s[0].end);
        let rest = flat_slice(s.skip(1), clamp0(a - l), a + 1 - l);
        assert(rest == Seq::<Range<u64>>::empty());
        let h = Range { start: (s[0].start + a) as u64, end: (s[0].start + a + 1) as u64 };
        assert(flat_slice(s, a, a + 1) =~= seq![h]);
    } else {
        lemma_flat_slice_first(s.skip(1), a - l);
    }
}

/// Bridges what `position` reports to the segment model: a flat index
/// below its segment's end point falls in that segment.
pub proof fn lemma_position_to_seg_at(tl: TaskList, index: u64, r: int)
    requires
        tl.wf(),
        0 <= r < tl.ranges().len(),
        tl.points()[r] <= index,
        r + 1 < tl.ranges().len() ==> index < tl.points()[r + 1],
        index < tl.len,
    ensures
        seg_at(tl.ranges(), r, index as int),
{
    let s = tl.ranges();
    lemma_ranges_total_take_step(s, r);
    if r + 1 < s.len() {
        assert(tl.points()[r + 1] == ranges_total(s.take(r + 1)));
    } else {
        assert(s.take(r + 1) =~= s);
    }
}

/// A flat-index view over an ordered list of raw ranges.
///
/// `start_point[i]` is the flat position at which segment `i` begins
/// (the summed length of all earlier segments) and `len` is the total
/// number of units.
#[derive(Debug)]
pub struct TaskList {
    pub tasks: Vec<Range<u64>>,
    pub start_point: Vec<u64>,
    pub len: u64,
}

impl TaskList {
    /// The raw ranges this view was built from.
    pub open spec fn ranges(&self) -> Seq<Range<u64>> {
        self.tasks@
    }

    /// The flat starting position of each segment.
    pub open spec fn points(&self) -> Seq<u64> {
        self.start_point@
    }

    /// The prefix-sum table matches the ranges and the total fits the
    /// index type.
    pub open spec fn wf(&self) -> bool {
        &&& ranges_wf(self.ranges())
        &&& ranges_total(self.ranges()) <= u64::MAX
        &&& self.points().len() == self.ranges().len()
        &&& forall|i: int|
            0 <= i < self.ranges().len() ==> self.points()[i] == ranges_total(
                self.ranges().take(i),
            )
        &&& self.len == ranges_total(self.ranges())
    }

    /// Builds the flat-index view: `start_point` gets one prefix sum
    /// per range. Improper ranges count as empty and an overflowing
    /// total saturates; with proper ranges whose total fits `u64`, the
    /// result is well formed.
    pub fn from_ranges(tasks: Vec<Range<u64>>) -> (r: TaskList)
        ensures
            r.ranges() == tasks@,
            ranges_wf(tasks@) && ranges_total(tasks@) <= u64::MAX ==> r.wf(),
    {
        let ghost good = ranges_wf(tasks@) && ranges_total(tasks@) <= u64::MAX;
        let n = tasks.len();
        let mut len: u64 = 0;
        let mut start_point: Vec<u64> = Vec::new();
        let mut i: usize = 0;
        while i < n
            invariant
                n == tasks@.len(),
                0 <= i <= n,
                good == (ranges_wf(tasks@) && ranges_total(tasks@) <= u64::MAX),
                start_point@.len() == i,
                good ==> len == ranges_total(tasks@.take(i as int)),
                good ==> forall|j: int|
                    0 <= j < i ==> start_point@[j] == ranges_total(tasks@.take(j)),
            decreases n - i,
        {
            proof {
                if good {
                    lemma_ranges_total_take_step(tasks@, i as int);
                    lemma_ranges_total_prefix_le(tasks@, i as int + 1);
                    lemma_ranges_total_nonneg(tasks@.take(i as int));
                }
            }
            start_point.push(len);
            let rs = tasks[i].start;
            let re = tasks[i].end;
            let l = if re >= rs {
                re - rs
            } else {
                0
            };
            len = if l <= u64::MAX - len {
                len + l
            } else {
                u64::MAX
            };
            i = i + 1;
        }
        proof {
            assert(tasks@.take(n as int) =~= tasks@);
        }
        TaskList { tasks, start_point, len }
    }

    /// The segment holding flat position `index`: the last segment
    /// whose starting point does not exceed it. Positions past the end
    /// resolve to the last segment, matching unchecked array-index
    /// semantics.
    pub fn position(&self, index: u64) -> (r: usize)
        requires
            self.wf(),
            self.ranges().len() > 0,
        ensures
            r < self.ranges().len(),
            self.points()[r as int] <= index,
            r + 1 < self.ranges().len() ==> index < self.points()[r as int + 1],
    {
        let n = self.start_point.len();
        let mut lo: usize = 0;
        let mut hi: usize = n;
        proof {
            assert(self.points()[0] == ranges_total(self.ranges().take(0)));
            assert(self.ranges().take(0) =~= Seq::<Range<u64>>::empty());
        }
        while hi - lo > 1
            invariant
                n == self.points().len(),
                n == self.ranges().len(),
                self.wf(),
                0 <= lo < hi <= n,
                self.points()[lo as int] <= index,
                hi < n ==> index < self.points()[hi as int],
            decreases hi - lo,
        {
            let mid = lo + (hi - lo) / 2;
            if self.start_point[mid] <= index {
                lo = mid;
            } else {
                hi = mid;
            }
        }
        lo
    }

    /// The underlying value at flat position `index`.
    pub fn get(&self, index: u64) -> (r: u64)
        requires
            self.wf(),
            index < self.len,
        ensures
            r == flat_get(self.ranges(), index as int),
    {
        proof {
            if self.ranges().len() == 0 {
                assert(ranges_total(self.ranges()) == 0);
            }
        }
        let point = self.position(index);
        proof {
            let s = self.ranges();
            let k = point as int;
            lemma_ranges_total_take_step(s, k);
            if k + 1 < s.len() {
                assert(self.points()[k + 1] == ranges_total(s.take(k + 1)));
            } else {
                assert(s.take(k + 1) =~= s);
            }
            assert(seg_at(s, k, index as int));
            lemma_flat_get_in_seg(s, k, index as int);
        }
        self.tasks[point].start + (index - self.start_point[point])
    }

    /// The ordered raw sub-ranges covering the flat window
    /// `[range.start, range.end)`, split at every segment boundary; an
    /// empty window yields an empty list.
    pub fn get_range(&self, range: Range<u64>) -> (r: Vec<Range<u64>>)
        requires
            self.wf(),
            range.start < range.end ==> range.end <= self.len,
        ensures
            r@ == flat_slice(self.ranges(), range.start as int, range.end as int),
    {
        if range.start >= range.end {
            return Vec::new();
        }
        let ghost s = self.ranges();
        let ghost a = range.start as int;
        let ghost b = range.end as int;
        proof {
            if s.len() == 0 {
                assert(ranges_total(s) == 0);
            }
        }
        let start_seg = self.position(range.start);
        let end_seg = self.position(range.end - 1);
        proof {
            lemma_position_to_seg_at(*self, range.start, start_seg as int);
            lemma_position_to_seg_at(*self, (range.end - 1) as u64, end_seg as int);
            lemma_position_mono(s, a, b - 1, start_seg as int, end_seg as int);
            lemma_flat_slice_skip_to(s, a, b, start_seg as int);
        }
        let tasks_len = self.tasks.len();
        let mut result: Vec<Range<u64>> = Vec::new();
        let mut seg = start_seg;
        while seg <= end_seg
            invariant
                self.wf(),
                s == self.ranges(),
                a == range.start as int,
                b == range.end as int,
                0 <= a < b,
                b <= ranges_total(s),
                tasks_len == s.len(),
                start_seg <= seg <= end_seg + 1,
                end_seg < s.len(),
                ranges_total(s.take(start_seg as int)) <= a,
                ranges_total(s.take(end_seg as int)) <= b - 1 < ranges_total(
                    s.take(end_seg as int + 1),
                ),
                result@ + flat_slice(
                    s.skip(seg as int),
                    clamp0(a - ranges_total(s.take(seg as int))),
                    b - ranges_total(s.take(seg as int)),
                ) == flat_slice(s, a, b),
            decreases end_seg + 1 - seg,
        {
            let ghost p = ranges_total(s.take(seg as int));
            let ghost l = range_len(s[seg as int]);
            let ghost ash = clamp0(a - p);
            let ghost bsh = b - p;
            proof {
                lemma_ranges_total_take_step(s, seg as int);
                lemma_ranges_total_prefix_mono(s, seg as int, end_seg as int);
                assert(p <= b - 1);
                assert(s.skip(seg as int)[0] == s[seg as int]);
                assert(s.skip(seg as int).len() > 0);
                assert(s.skip(seg as int).skip(1) =~= s.skip(seg as int + 1));
            }
            let seg_start = self.start_point[seg];
            let seg_end = if seg + 1 < tasks_len {
                self.start_point[seg + 1]
            } else {
                self.len
            };
            proof {
                assert(seg_start == p);
                if seg as int + 1 < s.len() {
                    assert(self.points()[seg as int + 1] == ranges_total(s.take(seg as int + 1)));
                } else {
                    assert(s.take(seg as int + 1) =~= s);
                }
                assert(seg_end == p + l);
            }
            let curr_start = if seg_start >= range.start {
                seg_start
            } else {
                range.start
            };
            let curr_end = if seg_end <= range.end {
                seg_end
            } else {
                range.end
            };
            proof {
                assert(curr_start == p + ash);
                assert(curr_end == p + (if bsh <= l {
                    bsh
                } else {
                    l
                }));
            }
            if curr_start < curr_end {
                let actual_start = self.tasks[seg].start + (curr_start - seg_start);
                let actual_end = self.tasks[seg].start + (curr_end - seg_start);
                result.push(Range { start: actual_start, end: actual_end });
            }
            proof {
                let rest = flat_slice(s.skip(seg as int + 1), clamp0(ash - l), bsh - l);
                assert(clamp0(ash - l) == clamp0(a - ranges_total(s.take(seg as int + 1))));
                assert(flat_slice(s.skip(seg as int), ash, bsh) == (if ash < l {
                    seq![
                        (Range {
                            start: (s[seg as int].start + ash) as u64,
                            end: (s[seg as int].start + (if bsh <= l {
                                bsh
                            } else {
                                l
                            })) as u64,
                        }),
                    ] + rest
                } else {
                    rest
                }));
                if ash < l {
                    let h = Range {
                        start: (s[seg as int].start + ash) as u64,
                        end: (s[seg as int].start + (if bsh <= l {
                            bsh
                        } else {
                            l
                        })) as u64,
                    };
                    assert(result@.last() == h);
                    assert(result@ == result@.drop_last().push(h));
                    assert(result@.drop_last() + (seq![h] + rest) =~= result@ + rest);
                } else {
                    assert(curr_start >= curr_end);
                }
            }
            seg = seg + 1;
        }
        proof {
            assert(b - ranges_total(s.take(seg as int)) <= clamp0(
                a - ranges_total(s.take(seg as int)),
            ));
            assert(flat_slice(
                s.skip(seg as int),
                clamp0(a - ranges_total(s.take(seg as int))),
                b - ranges_total(s.take(seg as int)),
            ) == Seq::<Range<u64>>::empty());
            assert(result@ + Seq::<Range<u64>>::empty() =~= result@);
        }
        result
    }
}

impl From<Vec<Range<u64>>> for TaskList {
    /// The exact construction contract lives on
    /// [`TaskList::from_ranges`], which this conversion delegates to.
    fn from(tasks: Vec<Range<u64>>) -> (r: Self) {
        Self::from_ranges(tasks)
    }
}

impl vstd::std_specs::convert::FromSpecImpl<Vec<Range<u64>>> for TaskList {
    open spec fn obeys_from_spec() -> bool {
        false
    }

    open spec fn from_spec(v: Vec<Range<u64>>) -> TaskList {
        vstd::pervasive::arbitrary()
    }
}

impl From<&[Range<u64>]> for TaskList {
    /// The exact construction contract lives on
    /// [`TaskList::from_ranges`], which this conversion delegates to.
    fn from(tasks: &[Range<u64>]) -> (r: Self) {
        let n = tasks.len();
        let mut owned: Vec<Range<u64>> = Vec::new();
        let mut i: usize = 0;
        while i < n
            invariant
                n == tasks@.len(),
                0 <= i <= n,
                owned@ =~= tasks@.take(i as int),
            decreases n - i,
        {
            let rs = tasks[i].start;
            let re = tasks[i].end;
            owned.push(Range { start: rs, end: re });
            proof {
                assert(tasks@[i as int] == (Range { start: rs, end: re }));
                assert(owned@ =~= tasks@.take(i as int + 1));
            }
            i = i + 1;
        }
        proof {
            assert(owned@ =~= tasks@);
        }
        Self::from_ranges(owned)
    }
}

impl vstd::std_specs::convert::FromSpecImpl<&[Range<u64>]> for TaskList {
    open spec fn obeys_from_spec() -> bool {
        false
    }

    open spec fn from_spec(v: &[Range<u64>]) -> TaskList {
        vstd::pervasive::arbitrary()
    }
}

} // verus!
