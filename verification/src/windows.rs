//! Daily time windows and their normalisation.
//!
//! A window runs from `start_minute` (inclusive) to `end_minute` (exclusive),
//! minutes of the day; `end < start` is a window that crosses midnight.

use vstd::prelude::*;
use crate::order::{is_index_permutation, sorted_by_keys, sort_by_keys, Key3, lists_index};
use crate::plans::PlanError;

verus! {

/// One daily time window, its endpoints minutes of the day (0 is 00:00). A window
/// that crosses midnight has `end_minute < start_minute`, so 20:00–01:00 is
/// (1200, 60). Endpoints of 1440 or more are kept as they come; merging lays
/// them out as segments like any other (see `window_segs`).
#[derive(Clone, Copy, Debug, PartialEq, Eq, Structural)]
pub struct TimeWindow {
    pub start_minute: u16,
    pub end_minute: u16,
}

/// Whether window `w` covers minute `m` of a day.
pub open spec fn window_covers(w: TimeWindow, m: int) -> bool {
    if w.start_minute < w.end_minute {
        w.start_minute <= m < w.end_minute
    } else if w.start_minute > w.end_minute {
        m >= w.start_minute || m < w.end_minute
    } else {
        false
    }
}

/// Whether some window of `ws` covers minute `m`.
pub open spec fn covered(ws: Seq<TimeWindow>, m: int) -> bool {
    exists|k: int| 0 <= k < ws.len() && window_covers(ws[k], m)
}

/// Every window bound is a minute of the day.
pub open spec fn windows_in_day(ws: Seq<TimeWindow>) -> bool {
    forall|k: int| 0 <= k < ws.len() ==> (#[trigger] ws[k]).start_minute < 1440 && ws[k].end_minute < 1440
}

/// Every minute of the day is covered.
pub open spec fn covers_whole_day(ws: Seq<TimeWindow>) -> bool {
    forall|m: int| 0 <= m < 1440 ==> #[trigger] covered(ws, m)
}

/// The minute before `m` on the clock face.
pub open spec fn minute_before(m: int) -> int {
    if m == 0 { 1439 } else { m - 1 }
}

/// Normal form: each window is a maximal run of covered minutes (its start is
/// covered and the minute before it is not; its end is not covered), windows
/// are non-empty, inside the day, and sorted by start.
pub open spec fn normalized(ws: Seq<TimeWindow>) -> bool {
    &&& windows_in_day(ws)
    &&& forall|k: int| 0 <= k < ws.len() ==> (#[trigger] ws[k]).start_minute != ws[k].end_minute
    &&& forall|k: int| 0 <= k < ws.len() ==> !covered(ws, minute_before((#[trigger] ws[k]).start_minute as int))
    &&& forall|k: int| 0 <= k < ws.len() ==> !covered(ws, (#[trigger] ws[k]).end_minute as int)
    &&& forall|a: int, b: int| 0 <= a < b < ws.len() ==> ws[a].start_minute < ws[b].start_minute
}

/// Linear segment coverage: `[s, e)` on the integer line.
pub open spec fn seg_covers(seg: (u32, u32), m: int) -> bool {
    seg.0 <= m < seg.1
}

pub open spec fn segs_cover(segs: Seq<(u32, u32)>, m: int) -> bool {
    exists|k: int| 0 <= k < segs.len() && seg_covers(segs[k], m)
}

/// Some segment among the first `i` starts at `x`.
pub open spec fn has_start(segs: Seq<(u32, u32)>, i: int, x: u32) -> bool {
    exists|j: int| 0 <= j < i && j < segs.len() && segs[j].0 == x
}

/// Some segment among the first `i` ends at `x`.
pub open spec fn has_end(segs: Seq<(u32, u32)>, i: int, x: u32) -> bool {
    exists|j: int| 0 <= j < i && j < segs.len() && segs[j].1 == x
}

/// Linear segments sorted with strict gaps between neighbours, each non-empty.
pub open spec fn segs_separated(segs: Seq<(u32, u32)>) -> bool {
    &&& forall|k: int| 0 <= k < segs.len() ==> (#[trigger] segs[k]).0 < segs[k].1
    &&& forall|a: int, b: int| 0 <= a < b < segs.len() ==> segs[a].1 < segs[b].0
}

/// Splits the windows into linear segments inside `[0, 1440]`.
fn split_segments(windows: &Vec<TimeWindow>) -> (segs: Vec<(u32, u32)>)
    requires
        windows_in_day(windows@),
    ensures
        forall|m: int| 0 <= m < 1440 ==> (segs_cover(segs@, m) == covered(windows@, m)),
        forall|m: int| (m < 0 || m >= 1440) ==> !segs_cover(segs@, m),
        forall|k: int| 0 <= k < segs@.len() ==> (#[trigger] segs@[k]).0 < segs@[k].1 && segs@[k].1 <= 1440,
{
    let mut segs: Vec<(u32, u32)> = Vec::new();
    let n = windows.len();
    let mut i: usize = 0;
    while i < n
        invariant
            n == windows@.len(),
            i <= n,
            windows_in_day(windows@),
            forall|m: int| 0 <= m < 1440 ==> (segs_cover(segs@, m) == covered(windows@.subrange(0, i as int), m)),
            forall|m: int| (m < 0 || m >= 1440) ==> !segs_cover(segs@, m),
            forall|k: int| 0 <= k < segs@.len() ==> (#[trigger] segs@[k]).0 < segs@[k].1 && segs@[k].1 <= 1440,
        decreases n - i,
    {
        let w = windows[i];
        let s = w.start_minute as u32;
        let e = w.end_minute as u32;
        let ghost before = segs@;
        assert(windows@[i as int].start_minute < 1440 && windows@[i as int].end_minute < 1440);
        if s < e {
            segs.push((s, e));
        } else if s > e {
            segs.push((s, 1440));
            if e > 0 {
                segs.push((0, e));
            }
        }
        proof {
            let pre = windows@.subrange(0, i as int);
            let post = windows@.subrange(0, i + 1);
            assert forall|m: int| 0 <= m < 1440 implies (segs_cover(segs@, m) == covered(post, m)) by {
                if covered(post, m) {
                    let k = choose|k: int| 0 <= k < post.len() && window_covers(post[k], m);
                    if k < i {
                        assert(pre[k] == post[k]);
                        assert(covered(pre, m));
                        assert(segs_cover(before, m) == covered(pre, m));
                        let q = choose|q: int| 0 <= q < before.len() && seg_covers(before[q], m);
                        assert(segs@[q] == before[q]);
                    } else {
                        assert(post[k] == w);
                        if s < e {
                            assert(seg_covers(segs@[before.len() as int], m));
                        } else if m >= s {
                            assert(seg_covers(segs@[before.len() as int], m));
                        } else {
                            assert(seg_covers(segs@[before.len() as int + 1], m));
                        }
                    }
                }
                if segs_cover(segs@, m) {
                    let q = choose|q: int| 0 <= q < segs@.len() && seg_covers(segs@[q], m);
                    if q < before.len() {
                        assert(segs@[q] == before[q]);
                        assert(segs_cover(before, m));
                        assert(segs_cover(before, m) == covered(pre, m));
                        let k = choose|k: int| 0 <= k < pre.len() && window_covers(pre[k], m);
                        assert(post[k] == pre[k]);
                    } else {
                        assert(post[i as int] == w);
                        assert(window_covers(w, m));
                    }
                }
            }
            assert forall|m: int| (m < 0 || m >= 1440) implies !segs_cover(segs@, m) by {
                if segs_cover(segs@, m) {
                    let q = choose|q: int| 0 <= q < segs@.len() && seg_covers(segs@[q], m);
                    if q < before.len() {
                        assert(segs@[q] == before[q]);
                        assert(segs_cover(before, m));
                    }
                }
            }
        }
        i = i + 1;
    }
    assert(windows@.subrange(0, n as int) =~= windows@);
    segs
}

/// `seg` is one of `segs`.
pub open spec fn from_segs(segs: Seq<(u32, u32)>, seg: (u32, u32)) -> bool {
    exists|j: int| 0 <= j < segs.len() && segs[j] == seg
}

/// Sorts linear segments by start (then end).
fn sort_segments(segs: &Vec<(u32, u32)>) -> (r: Vec<(u32, u32)>)
    ensures
        r@.len() == segs@.len(),
        forall|m: int| segs_cover(r@, m) == segs_cover(segs@, m),
        forall|k: int| 0 <= k < r@.len() ==> #[trigger] from_segs(segs@, r@[k]),
        forall|a: int, b: int| 0 <= a < b < r@.len() ==> r@[a].0 <= r@[b].0,
        sorted_perm_of(segs@, r@),
{
    let n = segs.len();
    let mut keys: Vec<Key3> = Vec::new();
    let mut i: usize = 0;
    while i < n
        invariant
            n == segs@.len(),
            i <= n,
            keys@.len() == i,
            forall|k: int| 0 <= k < i ==> #[trigger] keys@[k] == (segs@[k].0 as i64, segs@[k].1 as i64, 0i64),
        decreases n - i,
    {
        keys.push((segs[i].0 as i64, segs[i].1 as i64, 0));
        i = i + 1;
    }
    let order = sort_by_keys(&keys);
    let mut r: Vec<(u32, u32)> = Vec::new();
    let mut j: usize = 0;
    while j < n
        invariant
            n == segs@.len(),
            n == keys@.len(),
            forall|k: int| 0 <= k < n ==> #[trigger] keys@[k] == (segs@[k].0 as i64, segs@[k].1 as i64, 0i64),
            is_index_permutation(order@, n as int),
            sorted_by_keys(order@, keys@),
            j <= n,
            r@.len() == j,
            forall|k: int| 0 <= k < j ==> #[trigger] r@[k] == segs@[order@[k] as int],
        decreases n - j,
    {
        r.push(segs[order[j]]);
        j = j + 1;
    }
    proof {
        assert forall|m: int| segs_cover(r@, m) == segs_cover(segs@, m) by {
            if segs_cover(r@, m) {
                let q = choose|q: int| 0 <= q < r@.len() && seg_covers(r@[q], m);
                assert(seg_covers(segs@[order@[q] as int], m));
            }
            if segs_cover(segs@, m) {
                let q = choose|q: int| 0 <= q < segs@.len() && seg_covers(segs@[q], m);
                assert(lists_index(order@, q));
                let p = choose|p: int| 0 <= p < order@.len() && order@[p] == q;
                assert(r@[p] == segs@[q]);
            }
        }
        assert forall|k: int| 0 <= k < r@.len() implies #[trigger] from_segs(segs@, r@[k]) by {
            assert(order@[k] < n);
            assert(r@[k] == segs@[order@[k] as int]);
        }
        assert forall|a: int, b: int| 0 <= a < b < r@.len() implies r@[a].0 <= r@[b].0 by {
            assert(crate::order::key_le(keys@[order@[a] as int], keys@[order@[b] as int]));
            assert(order@[a] < n && order@[b] < n);
        }
        assert forall|a: int, b: int| 0 <= a < b < r@.len() implies seg_le(r@[a], r@[b]) by {
            assert(crate::order::key_le(keys@[order@[a] as int], keys@[order@[b] as int]));
            assert(order@[a] < n && order@[b] < n);
        }
        assert(is_index_permutation(order@, segs@.len() as int)
            && forall|k: int| 0 <= k < r@.len() ==> #[trigger] r@[k] == segs@[order@[k] as int]);
    }
    r
}

/// Merges sorted segments that overlap or touch into separated segments.
fn merge_sorted(sorted: &Vec<(u32, u32)>) -> (r: Vec<(u32, u32)>)
    requires
        forall|k: int| 0 <= k < sorted@.len() ==> (#[trigger] sorted@[k]).0 < sorted@[k].1,
        forall|a: int, b: int| 0 <= a < b < sorted@.len() ==> sorted@[a].0 <= sorted@[b].0,
    ensures
        forall|m: int| segs_cover(r@, m) == segs_cover(sorted@, m),
        segs_separated(r@),
        forall|k: int| 0 <= k < r@.len() ==> has_start(sorted@, sorted@.len() as int, (#[trigger] r@[k]).0),
        forall|k: int| 0 <= k < r@.len() ==> has_end(sorted@, sorted@.len() as int, (#[trigger] r@[k]).1),
        sorted@.len() > 0 ==> r@.len() > 0,
{
    let n = sorted.len();
    let mut r: Vec<(u32, u32)> = Vec::new();
    let mut i: usize = 0;
    while i < n
        invariant
            n == sorted@.len(),
            i <= n,
            forall|k: int| 0 <= k < sorted@.len() ==> (#[trigger] sorted@[k]).0 < sorted@[k].1,
            forall|a: int, b: int| 0 <= a < b < sorted@.len() ==> sorted@[a].0 <= sorted@[b].0,
            forall|m: int| segs_cover(r@, m) == segs_cover(sorted@.subrange(0, i as int), m),
            segs_separated(r@),
            i > 0 ==> r@.len() > 0,
            i > 0 ==> forall|k: int| 0 <= k < i ==> #[trigger] sorted@[k].0 >= r@[0].0,
            i > 0 ==> forall|k: int| 0 <= k < i ==> #[trigger] sorted@[k].1 <= r@.last().1,
            i > 0 ==> forall|k: int| 0 <= k < r@.len() ==> r@[k].0 <= sorted@[i - 1].0,
            forall|k: int| 0 <= k < r@.len() ==> has_start(sorted@, i as int, (#[trigger] r@[k]).0),
            forall|k: int| 0 <= k < r@.len() ==> has_end(sorted@, i as int, (#[trigger] r@[k]).1),
        decreases n - i,
    {
        let (s, e) = sorted[i];
        let ghost before = r@;
        let ghost pre = sorted@.subrange(0, i as int);
        let ghost post = sorted@.subrange(0, i + 1);
        let len = r.len();
        if len > 0 && s <= r[len - 1].1 {
            let last = r[len - 1];
            let new_end = if e > last.1 { e } else { last.1 };
            r.set(len - 1, (last.0, new_end));
            proof {
                assert forall|m: int| segs_cover(r@, m) == segs_cover(post, m) by {
                    if segs_cover(r@, m) {
                        let q = choose|q: int| 0 <= q < r@.len() && seg_covers(r@[q], m);
                        if q < len - 1 {
                            assert(r@[q] == before[q]);
                            assert(segs_cover(before, m));
                            assert(segs_cover(before, m) == segs_cover(pre, m));
                            let k = choose|k: int| 0 <= k < pre.len() && seg_covers(pre[k], m);
                            assert(post[k] == pre[k]);
                        } else if m < last.1 {
                            assert(seg_covers(before[len - 1], m));
                            assert(segs_cover(before, m));
                            assert(segs_cover(before, m) == segs_cover(pre, m));
                            let k = choose|k: int| 0 <= k < pre.len() && seg_covers(pre[k], m);
                            assert(post[k] == pre[k]);
                        } else {
                            assert(seg_covers(post[i as int], m));
                        }
                    }
                    if segs_cover(post, m) {
                        let k = choose|k: int| 0 <= k < post.len() && seg_covers(post[k], m);
                        if k < i {
                            assert(pre[k] == post[k]);
                            assert(segs_cover(pre, m));
                            assert(segs_cover(before, m) == segs_cover(pre, m));
                            let q = choose|q: int| 0 <= q < before.len() && seg_covers(before[q], m);
                            if q < len - 1 {
                                assert(r@[q] == before[q]);
                            } else {
                                assert(seg_covers(r@[len - 1], m));
                            }
                        } else {
                            assert(seg_covers(r@[len - 1], m));
                        }
                    }
                }
                assert forall|k: int| 0 <= k < r@.len() implies has_end(sorted@, i + 1, (#[trigger] r@[k]).1) by {
                    if k < len - 1 {
                        assert(r@[k] == before[k]);
                        assert(has_end(sorted@, i as int, before[k].1));
                        let j0 = choose|j: int| 0 <= j < i && j < sorted@.len() && sorted@[j].1 == before[k].1;
                    } else if e > last.1 {
                        assert(sorted@[i as int].1 == r@[k].1);
                    } else {
                        assert(before[k] == last);
                        assert(has_end(sorted@, i as int, before[k].1));
                        let j0 = choose|j: int| 0 <= j < i && j < sorted@.len() && sorted@[j].1 == before[k].1;
                    }
                }
                assert forall|k: int| 0 <= k < r@.len() implies has_start(sorted@, i + 1, (#[trigger] r@[k]).0) by {
                    assert(r@[k].0 == before[k].0);
                    assert(has_start(sorted@, i as int, before[k].0));
                    let j0 = choose|j: int| 0 <= j < i && j < sorted@.len() && sorted@[j].0 == before[k].0;
                }
                assert forall|k: int| 0 <= k < i + 1 implies #[trigger] sorted@[k].0 >= r@[0].0 by {
                    assert(r@[0].0 == before[0].0);
                    if k == i {
                        assert(sorted@[i - 1].0 <= sorted@[i as int].0);
                    }
                }
            }
        } else {
            r.push((s, e));
            proof {
                assert forall|m: int| segs_cover(r@, m) == segs_cover(post, m) by {
                    if segs_cover(r@, m) {
                        let q = choose|q: int| 0 <= q < r@.len() && seg_covers(r@[q], m);
                        if q < len {
                            assert(r@[q] == before[q]);
                            assert(segs_cover(before, m));
                            assert(segs_cover(before, m) == segs_cover(pre, m));
                            let k = choose|k: int| 0 <= k < pre.len() && seg_covers(pre[k], m);
                            assert(post[k] == pre[k]);
                        } else {
                            assert(seg_covers(post[i as int], m));
                        }
                    }
                    if segs_cover(post, m) {
                        let k = choose|k: int| 0 <= k < post.len() && seg_covers(post[k], m);
                        if k < i {
                            assert(pre[k] == post[k]);
                            assert(segs_cover(pre, m));
                            assert(segs_cover(before, m) == segs_cover(pre, m));
                            let q = choose|q: int| 0 <= q < before.len() && seg_covers(before[q], m);
                            assert(r@[q] == before[q]);
                        } else {
                            assert(seg_covers(r@[len as int], m));
                        }
                    }
                }
                if len > 0 {
                    assert forall|a: int, b: int| 0 <= a < b < r@.len() implies r@[a].1 < r@[b].0 by {
                        if b < len {
                            assert(r@[a] == before[a] && r@[b] == before[b]);
                        } else {
                            assert(r@[a] == before[a]);
                            assert(before[a].1 <= before.last().1) by {
                                if a < len - 1 {
                                    assert(before[a].1 < before[len - 1].0);
                                }
                            }
                        }
                    }
                }
                assert forall|k: int| 0 <= k < r@.len() implies has_end(sorted@, i + 1, (#[trigger] r@[k]).1) by {
                    if k < len {
                        assert(r@[k] == before[k]);
                        assert(has_end(sorted@, i as int, before[k].1));
                        let j0 = choose|j: int| 0 <= j < i && j < sorted@.len() && sorted@[j].1 == before[k].1;
                    } else {
                        assert(sorted@[i as int].1 == r@[k].1);
                    }
                }
                assert forall|k: int| 0 <= k < r@.len() implies has_start(sorted@, i + 1, (#[trigger] r@[k]).0) by {
                    if k < len {
                        assert(r@[k] == before[k]);
                        assert(has_start(sorted@, i as int, before[k].0));
                        let j0 = choose|j: int| 0 <= j < i && j < sorted@.len() && sorted@[j].0 == before[k].0;
                    } else {
                        assert(sorted@[i as int].0 == r@[k].0);
                    }
                }
                if len > 0 {
                    assert forall|k: int| 0 <= k < i + 1 implies #[trigger] sorted@[k].0 >= r@[0].0 by {
                        assert(r@[0] == before[0]);
                        if k == i {
                            assert(sorted@[i - 1].0 <= sorted@[i as int].0);
                        }
                    }
                }
                assert forall|k: int| 0 <= k < r@.len() implies r@[k].0 <= sorted@[i as int].0 by {
                    if k < len {
                        assert(r@[k] == before[k]);
                        if i > 0 {
                            assert(sorted@[i - 1].0 <= sorted@[i as int].0);
                        }
                    }
                }
            }
        }
        i = i + 1;
    }
    assert(sorted@.subrange(0, n as int) =~= sorted@);
    r
}

/// The merge of windows inside the day: their normal form.
fn merge_in_day(windows: &Vec<TimeWindow>) -> (r: Result<Vec<TimeWindow>, PlanError>)
    requires
        windows_in_day(windows@),
    ensures
        r is Err <==> covers_whole_day(windows@),
        r matches Err(e) ==> e matches PlanError::InvalidSettings { .. },
        r matches Ok(out) ==> {
            &&& forall|m: int| 0 <= m < 1440 ==> covered(out@, m) == covered(windows@, m)
            &&& normalized(out@)
        },
        normalized(windows@) ==> (r matches Ok(out) && out@ == windows@),
{
    let segs = split_segments(windows);
    let sorted = sort_segments(&segs);
    proof {
        assert forall|k: int| 0 <= k < sorted@.len() implies (#[trigger] sorted@[k]).0 < sorted@[k].1 by {
            assert(from_segs(segs@, sorted@[k]));
            let j = choose|j: int| 0 <= j < segs@.len() && segs@[j] == sorted@[k];
        }
    }
    let merged = merge_sorted(&sorted);
    proof {
        assert forall|k: int| 0 <= k < merged@.len() implies (#[trigger] merged@[k]).0 < 1440 && merged@[k].1 <= 1440 by {
            assert(has_start(sorted@, sorted@.len() as int, merged@[k].0));
            assert(has_end(sorted@, sorted@.len() as int, merged@[k].1));
            let j = choose|j: int| 0 <= j < sorted@.len() && j < sorted@.len() && sorted@[j].0 == merged@[k].0;
            let j2 = choose|j: int| 0 <= j < sorted@.len() && j < sorted@.len() && sorted@[j].1 == merged@[k].1;
            assert(from_segs(segs@, sorted@[j]));
            assert(from_segs(segs@, sorted@[j2]));
            let a = choose|a: int| 0 <= a < segs@.len() && segs@[a] == sorted@[j];
            let b = choose|a: int| 0 <= a < segs@.len() && segs@[a] == sorted@[j2];
        }
    }
    let n = merged.len();
    if n == 1 && merged[0].0 == 0 && merged[0].1 == 1440 {
        proof {
            assert forall|m: int| 0 <= m < 1440 implies #[trigger] covered(windows@, m) by {
                assert(seg_covers(merged@[0], m));
            }
            if normalized(windows@) {
                lemma_normalized_leaves_a_gap(windows@);
            }
        }
        return Err(PlanError::InvalidSettings { reason: "时间窗口并集不能覆盖全天".to_string() });
    }
    proof {
        // Not the whole day: some minute is uncovered.
        if covers_whole_day(windows@) {
            lemma_full_cover_is_one_segment(merged@);
            assert(false);
        }
    }
    let r = finish_windows(&merged);
    proof {
        if normalized(windows@) {
            if r is Ok {
                lemma_normal_form_unique(r->Ok_0@, windows@);
            }
        }
    }
    r
}

/// Distance on the clock face from minute `s` forward to minute `m`.
pub open spec fn arc(s: int, m: int) -> int {
    if m >= s { m - s } else { m + 1440 - s }
}

/// A window covers exactly the minutes less than its length past its start.
proof fn lemma_window_arc(w: TimeWindow, m: int)
    requires
        w.start_minute < 1440,
        w.end_minute < 1440,
        w.start_minute != w.end_minute,
        0 <= m < 1440,
    ensures
        window_covers(w, m) <==> arc(w.start_minute as int, m) < arc(w.start_minute as int, w.end_minute as int),
        0 < arc(w.start_minute as int, w.end_minute as int) < 1440,
{
}

/// A normalized list leaves some minute of the day uncovered.
proof fn lemma_normalized_leaves_a_gap(ws: Seq<TimeWindow>)
    requires
        normalized(ws),
    ensures
        !covers_whole_day(ws),
{
    if ws.len() == 0 {
        assert(!covered(ws, 0));
    } else {
        assert(!covered(ws, ws[0].end_minute as int));
    }
}

/// Some window of `ws` starts at minute `x`.
pub open spec fn start_in(ws: Seq<TimeWindow>, x: int) -> bool {
    exists|k: int| 0 <= k < ws.len() && ws[k].start_minute == x
}

/// In a normalized list the window starts are exactly the covered minutes whose
/// previous minute is not covered.
proof fn lemma_starts_of_normalized(ws: Seq<TimeWindow>, x: int)
    requires
        normalized(ws),
        0 <= x < 1440,
    ensures
        start_in(ws, x) <==> (covered(ws, x) && !covered(ws, minute_before(x))),
{
    if start_in(ws, x) {
        let k = choose|k: int| 0 <= k < ws.len() && ws[k].start_minute == x;
        lemma_window_arc(ws[k], x);
        assert(window_covers(ws[k], x));
    }
    if covered(ws, x) && !covered(ws, minute_before(x)) {
        let k = choose|k: int| 0 <= k < ws.len() && window_covers(ws[k], x);
        if ws[k].start_minute != x {
            lemma_window_arc(ws[k], x);
            lemma_window_arc(ws[k], minute_before(x));
            assert(window_covers(ws[k], minute_before(x)));
            assert(false);
        }
    }
}

/// Two normalized lists that cover the same minutes are the same list.
proof fn lemma_normal_form_unique(a: Seq<TimeWindow>, b: Seq<TimeWindow>)
    requires
        normalized(a),
        normalized(b),
        forall|m: int| 0 <= m < 1440 ==> covered(a, m) == covered(b, m),
    ensures
        a == b,
{
    // Every start of one list is a start of the other.
    assert forall|i: int| 0 <= i < a.len() implies start_in(b, (#[trigger] a[i]).start_minute as int) by {
        let x = a[i].start_minute as int;
        lemma_starts_of_normalized(a, x);
        lemma_starts_of_normalized(b, x);
    }
    assert forall|j: int| 0 <= j < b.len() implies start_in(a, (#[trigger] b[j]).start_minute as int) by {
        let x = b[j].start_minute as int;
        lemma_starts_of_normalized(a, x);
        lemma_starts_of_normalized(b, x);
    }
    lemma_sorted_starts_agree(a, b, 0);
    assert forall|i: int| 0 <= i < a.len() implies a[i] == b[i] by {
        let s = a[i].start_minute as int;
        let ea = a[i].end_minute as int;
        let eb = b[i].end_minute as int;
        lemma_window_arc(a[i], ea);
        lemma_window_arc(b[i], eb);
        lemma_window_arc(a[i], eb);
        lemma_window_arc(b[i], ea);
        assert(!covered(a, ea));
        assert(!covered(b, eb));
        if arc(s, ea) < arc(s, eb) {
            assert(window_covers(b[i], ea));
            assert(covered(b, ea));
            assert(false);
        }
        if arc(s, eb) < arc(s, ea) {
            assert(window_covers(a[i], eb));
            assert(covered(a, eb));
            assert(false);
        }
    }
    assert(a =~= b);
}

/// Two lists strictly sorted by start with the same set of starts have the same
/// length and the same start at each index.
proof fn lemma_sorted_starts_agree(a: Seq<TimeWindow>, b: Seq<TimeWindow>, k: int)
    requires
        0 <= k,
        k <= a.len(),
        k <= b.len(),
        forall|x: int, y: int| 0 <= x < y < a.len() ==> a[x].start_minute < a[y].start_minute,
        forall|x: int, y: int| 0 <= x < y < b.len() ==> b[x].start_minute < b[y].start_minute,
        forall|i: int| 0 <= i < a.len() ==> start_in(b, (#[trigger] a[i]).start_minute as int),
        forall|j: int| 0 <= j < b.len() ==> start_in(a, (#[trigger] b[j]).start_minute as int),
        forall|i: int| 0 <= i < k ==> a[i].start_minute == b[i].start_minute,
    ensures
        a.len() == b.len(),
        forall|i: int| 0 <= i < a.len() ==> a[i].start_minute == b[i].start_minute,
    decreases a.len() + b.len() - 2 * k,
{
    if k < a.len() && k < b.len() {
        let j = choose|j: int| 0 <= j < b.len() && b[j].start_minute == a[k].start_minute;
        let i = choose|i: int| 0 <= i < a.len() && a[i].start_minute == b[k].start_minute;
        if j < k {
            assert(a[j].start_minute == b[j].start_minute);
            assert(false);
        }
        if i < k {
            assert(a[i].start_minute == b[i].start_minute);
            assert(false);
        }
        // j > k would put b[k] strictly before a[k], found in a at i > k.
        assert(j == k);
        lemma_sorted_starts_agree(a, b, k + 1);
    } else if k < a.len() {
        let j = choose|j: int| 0 <= j < b.len() && b[j].start_minute == a[k].start_minute;
        assert(a[j].start_minute == b[j].start_minute);
        assert(false);
    } else if k < b.len() {
        let i = choose|i: int| 0 <= i < a.len() && a[i].start_minute == b[k].start_minute;
        assert(a[i].start_minute == b[i].start_minute);
        assert(false);
    }
}

/// Separated segments inside `[0, 1440]` that cover every minute of the day form
/// the single segment `[0, 1440)`.
proof fn lemma_full_cover_is_one_segment(merged: Seq<(u32, u32)>)
    requires
        segs_separated(merged),
        forall|k: int| 0 <= k < merged.len() ==> (#[trigger] merged[k]).0 < 1440 && merged[k].1 <= 1440,
        forall|m: int| 0 <= m < 1440 ==> segs_cover(merged, m),
    ensures
        merged.len() == 1,
        merged[0] == (0u32, 1440u32),
{
    assert(segs_cover(merged, 0));
    let q = choose|q: int| 0 <= q < merged.len() && seg_covers(merged[q], 0);
    assert(merged[q].0 == 0);
    if merged[q].1 < 1440 {
        let m = merged[q].1 as int;
        assert(segs_cover(merged, m));
        let q2 = choose|q2: int| 0 <= q2 < merged.len() && seg_covers(merged[q2], m);
        if q2 < q {
            assert(merged[q2].1 < merged[q].0);
        } else if q2 > q {
            assert(merged[q].1 < merged[q2].0);
        }
        assert(false);
    }
    if merged.len() > 1 {
        let other = if q == 0 { 1int } else { 0int };
        if other < q {
            assert(merged[other].1 < merged[q].0);
        } else {
            assert(merged[q].1 < merged[other].0);
        }
        assert(false);
    }
}

/// Turns separated linear segments (not the whole day) into windows, joining the
/// segment that ends at midnight with the one that starts at midnight.
fn finish_windows(merged: &Vec<(u32, u32)>) -> (r: Result<Vec<TimeWindow>, PlanError>)
    requires
        segs_separated(merged@),
        forall|k: int| 0 <= k < merged@.len() ==> (#[trigger] merged@[k]).0 < 1440 && merged@[k].1 <= 1440,
        !(merged@.len() == 1 && merged@[0] == (0u32, 1440u32)),
    ensures
        r matches Ok(out) && {
            &&& forall|m: int| 0 <= m < 1440 ==> covered(out@, m) == segs_cover(merged@, m)
            &&& normalized(out@)
        },
{
    let n = merged.len();
    if n >= 2 && merged[n - 1].1 == 1440 && merged[0].0 == 0 {
        // The last segment runs to midnight and the first starts there: one window.
        let joined = TimeWindow { start_minute: merged[n - 1].0 as u16, end_minute: merged[0].1 as u16 };
        let mut out: Vec<TimeWindow> = Vec::new();
        let mut k: usize = 1;
        while k < n - 1
            invariant
                2 <= n == merged@.len(),
                1 <= k <= n - 1,
                out@.len() == k - 1,
                forall|j: int| 0 <= j < out@.len() ==> #[trigger] out@[j] == (TimeWindow {
                    start_minute: merged@[j + 1].0 as u16,
                    end_minute: merged@[j + 1].1 as u16,
                }),
            decreases n - 1 - k,
        {
            out.push(TimeWindow { start_minute: merged[k].0 as u16, end_minute: merged[k].1 as u16 });
            k = k + 1;
        }
        out.push(joined);
        proof {
            lemma_joined_windows(merged@, out@);
        }
        Ok(out)
    } else {
        let mut out: Vec<TimeWindow> = Vec::new();
        let mut k: usize = 0;
        while k < n
            invariant
                n == merged@.len(),
                k <= n,
                out@.len() == k,
                forall|j: int| 0 <= j < out@.len() ==> #[trigger] out@[j] == (TimeWindow {
                    start_minute: merged@[j].0 as u16,
                    end_minute: (merged@[j].1 % 1440) as u16,
                }),
            decreases n - k,
        {
            out.push(TimeWindow { start_minute: merged[k].0 as u16, end_minute: (merged[k].1 % 1440) as u16 });
            k = k + 1;
        }
        proof {
            lemma_plain_windows(merged@, out@);
        }
        Ok(out)
    }
}

/// Windows read straight off separated segments (no midnight join needed).
proof fn lemma_plain_windows(merged: Seq<(u32, u32)>, out: Seq<TimeWindow>)
    requires
        segs_separated(merged),
        forall|k: int| 0 <= k < merged.len() ==> (#[trigger] merged[k]).0 < 1440 && merged[k].1 <= 1440,
        !(merged.len() == 1 && merged[0] == (0u32, 1440u32)),
        !(merged.len() >= 2 && merged[merged.len() - 1].1 == 1440 && merged[0].0 == 0),
        out.len() == merged.len(),
        forall|j: int| 0 <= j < out.len() ==> #[trigger] out[j] == (TimeWindow {
            start_minute: merged[j].0 as u16,
            end_minute: (merged[j].1 % 1440) as u16,
        }),
    ensures
        forall|m: int| 0 <= m < 1440 ==> covered(out, m) == segs_cover(merged, m),
        normalized(out),
{
    assert forall|j: int| 0 <= j < out.len() implies
        forall|m: int| 0 <= m < 1440 ==> (window_covers(#[trigger] out[j], m) == seg_covers(merged[j], m)) by {
        assert(out[j].start_minute == merged[j].0);
        if merged[j].1 == 1440 {
            assert(out[j].end_minute == 0);
        } else {
            assert(out[j].end_minute == merged[j].1);
        }
    }
    assert forall|m: int| 0 <= m < 1440 implies covered(out, m) == segs_cover(merged, m) by {
        if covered(out, m) {
            let k = choose|k: int| 0 <= k < out.len() && window_covers(out[k], m);
            assert(seg_covers(merged[k], m));
        }
        if segs_cover(merged, m) {
            let k = choose|k: int| 0 <= k < merged.len() && seg_covers(merged[k], m);
            assert(window_covers(out[k], m));
        }
    }
    assert forall|k: int| 0 <= k < out.len() implies !covered(out, minute_before((#[trigger] out[k]).start_minute as int)) by {
        let s = merged[k].0 as int;
        let b = minute_before(s);
        if covered(out, b) {
            assert(segs_cover(merged, b));
            let q = choose|q: int| 0 <= q < merged.len() && seg_covers(merged[q], b);
            if s == 0 {
                // Minute 1439 is covered: by the last segment, which ends at 1440.
                assert(merged[q].1 == 1440);
                if q != k {
                    if q < k {
                        assert(merged[q].1 < merged[k].0);
                    }
                    assert(k == 0 || merged[0].0 <= merged[k].0) by {
                        if k > 0 {
                            assert(merged[0].1 < merged[k].0);
                        }
                    }
                    assert(merged[q].0 > 0) by {
                        if q > k {
                            assert(merged[k].1 < merged[q].0);
                        }
                    }
                    if k == 0 {
                        assert(q == merged.len() - 1) by {
                            if q < merged.len() - 1 {
                                assert(merged[q].1 < merged[merged.len() - 1].0);
                            }
                        }
                    }
                }
                if q == k {
                    assert(merged[k].0 == 0 && merged[k].1 == 1440);
                    assert(merged.len() >= 2);
                    let other = if k == 0 { 1int } else { 0int };
                    if other < k {
                        assert(merged[other].1 < merged[k].0);
                    } else {
                        assert(merged[k].1 < merged[other].0);
                    }
                }
            } else {
                if q < k {
                    assert(merged[q].1 < merged[k].0);
                } else if q > k {
                    assert(merged[k].1 < merged[q].0);
                }
            }
        }
    }
    assert forall|k: int| 0 <= k < out.len() implies !covered(out, (#[trigger] out[k]).end_minute as int) by {
        let e = out[k].end_minute as int;
        if covered(out, e) {
            assert(segs_cover(merged, e));
            let q = choose|q: int| 0 <= q < merged.len() && seg_covers(merged[q], e);
            if merged[k].1 == 1440 {
                // e == 0 is covered only by a segment starting at 0.
                assert(merged[q].0 == 0);
                if q == k {
                } else if q < k {
                    assert(merged[q].1 < merged[k].0);
                    assert(k == merged.len() - 1) by {
                        if k < merged.len() - 1 {
                            assert(merged[k].1 < merged[merged.len() - 1].0);
                        }
                    }
                    assert(q == 0) by {
                        if q > 0 {
                            assert(merged[0].1 < merged[q].0);
                        }
                    }
                } else {
                    assert(merged[k].1 < merged[q].0);
                }
            } else {
                if q < k {
                    assert(merged[q].1 < merged[k].0);
                } else if q > k {
                    assert(merged[k].1 < merged[q].0);
                }
            }
        }
    }
    assert forall|a: int, b: int| 0 <= a < b < out.len() implies out[a].start_minute < out[b].start_minute by {
        assert(merged[a].1 < merged[b].0);
    }
    assert forall|k: int| 0 <= k < out.len() implies (#[trigger] out[k]).start_minute != out[k].end_minute by {
        if merged[k].1 == 1440 {
            if merged[k].0 == 0 {
                assert(merged.len() >= 2);
                let other = if k == 0 { 1int } else { 0int };
                if other < k {
                    assert(merged[other].1 < merged[k].0);
                } else {
                    assert(merged[k].1 < merged[other].0);
                }
            }
        }
    }
}

/// Windows read off separated segments where the last segment runs to midnight
/// and the first starts at midnight: those two become one window, placed last.
proof fn lemma_joined_windows(merged: Seq<(u32, u32)>, out: Seq<TimeWindow>)
    requires
        segs_separated(merged),
        forall|k: int| 0 <= k < merged.len() ==> (#[trigger] merged[k]).0 < 1440 && merged[k].1 <= 1440,
        merged.len() >= 2,
        merged[merged.len() - 1].1 == 1440,
        merged[0].0 == 0,
        out.len() == merged.len() - 1,
        forall|j: int| 0 <= j < out.len() - 1 ==> #[trigger] out[j] == (TimeWindow {
            start_minute: merged[j + 1].0 as u16,
            end_minute: merged[j + 1].1 as u16,
        }),
        out[out.len() - 1] == (TimeWindow {
            start_minute: merged[merged.len() - 1].0 as u16,
            end_minute: merged[0].1 as u16,
        }),
    ensures
        forall|m: int| 0 <= m < 1440 ==> covered(out, m) == segs_cover(merged, m),
        normalized(out),
{
    let n = merged.len();
    let last = n - 1;
    assert(merged[0].1 < merged[last].0);
    assert forall|j: int| 0 <= j < out.len() - 1 implies (#[trigger] out[j]).end_minute == merged[j + 1].1 && merged[j + 1].1 < 1440 by {
        assert(merged[j + 1].1 < merged[last].0);
    }
    assert forall|m: int| 0 <= m < 1440 implies covered(out, m) == segs_cover(merged, m) by {
        if covered(out, m) {
            let k = choose|k: int| 0 <= k < out.len() && window_covers(out[k], m);
            if k < out.len() - 1 {
                assert(merged[k + 1].1 < 1440);
                assert(seg_covers(merged[k + 1], m));
            } else if m >= merged[last].0 {
                assert(seg_covers(merged[last], m));
            } else {
                assert(seg_covers(merged[0], m));
            }
        }
        if segs_cover(merged, m) {
            let q = choose|q: int| 0 <= q < merged.len() && seg_covers(merged[q], m);
            if q == 0 || q == last {
                assert(window_covers(out[out.len() - 1], m));
            } else {
                assert(merged[q].1 < 1440);
                assert(window_covers(out[q - 1], m));
            }
        }
    }
    // Both halves of the joined window are covered; everything else follows the segments.
    assert forall|k: int| 0 <= k < out.len() implies !covered(out, minute_before((#[trigger] out[k]).start_minute as int)) by {
        let idx = if k < out.len() - 1 { k + 1 } else { last };
        let s = merged[idx].0 as int;
        assert(out[k].start_minute == s);
        assert(s > 0) by {
            assert(merged[0].1 < merged[idx].0);
        }
        let b = s - 1;
        if covered(out, b) {
            assert(segs_cover(merged, b));
            let q = choose|q: int| 0 <= q < merged.len() && seg_covers(merged[q], b);
            if q < idx {
                assert(merged[q].1 < merged[idx].0);
            } else if q > idx {
                assert(merged[idx].1 < merged[q].0);
            }
        }
    }
    assert forall|k: int| 0 <= k < out.len() implies !covered(out, (#[trigger] out[k]).end_minute as int) by {
        let idx = if k < out.len() - 1 { k + 1 } else { 0 };
        let e = merged[idx].1 as int;
        assert(e < 1440) by {
            if idx > 0 {
                assert(merged[idx].1 < merged[last].0);
            }
        }
        assert(out[k].end_minute == e);
        if covered(out, e) {
            assert(segs_cover(merged, e));
            let q = choose|q: int| 0 <= q < merged.len() && seg_covers(merged[q], e);
            if q < idx {
                assert(merged[q].1 < merged[idx].0);
            } else if q > idx {
                assert(merged[idx].1 < merged[q].0);
            }
        }
    }
    assert forall|a: int, b: int| 0 <= a < b < out.len() implies out[a].start_minute < out[b].start_minute by {
        if b < out.len() - 1 {
            assert(merged[a + 1].1 < merged[b + 1].0);
        } else {
            assert(merged[a + 1].0 < merged[a + 1].1);
            if a + 1 < last {
                assert(merged[a + 1].1 < merged[last].0);
            }
        }
    }
    assert forall|k: int| 0 <= k < out.len() implies (#[trigger] out[k]).start_minute != out[k].end_minute by {
        if k < out.len() - 1 {
            assert(merged[k + 1].0 < merged[k + 1].1);
        }
    }
}


/// The linear segments the merge lays one window out as, on the line from 0 to
/// 1440: start < end gives [start, end); start > end runs to midnight,
/// [start, 1440), and on from 00:00, [0, end), when its end is past 00:00; a
/// window whose start equals its end gives none. Endpoints are taken as they
/// are, 23:59 or not.
pub open spec fn window_segs(w: TimeWindow) -> Seq<(u32, u32)> {
    let s = w.start_minute as u32;
    let e = w.end_minute as u32;
    if s < e {
        seq![(s, e)]
    } else if s > e {
        if e > 0 { seq![(s, 1440u32), (0u32, e)] } else { seq![(s, 1440u32)] }
    } else {
        seq![]
    }
}

/// The segments of all windows, window by window.
pub open spec fn all_segs(ws: Seq<TimeWindow>) -> Seq<(u32, u32)>
    decreases ws.len(),
{
    if ws.len() == 0 { seq![] } else { all_segs(ws.drop_last()) + window_segs(ws.last()) }
}

/// Segment order: by start, then by end.
pub open spec fn seg_le(a: (u32, u32), b: (u32, u32)) -> bool {
    a.0 < b.0 || (a.0 == b.0 && a.1 <= b.1)
}

/// `q` holds the segments of `segs`, each once, in segment order.
pub open spec fn sorted_perm_of(segs: Seq<(u32, u32)>, q: Seq<(u32, u32)>) -> bool {
    &&& q.len() == segs.len()
    &&& exists|order: Seq<usize>| is_index_permutation(order, segs.len() as int)
            && forall|k: int| 0 <= k < q.len() ==> #[trigger] q[k] == segs[order[k] as int]
    &&& forall|a: int, b: int| 0 <= a < b < q.len() ==> seg_le(q[a], q[b])
}

/// Runs of segments taken in order: a segment that starts at or before the end
/// of the last run extends that run to the later of the two ends; any other
/// segment opens a new run.
pub open spec fn runs_of(q: Seq<(u32, u32)>) -> Seq<(u32, u32)>
    decreases q.len(),
{
    if q.len() == 0 {
        seq![]
    } else {
        let m = runs_of(q.drop_last());
        let x = q.last();
        if m.len() > 0 && x.0 <= m.last().1 {
            m.update(m.len() - 1, (m.last().0, if x.1 > m.last().1 { x.1 } else { m.last().1 }))
        } else {
            m.push(x)
        }
    }
}

/// The window a run becomes: its start, and its end read on the clock face.
pub open spec fn run_window(x: (u32, u32)) -> TimeWindow {
    TimeWindow { start_minute: x.0 as u16, end_minute: (x.1 % 1440) as u16 }
}

/// `w` placed after every window of `v` that starts no later than it, counting
/// from the back (one step of a stable sort by start).
pub open spec fn insert_by_start(v: Seq<TimeWindow>, w: TimeWindow) -> Seq<TimeWindow>
    decreases v.len(),
{
    if v.len() == 0 || v.last().start_minute <= w.start_minute {
        v.push(w)
    } else {
        insert_by_start(v.drop_last(), w).push(v.last())
    }
}

/// `v` stably sorted by start: windows with the same start keep their order.
pub open spec fn sort_by_start(v: Seq<TimeWindow>) -> Seq<TimeWindow>
    decreases v.len(),
{
    if v.len() == 0 { v } else { insert_by_start(sort_by_start(v.drop_last()), v.last()) }
}

/// The windows that runs `m` give, or `None` when they cover the whole day: a
/// single run [0, 1440) is refused; otherwise each run becomes a window, and
/// when the last one ends at midnight and the first starts there they become
/// one window across midnight (refused when they meet or overlap); the windows
/// are then stably sorted by start.
pub open spec fn windows_of_runs(m: Seq<(u32, u32)>) -> Option<Seq<TimeWindow>> {
    if m.len() == 1 && m[0] == (0u32, 1440u32) {
        None
    } else {
        let out = m.map_values(|x: (u32, u32)| run_window(x));
        if out.len() >= 2 && out.last().end_minute == 0 && out[0].start_minute == 0 {
            if out[0].end_minute >= out.last().start_minute {
                None
            } else {
                Some(sort_by_start(out.drop_last().update(0, TimeWindow {
                    start_minute: out.last().start_minute,
                    end_minute: out[0].end_minute,
                })))
            }
        } else {
            Some(sort_by_start(out))
        }
    }
}

/// What merging `ws` gives (`None`: refused). Windows inside the day give the
/// normal form of the minutes they cover, refused when they cover the whole
/// day. Windows with an endpoint past 23:59 are merged segment by segment:
/// their segments in segment order, joined into runs, turned back into windows
/// (see `windows_of_runs`).
pub open spec fn merge_gives(ws: Seq<TimeWindow>, out: Option<Seq<TimeWindow>>) -> bool {
    if windows_in_day(ws) {
        match out {
            None => covers_whole_day(ws),
            Some(o) => {
                &&& !covers_whole_day(ws)
                &&& normalized(o)
                &&& forall|m: int| 0 <= m < 1440 ==> covered(o, m) == covered(ws, m)
            },
        }
    } else {
        exists|q: Seq<(u32, u32)>| #[trigger] sorted_perm_of(all_segs(ws), q) && out == windows_of_runs(runs_of(q))
    }
}

/// The windows a merge result holds (`None` for a refusal).
pub open spec fn merged_of(r: Result<Vec<TimeWindow>, PlanError>) -> Option<Seq<TimeWindow>> {
    match r {
        Ok(v) => Some(v@),
        Err(_) => None,
    }
}

/// Whether every endpoint is a minute of the day.
fn all_in_day(windows: &Vec<TimeWindow>) -> (r: bool)
    ensures
        r == windows_in_day(windows@),
{
    let n = windows.len();
    let mut i: usize = 0;
    while i < n
        invariant
            n == windows@.len(),
            i <= n,
            forall|k: int| 0 <= k < i ==> (#[trigger] windows@[k]).start_minute < 1440 && windows@[k].end_minute < 1440,
        decreases n - i,
    {
        if windows[i].start_minute >= 1440 || windows[i].end_minute >= 1440 {
            return false;
        }
        i = i + 1;
    }
    true
}

/// The segments of all windows, window by window.
fn literal_segments(windows: &Vec<TimeWindow>) -> (segs: Vec<(u32, u32)>)
    ensures
        segs@ == all_segs(windows@),
{
    let mut segs: Vec<(u32, u32)> = Vec::new();
    let n = windows.len();
    let mut i: usize = 0;
    while i < n
        invariant
            n == windows@.len(),
            i <= n,
            segs@ == all_segs(windows@.subrange(0, i as int)),
        decreases n - i,
    {
        let w = windows[i];
        let s = w.start_minute as u32;
        let e = w.end_minute as u32;
        let ghost before = segs@;
        if s < e {
            segs.push((s, e));
        } else if s > e {
            segs.push((s, 1440));
            if e > 0 {
                segs.push((0, e));
            }
        }
        proof {
            let post = windows@.subrange(0, i + 1);
            assert(post.drop_last() =~= windows@.subrange(0, i as int));
            assert(post.last() == w);
            assert(segs@ =~= before + window_segs(w));
        }
        i = i + 1;
    }
    assert(windows@.subrange(0, n as int) =~= windows@);
    segs
}

/// Runs of segments taken in order (see `runs_of`).
fn literal_runs(sorted: &Vec<(u32, u32)>) -> (r: Vec<(u32, u32)>)
    ensures
        r@ == runs_of(sorted@),
{
    let n = sorted.len();
    let mut r: Vec<(u32, u32)> = Vec::new();
    let mut i: usize = 0;
    while i < n
        invariant
            n == sorted@.len(),
            i <= n,
            r@ == runs_of(sorted@.subrange(0, i as int)),
        decreases n - i,
    {
        let (s, e) = sorted[i];
        proof {
            let post = sorted@.subrange(0, i + 1);
            assert(post.drop_last() =~= sorted@.subrange(0, i as int));
            assert(post.last() == (s, e));
        }
        let len = r.len();
        if len > 0 && s <= r[len - 1].1 {
            let last = r[len - 1];
            let new_end = if e > last.1 { e } else { last.1 };
            r.set(len - 1, (last.0, new_end));
        } else {
            r.push((s, e));
        }
        i = i + 1;
    }
    assert(sorted@.subrange(0, n as int) =~= sorted@);
    r
}

/// `w` in `v` at `j`, when every window from `j` on starts after `w` and the
/// one before `j` does not, is one step of the stable sort by start.
proof fn lemma_insert_by_start_at(v: Seq<TimeWindow>, w: TimeWindow, j: int)
    requires
        0 <= j <= v.len(),
        j == 0 || v[j - 1].start_minute <= w.start_minute,
        forall|k: int| j <= k < v.len() ==> (#[trigger] v[k]).start_minute > w.start_minute,
    ensures
        insert_by_start(v, w) == v.insert(j, w),
    decreases v.len(),
{
    if v.len() == j {
        assert(v.insert(j, w) =~= v.push(w));
    } else {
        assert(v.last().start_minute > w.start_minute);
        let u = v.drop_last();
        lemma_insert_by_start_at(u, w, j);
        assert(v.insert(j, w) =~= u.insert(j, w).push(v.last()));
    }
}

/// Inserts `w` after the windows that start no later than it, from the back.
fn insert_window_by_start(v: &mut Vec<TimeWindow>, w: TimeWindow)
    ensures
        final(v)@ == insert_by_start(old(v)@, w),
{
    let mut j: usize = v.len();
    while j > 0 && v[j - 1].start_minute > w.start_minute
        invariant
            j <= v@.len(),
            v@ == old(v)@,
            forall|k: int| j <= k < v@.len() ==> (#[trigger] v@[k]).start_minute > w.start_minute,
        decreases j,
    {
        j = j - 1;
    }
    proof {
        lemma_insert_by_start_at(v@, w, j as int);
    }
    v.insert(j, w);
}

/// `v` stably sorted by start.
fn stable_sort_by_start(v: &Vec<TimeWindow>) -> (r: Vec<TimeWindow>)
    ensures
        r@ == sort_by_start(v@),
{
    let n = v.len();
    let mut r: Vec<TimeWindow> = Vec::new();
    let mut i: usize = 0;
    assert(v@.subrange(0, 0) =~= Seq::<TimeWindow>::empty());
    while i < n
        invariant
            n == v@.len(),
            i <= n,
            r@ == sort_by_start(v@.subrange(0, i as int)),
        decreases n - i,
    {
        proof {
            let post = v@.subrange(0, i + 1);
            assert(post.drop_last() =~= v@.subrange(0, i as int));
            assert(post.last() == v@[i as int]);
        }
        insert_window_by_start(&mut r, v[i]);
        i = i + 1;
    }
    assert(v@.subrange(0, n as int) =~= v@);
    r
}

/// The windows runs `m` give (see `windows_of_runs`).
fn literal_windows(m: &Vec<(u32, u32)>) -> (r: Option<Vec<TimeWindow>>)
    ensures
        match r {
            Some(v) => windows_of_runs(m@) == Some(v@),
            None => windows_of_runs(m@) is None,
        },
{
    let n = m.len();
    if n == 1 && m[0].0 == 0 && m[0].1 == 1440 {
        assert(m@[0] == (0u32, 1440u32));
        return None;
    }
    let mut out: Vec<TimeWindow> = Vec::new();
    let mut k: usize = 0;
    while k < n
        invariant
            n == m@.len(),
            k <= n,
            out@.len() == k,
            forall|j: int| 0 <= j < k ==> #[trigger] out@[j] == run_window(m@[j]),
        decreases n - k,
    {
        out.push(TimeWindow { start_minute: m[k].0 as u16, end_minute: (m[k].1 % 1440) as u16 });
        k = k + 1;
    }
    let ghost mapped = m@.map_values(|x: (u32, u32)| run_window(x));
    assert(out@ =~= mapped);
    let len = out.len();
    if len >= 2 && out[len - 1].end_minute == 0 && out[0].start_minute == 0 {
        if out[0].end_minute >= out[len - 1].start_minute {
            return None;
        }
        let joined = TimeWindow { start_minute: out[len - 1].start_minute, end_minute: out[0].end_minute };
        out.pop();
        out.set(0, joined);
        assert(out@ =~= mapped.drop_last().update(0, joined));
        Some(stable_sort_by_start(&out))
    } else {
        Some(stable_sort_by_start(&out))
    }
}

/// Normalises the day's windows: windows that overlap or touch (the end of one is
/// the start of the next, across midnight too) become one window, sorted by start.
/// A union that covers the whole day cannot be written as a window and is
/// refused. Windows with an endpoint past 23:59 are merged segment by segment
/// (see `merge_gives`).
pub fn merge_time_windows(windows: &Vec<TimeWindow>) -> (r: Result<Vec<TimeWindow>, PlanError>)
    ensures
        merge_gives(windows@, merged_of(r)),
        r matches Err(e) ==> e matches PlanError::InvalidSettings { .. },
        normalized(windows@) ==> (r matches Ok(out) && out@ == windows@),
{
    if all_in_day(windows) {
        merge_in_day(windows)
    } else {
        let segs = literal_segments(windows);
        let sorted = sort_segments(&segs);
        let runs = literal_runs(&sorted);
        let r = match literal_windows(&runs) {
            Some(out) => Ok(out),
            None => Err(PlanError::InvalidSettings { reason: "时间窗口并集不能覆盖全天".to_string() }),
        };
        proof {
            assert(sorted_perm_of(all_segs(windows@), sorted@));
        }
        r
    }
}

} // verus!

