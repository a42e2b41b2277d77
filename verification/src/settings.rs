//! Settings: daily work minutes, weekly workdays, daily time windows, date
//! overrides and the smoothing window.
//!
//! Daily minutes, workdays and time windows take effect from the next workday:
//! each change is kept as a version with the day it starts to apply, and a day
//! reads the newest version in effect on it. The smoothing window and the date
//! overrides apply at once.

use vstd::prelude::*;
use crate::plans::PlanError;
use crate::time::{near_day, weekday, weekday_of, LocalTime};
use crate::windows::TimeWindow;
use crate::order::{is_index_permutation, sorted_by_keys, sort_by_keys, Key3};

verus! {

/// Day from which the seeded version applies: before any real day.
pub const SENTINEL_EFFECTIVE: i64 = -2_000_000_000;

/// How far ahead (in days) a next workday is looked for.
pub const DAY_HORIZON: i64 = 366;

/// One date override: the day is a workday (`working`) or a rest day.
#[derive(Clone, Copy, Debug, PartialEq, Eq, Structural)]
pub struct DateOverride {
    pub date: i64,
    pub working: bool,
}

/// A settings snapshot.
#[derive(Clone, Debug, PartialEq, Eq)]
pub struct Settings {
    /// Work minutes per day (default 300).
    pub daily_minutes: u32,
    /// Weekly workdays, Monday = 1 .. Sunday = 7 (default Monday to Friday).
    pub workdays: Vec<u8>,
    /// Daily time windows.
    pub time_windows: Vec<TimeWindow>,
    /// Smoothing window in workdays (default 7).
    pub smoothing_workdays: u32,
    /// Date overrides of the weekly loop.
    pub date_overrides: Vec<DateOverride>,
}

/// One version of the delayed fields and the day it starts to apply.
#[derive(Clone, Debug, PartialEq, Eq)]
pub struct SettingsVersion {
    pub daily_minutes: u32,
    pub workdays: Vec<u8>,
    pub time_windows: Vec<TimeWindow>,
    pub effective_from: i64,
}

/// First override for day `d` at or after index `k`: its `working` flag.
pub open spec fn override_from(ovs: Seq<DateOverride>, d: int, k: int) -> Option<bool>
    decreases ovs.len() - k,
{
    if k < 0 || k >= ovs.len() {
        None
    } else if ovs[k].date == d {
        Some(ovs[k].working)
    } else {
        override_from(ovs, d, k + 1)
    }
}

/// Whether day `d` is a workday under settings `s`: the first override for the
/// day decides; otherwise the weekly loop.
pub open spec fn workday_on(s: Settings, d: int) -> bool {
    match override_from(s.date_overrides@, d, 0) {
        Some(w) => w,
        None => s.workdays@.contains(weekday_of(d) as u8),
    }
}

/// The default (first run) settings: 300 minutes, Monday to Friday, 09:00–18:00,
/// smoothing over 7 workdays, no overrides.
pub open spec fn is_default_settings(s: Settings) -> bool {
    &&& s.daily_minutes == 300
    &&& s.workdays@ == seq![1u8, 2, 3, 4, 5]
    &&& s.time_windows@ == seq![TimeWindow { start_minute: 540, end_minute: 1080 }]
    &&& s.smoothing_workdays == 7
    &&& s.date_overrides@.len() == 0
}

impl Default for Settings {
    fn default() -> (r: Settings)
        ensures
            is_default_settings(r),
    {
        let mut workdays: Vec<u8> = Vec::new();
        workdays.push(1);
        workdays.push(2);
        workdays.push(3);
        workdays.push(4);
        workdays.push(5);
        let mut time_windows: Vec<TimeWindow> = Vec::new();
        time_windows.push(TimeWindow { start_minute: 540, end_minute: 1080 });
        assert(workdays@ =~= seq![1u8, 2, 3, 4, 5]);
        assert(time_windows@ =~= seq![TimeWindow { start_minute: 540, end_minute: 1080 }]);
        Settings {
            daily_minutes: 300,
            workdays,
            time_windows,
            smoothing_workdays: 7,
            date_overrides: Vec::new(),
        }
    }
}

/// A copy of a vector of plain values.
pub fn copy_vec<T: Copy>(v: &Vec<T>) -> (r: Vec<T>)
    ensures
        r@ == v@,
{
    let mut r: Vec<T> = Vec::new();
    let n = v.len();
    let mut i: usize = 0;
    while i < n
        invariant
            n == v@.len(),
            i <= n,
            r@ == v@.subrange(0, i as int),
        decreases n - i,
    {
        r.push(v[i]);
        assert(r@ =~= v@.subrange(0, i + 1));
        i = i + 1;
    }
    assert(v@.subrange(0, n as int) =~= v@);
    r
}

/// Equality of two vectors of plain values with structural equality.
pub fn windows_eq(a: &Vec<TimeWindow>, b: &Vec<TimeWindow>) -> (r: bool)
    ensures
        r == (a@ == b@),
{
    if a.len() != b.len() {
        return false;
    }
    let n = a.len();
    let mut i: usize = 0;
    while i < n
        invariant
            n == a@.len() == b@.len(),
            i <= n,
            forall|k: int| 0 <= k < i ==> a@[k] == b@[k],
        decreases n - i,
    {
        if a[i] != b[i] {
            return false;
        }
        i = i + 1;
    }
    assert(a@ =~= b@);
    true
}

pub fn bytes_eq(a: &Vec<u8>, b: &Vec<u8>) -> (r: bool)
    ensures
        r == (a@ == b@),
{
    if a.len() != b.len() {
        return false;
    }
    let n = a.len();
    let mut i: usize = 0;
    while i < n
        invariant
            n == a@.len() == b@.len(),
            i <= n,
            forall|k: int| 0 <= k < i ==> a@[k] == b@[k],
        decreases n - i,
    {
        if a[i] != b[i] {
            return false;
        }
        i = i + 1;
    }
    assert(a@ =~= b@);
    true
}

impl Settings {
    /// Whether `date` is a workday: the first override for the date decides,
    /// otherwise the weekly loop.
    pub fn is_workday_on(&self, date: i64) -> (r: bool)
        requires
            near_day(date as int),
        ensures
            r == workday_on(*self, date as int),
    {
        let n = self.date_overrides.len();
        let mut k: usize = 0;
        while k < n
            invariant
                n == self.date_overrides@.len(),
                k <= n,
                override_from(self.date_overrides@, date as int, 0)
                    == override_from(self.date_overrides@, date as int, k as int),
            decreases n - k,
        {
            if self.date_overrides[k].date == date {
                return self.date_overrides[k].working;
            }
            k = k + 1;
        }
        assert(override_from(self.date_overrides@, date as int, n as int) is None);
        let wd = weekday(date);
        let m = self.workdays.len();
        let mut j: usize = 0;
        while j < m
            invariant
                m == self.workdays@.len(),
                j <= m,
                wd as int == weekday_of(date as int),
                forall|q: int| 0 <= q < j ==> self.workdays@[q] != wd,
                override_from(self.date_overrides@, date as int, 0) is None,
            decreases m - j,
        {
            if self.workdays[j] == wd {
                assert(self.workdays@.contains(weekday_of(date as int) as u8)) by {
                    assert(self.workdays@[j as int] == wd);
                }
                return true;
            }
            j = j + 1;
        }
        false
    }

    /// An identical copy.
    pub fn copy(&self) -> (r: Settings)
        ensures
            r.daily_minutes == self.daily_minutes,
            r.workdays@ == self.workdays@,
            r.time_windows@ == self.time_windows@,
            r.smoothing_workdays == self.smoothing_workdays,
            r.date_overrides@ == self.date_overrides@,
    {
        Settings {
            daily_minutes: self.daily_minutes,
            workdays: copy_vec(&self.workdays),
            time_windows: copy_vec(&self.time_windows),
            smoothing_workdays: self.smoothing_workdays,
            date_overrides: copy_vec(&self.date_overrides),
        }
    }
}

/// Index of the version in effect on `date`: among versions starting on or before
/// the date, the latest start; between equal starts, the one added last.
pub open spec fn is_version_in_effect(vs: Seq<SettingsVersion>, date: int, k: int) -> bool {
    &&& 0 <= k < vs.len()
    &&& vs[k].effective_from <= date
    &&& forall|j: int| 0 <= j < vs.len() && vs[j].effective_from <= date ==>
            (vs[j].effective_from < vs[k].effective_from
             || (vs[j].effective_from == vs[k].effective_from && j <= k))
}

/// No version starts on or before `date`.
pub open spec fn no_version_in_effect(vs: Seq<SettingsVersion>, date: int) -> bool {
    forall|j: int| 0 <= j < vs.len() ==> vs[j].effective_from > date
}

/// The settings a day reads: the delayed fields of the version in effect (the
/// defaults when none is), the latest smoothing window and overrides.
pub open spec fn settings_for_day(latest: Settings, vs: Seq<SettingsVersion>, date: int, r: Settings) -> bool {
    &&& r.smoothing_workdays == latest.smoothing_workdays
    &&& r.date_overrides@ == latest.date_overrides@
    &&& (exists|k: int| is_version_in_effect(vs, date, k) && {
            &&& r.daily_minutes == vs[k].daily_minutes
            &&& r.workdays@ == vs[k].workdays@
            &&& r.time_windows@ == vs[k].time_windows@
        })
        || (no_version_in_effect(vs, date) && {
            &&& r.daily_minutes == 300
            &&& r.workdays@ == seq![1u8, 2, 3, 4, 5]
            &&& r.time_windows@ == seq![TimeWindow { start_minute: 540, end_minute: 1080 }]
        })
}

/// Day-by-day reader of the settings: the latest saved values and the version history.
pub struct SettingsCalendar {
    pub latest: Settings,
    pub versions: Vec<SettingsVersion>,
}

impl SettingsCalendar {
    /// The settings in effect on `date`.
    pub fn for_date(&self, date: i64) -> (r: Settings)
        ensures
            settings_for_day(self.latest, self.versions@, date as int, r),
    {
        resolve_settings(&self.latest, &self.versions, date)
    }
}

/// The settings in effect on `date` given the latest saved values and the
/// version history.
pub fn resolve_settings(latest: &Settings, versions: &Vec<SettingsVersion>, date: i64) -> (r: Settings)
    ensures
        settings_for_day(*latest, versions@, date as int, r),
{
        let n = versions.len();
        let mut best: Option<usize> = None;
        let mut i: usize = 0;
        while i < n
            invariant
                n == versions@.len(),
                i <= n,
                match best {
                    Some(b) => {
                        &&& b < i
                        &&& versions@[b as int].effective_from <= date
                        &&& forall|j: int| 0 <= j < i && versions@[j].effective_from <= date ==>
                                (versions@[j].effective_from < versions@[b as int].effective_from
                                 || (versions@[j].effective_from == versions@[b as int].effective_from && j <= b))
                    },
                    None => forall|j: int| 0 <= j < i ==> versions@[j].effective_from > date,
                },
            decreases n - i,
        {
            let v = &versions[i];
            if v.effective_from <= date {
                let better = match best {
                    Some(b) => versions[b].effective_from <= v.effective_from,
                    None => true,
                };
                if better {
                    best = Some(i);
                }
            }
            i = i + 1;
        }
        match best {
            Some(b) => {
                assert(is_version_in_effect(versions@, date as int, b as int));
                let v = &versions[b];
                Settings {
                    daily_minutes: v.daily_minutes,
                    workdays: copy_vec(&v.workdays),
                    time_windows: copy_vec(&v.time_windows),
                    smoothing_workdays: latest.smoothing_workdays,
                    date_overrides: copy_vec(&latest.date_overrides),
                }
            },
            None => {
                let d = Settings::default();
                Settings {
                    daily_minutes: d.daily_minutes,
                    workdays: d.workdays,
                    time_windows: d.time_windows,
                    smoothing_workdays: latest.smoothing_workdays,
                    date_overrides: copy_vec(&latest.date_overrides),
                }
            },
        }
}

/// Why a settings snapshot is refused before saving (checked in this order):
/// a window whose start equals its end, a smoothing window under one workday, a
/// daily time under one minute, an override on today or earlier.
pub open spec fn settings_invalid(s: Settings, today: int) -> bool {
    ||| exists|k: int| 0 <= k < s.time_windows@.len() && (#[trigger] s.time_windows@[k]).start_minute == s.time_windows@[k].end_minute
    ||| s.smoothing_workdays < 1
    ||| s.daily_minutes < 1
    ||| exists|k: int| 0 <= k < s.date_overrides@.len() && (#[trigger] s.date_overrides@[k]).date <= today
}

/// Checks the snapshot before saving.
pub fn validate_settings(s: &Settings, today: i64) -> (r: Result<(), PlanError>)
    ensures
        r is Err <==> settings_invalid(*s, today as int),
        r matches Err(e) ==> e matches PlanError::InvalidSettings { .. },
{
    let n = s.time_windows.len();
    let mut k: usize = 0;
    while k < n
        invariant
            n == s.time_windows@.len(),
            k <= n,
            forall|q: int| 0 <= q < k ==> (#[trigger] s.time_windows@[q]).start_minute != s.time_windows@[q].end_minute,
        decreases n - k,
    {
        let w = s.time_windows[k];
        if w.start_minute == w.end_minute {
            return Err(PlanError::InvalidSettings { reason: "时间窗口起止相同".to_string() });
        }
        k = k + 1;
    }
    if s.smoothing_workdays < 1 {
        return Err(PlanError::InvalidSettings { reason: "均分窗口至少 1 个工作日".to_string() });
    }
    if s.daily_minutes < 1 {
        return Err(PlanError::InvalidSettings { reason: "每日工作时间至少 1 分钟".to_string() });
    }
    let m = s.date_overrides.len();
    let mut j: usize = 0;
    while j < m
        invariant
            m == s.date_overrides@.len(),
            j <= m,
            forall|q: int| 0 <= q < j ==> (#[trigger] s.date_overrides@[q]).date > today,
        decreases m - j,
    {
        if s.date_overrides[j].date <= today {
            return Err(PlanError::InvalidSettings { reason: "日期例外只能标注将来的日期".to_string() });
        }
        j = j + 1;
    }
    Ok(())
}

/// Overrides as stored: sorted by date, one per date (the first given wins).
pub open spec fn overrides_stored(given: Seq<DateOverride>, stored: Seq<DateOverride>) -> bool {
    &&& forall|a: int, b: int| 0 <= a < b < stored.len() ==> stored[a].date < stored[b].date
    &&& forall|k: int| 0 <= k < stored.len() ==>
            override_from(given, (#[trigger] stored[k]).date as int, 0) == Some(stored[k].working)
    &&& forall|k: int| 0 <= k < given.len() ==>
            exists|q: int| 0 <= q < stored.len() && stored[q].date == (#[trigger] given[k]).date
}

/// Some stored override has date `d`.
pub open spec fn date_listed(stored: Seq<DateOverride>, d: i64) -> bool {
    exists|q: int| 0 <= q < stored.len() && stored[q].date == d
}

/// Sorts the overrides by date and keeps the first one given for each date.
pub fn store_overrides(given: &Vec<DateOverride>) -> (r: Vec<DateOverride>)
    ensures
        overrides_stored(given@, r@),
{
    // First occurrence of each date, in given order.
    let n = given.len();
    let mut firsts: Vec<DateOverride> = Vec::new();
    let mut i: usize = 0;
    while i < n
        invariant
            n == given@.len(),
            i <= n,
            forall|a: int, b: int| 0 <= a < b < firsts@.len() ==> firsts@[a].date != firsts@[b].date,
            forall|k: int| 0 <= k < firsts@.len() ==>
                override_from(given@, (#[trigger] firsts@[k]).date as int, 0) == Some(firsts@[k].working),
            forall|p: int| 0 <= p < i ==> #[trigger] date_listed(firsts@, given@[p].date),
            forall|k: int| 0 <= k < firsts@.len() ==> exists|p: int| 0 <= p < i && given@[p].date == (#[trigger] firsts@[k]).date,
        decreases n - i,
    {
        let o = given[i];
        let mut seen = false;
        let mut q: usize = 0;
        while q < firsts.len()
            invariant
                q <= firsts@.len(),
                seen == exists|t: int| 0 <= t < q && firsts@[t].date == o.date,
            decreases firsts@.len() - q,
        {
            if firsts[q].date == o.date {
                seen = true;
            }
            q = q + 1;
        }
        let ghost before = firsts@;
        if !seen {
            proof {
                assert forall|t: int| 0 <= t < i implies given@[t].date != o.date by {
                    if given@[t].date == o.date {
                        assert(date_listed(before, given@[t].date));
                        let w = choose|w: int| 0 <= w < before.len() && before[w].date == given@[t].date;
                    }
                }
                lemma_override_scan(given@, o.date as int, 0, i as int);
            }
            firsts.push(o);
            proof {
                assert forall|p: int| 0 <= p < i + 1 implies #[trigger] date_listed(firsts@, given@[p].date) by {
                    if p == i {
                        assert(firsts@.last() == o);
                    } else {
                        assert(date_listed(before, given@[p].date));
                        let w = choose|w: int| 0 <= w < before.len() && before[w].date == given@[p].date;
                        assert(firsts@[w] == before[w]);
                    }
                }
                assert forall|k: int| 0 <= k < firsts@.len() implies exists|p: int| 0 <= p < i + 1 && given@[p].date == (#[trigger] firsts@[k]).date by {
                    if k == before.len() {
                        assert(given@[i as int].date == firsts@[k].date);
                    } else {
                        assert(firsts@[k] == before[k]);
                    }
                }
            }
        } else {
            proof {
                let t = choose|t: int| 0 <= t < q && firsts@[t].date == o.date;
                assert forall|p: int| 0 <= p < i + 1 implies #[trigger] date_listed(firsts@, given@[p].date) by {
                    if p == i {
                        assert(firsts@[t].date == given@[p].date);
                    }
                }
            }
        }
        i = i + 1;
    }
    // Sort by date; dates are distinct, so the order is strict.
    let m = firsts.len();
    let mut keys: Vec<Key3> = Vec::new();
    let mut k: usize = 0;
    while k < m
        invariant
            m == firsts@.len(),
            k <= m,
            keys@.len() == k,
            forall|t: int| 0 <= t < k ==> #[trigger] keys@[t] == (firsts@[t].date, 0i64, 0i64),
        decreases m - k,
    {
        keys.push((firsts[k].date, 0, 0));
        k = k + 1;
    }
    let order = sort_by_keys(&keys);
    let mut out: Vec<DateOverride> = Vec::new();
    let mut j: usize = 0;
    while j < m
        invariant
            m == firsts@.len(),
            m == keys@.len(),
            forall|t: int| 0 <= t < m ==> #[trigger] keys@[t] == (firsts@[t].date, 0i64, 0i64),
            is_index_permutation(order@, m as int),
            sorted_by_keys(order@, keys@),
            j <= m,
            out@.len() == j,
            forall|t: int| 0 <= t < j ==> #[trigger] out@[t] == firsts@[order@[t] as int],
        decreases m - j,
    {
        out.push(firsts[order[j]]);
        j = j + 1;
    }
    proof {
        assert forall|a: int, b: int| 0 <= a < b < out@.len() implies out@[a].date < out@[b].date by {
            assert(crate::order::key_le(keys@[order@[a] as int], keys@[order@[b] as int]));
            assert(order@[a] < m && order@[b] < m && order@[a] != order@[b]);
        }
        assert forall|t: int| 0 <= t < out@.len() implies
            override_from(given@, (#[trigger] out@[t]).date as int, 0) == Some(out@[t].working) by {
            assert(order@[t] < m);
            assert(out@[t] == firsts@[order@[t] as int]);
        }
        assert forall|p: int| 0 <= p < given@.len() implies
            exists|q: int| 0 <= q < out@.len() && out@[q].date == (#[trigger] given@[p]).date by {
            assert(date_listed(firsts@, given@[p].date));
            let w = choose|w: int| 0 <= w < firsts@.len() && firsts@[w].date == given@[p].date;
            assert(crate::order::lists_index(order@, w));
            let q = choose|q: int| 0 <= q < order@.len() && order@[q] == w;
            assert(out@[q] == firsts@[w]);
        }
    }
    out
}

/// Scanning past entries for other dates reaches the entry at `idx`.
proof fn lemma_override_scan(given: Seq<DateOverride>, d: int, k: int, idx: int)
    requires
        0 <= k <= idx < given.len(),
        given[idx].date == d,
        forall|q: int| k <= q < idx ==> given[q].date != d,
    ensures
        override_from(given, d, k) == Some(given[idx].working),
    decreases idx - k,
{
    if k < idx {
        lemma_override_scan(given, d, k + 1, idx);
    }
}

} // verus!
