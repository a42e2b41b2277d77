//! Reading and saving the settings: the day-by-day resolution through the
//! version history, workdays, work time, the next window start, and saving
//! with delayed effect.

use vstd::prelude::*;
use crate::plans::PlanError;
use crate::settings::{
    bytes_eq, windows_eq, copy_vec, resolve_settings, is_version_in_effect, no_version_in_effect, override_from, overrides_stored, settings_for_day,
    settings_invalid, store_overrides, validate_settings, workday_on, DateOverride, Settings, SettingsCalendar,
    SettingsVersion, DAY_HORIZON,
};
use crate::store::Database;
use crate::time::{near_day, valid_day, weekday_of, LocalTime};
use crate::windows::{merge_gives, merge_time_windows, TimeWindow};

verus! {

/// Index of the version in effect on `date`, or -1 when none is.
pub open spec fn version_at(vs: Seq<SettingsVersion>, date: int) -> int {
    if exists|k: int| is_version_in_effect(vs, date, k) {
        choose|k: int| is_version_in_effect(vs, date, k)
    } else {
        -1
    }
}

/// Daily work minutes in effect on `date`.
pub open spec fn day_minutes(vs: Seq<SettingsVersion>, date: int) -> u32 {
    let k = version_at(vs, date);
    if k >= 0 { vs[k].daily_minutes } else { 300 }
}

/// Weekly workdays in effect on `date`.
pub open spec fn day_workdays(vs: Seq<SettingsVersion>, date: int) -> Seq<u8> {
    let k = version_at(vs, date);
    if k >= 0 { vs[k].workdays@ } else { seq![1u8, 2, 3, 4, 5] }
}

/// Time windows in effect on `date`.
pub open spec fn day_windows(vs: Seq<SettingsVersion>, date: int) -> Seq<TimeWindow> {
    let k = version_at(vs, date);
    if k >= 0 { vs[k].time_windows@ } else { seq![TimeWindow { start_minute: 540, end_minute: 1080 }] }
}

/// Whether `date` is a workday: an override for the date (latest settings)
/// decides, otherwise the weekly workdays in effect on that date.
pub open spec fn workday_for(latest: Settings, vs: Seq<SettingsVersion>, date: int) -> bool {
    match override_from(latest.date_overrides@, date, 0) {
        Some(w) => w,
        None => day_workdays(vs, date).contains(weekday_of(date) as u8),
    }
}

/// The version in effect on a day is unique.
pub(crate) proof fn lemma_version_unique(vs: Seq<SettingsVersion>, date: int, k: int)
    requires
        is_version_in_effect(vs, date, k),
    ensures
        version_at(vs, date) == k,
{
    let c = version_at(vs, date);
    assert(is_version_in_effect(vs, date, c));
    assert(vs[c].effective_from < vs[k].effective_from || (vs[c].effective_from == vs[k].effective_from && c <= k));
    assert(vs[k].effective_from < vs[c].effective_from || (vs[k].effective_from == vs[c].effective_from && k <= c));
}

/// What a day's resolved settings hold, in the functional form.
pub proof fn lemma_day_settings(latest: Settings, vs: Seq<SettingsVersion>, date: int, r: Settings)
    requires
        settings_for_day(latest, vs, date, r),
    ensures
        r.daily_minutes == day_minutes(vs, date),
        r.workdays@ == day_workdays(vs, date),
        r.time_windows@ == day_windows(vs, date),
        workday_on(r, date) == workday_for(latest, vs, date),
        r.smoothing_workdays == latest.smoothing_workdays,
        r.date_overrides@ == latest.date_overrides@,
{
    if exists|k: int| is_version_in_effect(vs, date, k) && {
        &&& r.daily_minutes == vs[k].daily_minutes
        &&& r.workdays@ == vs[k].workdays@
        &&& r.time_windows@ == vs[k].time_windows@
    } {
        let k = choose|k: int| is_version_in_effect(vs, date, k) && {
            &&& r.daily_minutes == vs[k].daily_minutes
            &&& r.workdays@ == vs[k].workdays@
            &&& r.time_windows@ == vs[k].time_windows@
        };
        lemma_version_unique(vs, date, k);
    } else {
        assert(no_version_in_effect(vs, date));
        assert(!exists|k: int| is_version_in_effect(vs, date, k));
    }
}

/// Whether minute `t` of day `d` is work time: a window of the day's settings
/// that started by `t` on a workday (an ordinary window until its end, one that
/// crosses midnight until midnight), or the after-midnight tail of a window of
/// the previous workday; ends are exclusive.
pub open spec fn work_time_at(latest: Settings, vs: Seq<SettingsVersion>, d: int, t: int) -> bool {
    ||| workday_for(latest, vs, d) && exists|k: int| 0 <= k < day_windows(vs, d).len() && {
            let w = #[trigger] day_windows(vs, d)[k];
            t >= w.start_minute && (t < w.end_minute || w.end_minute <= w.start_minute)
        }
    ||| workday_for(latest, vs, d - 1) && exists|k: int| 0 <= k < day_windows(vs, d - 1).len() && {
            let w = #[trigger] day_windows(vs, d - 1)[k];
            w.end_minute <= w.start_minute && t < w.end_minute
        }
}

/// Earliest start, among windows `ws` from index `k`, later than minute `after`
/// (a start at or before `after` does not count).
pub open spec fn earliest_start_after(ws: Seq<TimeWindow>, after: int, k: int) -> Option<int>
    decreases ws.len() - k,
{
    if k < 0 || k >= ws.len() {
        None
    } else {
        let rest = earliest_start_after(ws, after, k + 1);
        let s = ws[k].start_minute as int;
        if s > after {
            match rest {
                Some(r) => if r < s { Some(r) } else { Some(s) },
                None => Some(s),
            }
        } else {
            rest
        }
    }
}

/// The next window start after instant `now`, searched from `now`'s day plus
/// `offset` up to `DAY_HORIZON` days ahead: the first workday with a window
/// start still to come, its earliest such start.
pub open spec fn next_start_from(latest: Settings, vs: Seq<SettingsVersion>, now: LocalTime, offset: int) -> Option<LocalTime>
    decreases DAY_HORIZON - offset + 1,
{
    if offset < 0 || offset > DAY_HORIZON {
        None
    } else {
        let day = now.day + offset;
        let after = if offset == 0 { now.minute as int } else { -1 };
        if workday_for(latest, vs, day) && day_windows(vs, day).len() > 0 {
            match earliest_start_after(day_windows(vs, day), after, 0) {
                Some(m) => Some(LocalTime { day: day as i64, minute: m as u32 }),
                None => next_start_from(latest, vs, now, offset + 1),
            }
        } else {
            next_start_from(latest, vs, now, offset + 1)
        }
    }
}

/// Whether day `d` is a workday by the settings in effect on `today`: an
/// override for `d` decides, otherwise today's weekly workdays.
pub open spec fn workday_by_today(latest: Settings, vs: Seq<SettingsVersion>, today: int, d: int) -> bool {
    match override_from(latest.date_overrides@, d, 0) {
        Some(w) => w,
        None => day_workdays(vs, today).contains(weekday_of(d) as u8),
    }
}

/// The day that delayed changes saved on `today` start to apply: the first
/// workday after today (from day offset `i`) by today's settings, within the
/// horizon; tomorrow when there is none.
pub open spec fn first_workday_after(latest: Settings, vs: Seq<SettingsVersion>, today: int, i: int) -> int
    decreases DAY_HORIZON - i + 1,
{
    if i < 1 || i > DAY_HORIZON {
        today + 1
    } else if workday_by_today(latest, vs, today, today + i) {
        today + i
    } else {
        first_workday_after(latest, vs, today, i + 1)
    }
}

/// The delayed fields of `s` differ from those in effect on `today`.
pub open spec fn delayed_changed(vs: Seq<SettingsVersion>, today: int, s: Settings) -> bool {
    ||| s.daily_minutes != day_minutes(vs, today)
    ||| s.workdays@ != day_workdays(vs, today)
    ||| s.time_windows@ != day_windows(vs, today)
}

/// Outcome of saving settings `s` at `now`: refused (nothing changes) when
/// invalid or when merging the windows refuses them (see `merge_gives`);
/// otherwise the snapshot is stored with the merged windows and the stored
/// overrides, the save time is kept, and when the delayed fields changed a
/// version is added that applies from the next workday; the day they apply from
/// is returned (today otherwise).
pub open spec fn save_outcome(old: &Database, new: &Database, now: LocalTime, s: Settings, r: Result<i64, PlanError>) -> bool {
    let today = now.day as int;
    if settings_invalid(s, today) {
        r matches Err(PlanError::InvalidSettings { .. }) && *new == *old
    } else {
        exists|merged: Option<Seq<TimeWindow>>| #[trigger] merge_gives(s.time_windows@, merged) && match merged {
            None => r matches Err(PlanError::InvalidSettings { .. }) && *new == *old,
            Some(windows) => saved_as(old, new, now, s, windows, r),
        }
    }
}

/// The store after saving settings `s` at `now` with merged windows `windows`.
pub open spec fn saved_as(old: &Database, new: &Database, now: LocalTime, s: Settings, windows: Seq<TimeWindow>,
    r: Result<i64, PlanError>) -> bool {
    let today = now.day as int;
    let changed = delayed_changed(old.versions@, today, s);
    let eff = if changed { first_workday_after(old.settings, old.versions@, today, 1) } else { today };
    &&& r == Ok::<i64, PlanError>(eff as i64)
    &&& new.settings.daily_minutes == s.daily_minutes
    &&& new.settings.workdays@ == s.workdays@
    &&& new.settings.time_windows@ == windows
    &&& new.settings.smoothing_workdays == s.smoothing_workdays
    &&& overrides_stored(s.date_overrides@, new.settings.date_overrides@)
    &&& new.settings_updated_at == Some(now)
    &&& if changed {
        &&& new.versions@.len() == old.versions@.len() + 1
        &&& new.versions@.drop_last() == old.versions@
        &&& new.versions@.last().daily_minutes == s.daily_minutes
        &&& new.versions@.last().workdays@ == s.workdays@
        &&& new.versions@.last().time_windows@ == new.settings.time_windows@
        &&& new.versions@.last().effective_from == eff
    } else {
        new.versions@ == old.versions@
    }
    &&& new.plans@ == old.plans@
    &&& new.tasks@ == old.tasks@
    &&& new.subgoals@ == old.subgoals@
    &&& new.deps@ == old.deps@
    &&& new.allocation == old.allocation
    &&& new.log@ == old.log@
    &&& new.current_task == old.current_task
    &&& new.summary_shown@ == old.summary_shown@
    &&& new.next_plan_id == old.next_plan_id
    &&& new.next_task_id == old.next_task_id
    &&& new.next_subgoal_id == old.next_subgoal_id
    &&& new.next_log_id == old.next_log_id
}

/// Settings `a` and `b` hold the same values.
pub open spec fn same_settings(a: Settings, b: Settings) -> bool {
    &&& a.daily_minutes == b.daily_minutes
    &&& a.workdays@ == b.workdays@
    &&& a.time_windows@ == b.time_windows@
    &&& a.smoothing_workdays == b.smoothing_workdays
    &&& a.date_overrides@ == b.date_overrides@
}

/// Settings reads and writes.
pub struct SettingsService;

/// The versions `a` and `b` hold the same values.
pub open spec fn same_versions(a: Seq<SettingsVersion>, b: Seq<SettingsVersion>) -> bool {
    &&& a.len() == b.len()
    &&& forall|k: int| 0 <= k < a.len() ==> {
            &&& (#[trigger] a[k]).daily_minutes == b[k].daily_minutes
            &&& a[k].workdays@ == b[k].workdays@
            &&& a[k].time_windows@ == b[k].time_windows@
            &&& a[k].effective_from == b[k].effective_from
        }
}

/// A copy of the settings.
fn copy_settings(s: &Settings) -> (r: Settings)
    ensures
        same_settings(r, *s),
{
    Settings {
        daily_minutes: s.daily_minutes,
        workdays: copy_vec(&s.workdays),
        time_windows: copy_vec(&s.time_windows),
        smoothing_workdays: s.smoothing_workdays,
        date_overrides: copy_vec(&s.date_overrides),
    }
}

/// The settings in effect on `date` in the store.
pub(crate) fn settings_on(db: &Database, date: i64) -> (r: Settings)
    ensures
        r.daily_minutes == day_minutes(db.versions@, date as int),
        r.workdays@ == day_workdays(db.versions@, date as int),
        r.time_windows@ == day_windows(db.versions@, date as int),
        workday_on(r, date as int) == workday_for(db.settings, db.versions@, date as int),
        r.smoothing_workdays == db.settings.smoothing_workdays,
        r.date_overrides@ == db.settings.date_overrides@,
{
    let r = resolve_settings(&db.settings, &db.versions, date);
    proof {
        lemma_day_settings(db.settings, db.versions@, date as int, r);
    }
    r
}

/// Whether some window of `ws` has started by minute `t` and not ended
/// (a window crossing midnight runs until midnight).
fn started_window(ws: &Vec<TimeWindow>, t: u32) -> (b: bool)
    ensures
        b == exists|k: int| 0 <= k < ws@.len() && {
            let w = #[trigger] ws@[k];
            t >= w.start_minute && (t < w.end_minute || w.end_minute <= w.start_minute)
        },
{
    let n = ws.len();
    let mut k: usize = 0;
    while k < n
        invariant
            n == ws@.len(),
            k <= n,
            forall|q: int| 0 <= q < k ==> {
                let w = #[trigger] ws@[q];
                !(t >= w.start_minute && (t < w.end_minute || w.end_minute <= w.start_minute))
            },
        decreases n - k,
    {
        let w = ws[k];
        if t >= w.start_minute as u32 && (t < w.end_minute as u32 || w.end_minute <= w.start_minute) {
            return true;
        }
        k = k + 1;
    }
    false
}

/// Whether some window of `ws` crosses midnight and its tail still runs at minute `t`.
fn in_midnight_tail(ws: &Vec<TimeWindow>, t: u32) -> (b: bool)
    ensures
        b == exists|k: int| 0 <= k < ws@.len() && {
            let w = #[trigger] ws@[k];
            w.end_minute <= w.start_minute && t < w.end_minute
        },
{
    let n = ws.len();
    let mut k: usize = 0;
    while k < n
        invariant
            n == ws@.len(),
            k <= n,
            forall|q: int| 0 <= q < k ==> {
                let w = #[trigger] ws@[q];
                !(w.end_minute <= w.start_minute && t < w.end_minute)
            },
        decreases n - k,
    {
        let w = ws[k];
        if w.end_minute <= w.start_minute && t < w.end_minute as u32 {
            return true;
        }
        k = k + 1;
    }
    false
}

/// Earliest start among `ws` later than minute `after` (see `earliest_start_after`).
fn earliest_start_after_of(ws: &Vec<TimeWindow>, after: i64) -> (r: Option<u16>)
    ensures
        match r {
            Some(m) => earliest_start_after(ws@, after as int, 0) == Some(m as int),
            None => earliest_start_after(ws@, after as int, 0) is None,
        },
{
    let n = ws.len();
    let mut best: Option<u16> = None;
    let mut k: usize = n;
    while k > 0
        invariant
            n == ws@.len(),
            k <= n,
            match best {
                Some(m) => earliest_start_after(ws@, after as int, k as int) == Some(m as int),
                None => earliest_start_after(ws@, after as int, k as int) is None,
            },
        decreases k,
    {
        k = k - 1;
        let s = ws[k].start_minute;
        if s as i64 > after {
            best = match best {
                Some(m) => if m < s { Some(m) } else { Some(s) },
                None => Some(s),
            };
        }
    }
    best
}

impl SettingsService {
    /// The latest saved settings.
    pub fn load(db: &Database) -> (r: Settings)
        ensures
            same_settings(r, db.settings),
    {
        copy_settings(&db.settings)
    }

    /// A day-by-day reader of the settings: the latest saved values and the versions.
    pub fn calendar(db: &Database) -> (r: SettingsCalendar)
        ensures
            same_settings(r.latest, db.settings),
            same_versions(r.versions@, db.versions@),
    {
        let n = db.versions.len();
        let mut versions: Vec<SettingsVersion> = Vec::new();
        let mut k: usize = 0;
        while k < n
            invariant
                n == db.versions@.len(),
                k <= n,
                same_versions(versions@, db.versions@.subrange(0, k as int)),
            decreases n - k,
        {
            let v = &db.versions[k];
            versions.push(SettingsVersion {
                daily_minutes: v.daily_minutes,
                workdays: copy_vec(&v.workdays),
                time_windows: copy_vec(&v.time_windows),
                effective_from: v.effective_from,
            });
            k = k + 1;
        }
        SettingsCalendar { latest: copy_settings(&db.settings), versions }
    }

    /// Whether `date` is a workday (overrides first, then the weekly workdays in effect on it).
    pub fn is_workday_on(db: &Database, date: i64) -> (r: bool)
        requires
            near_day(date as int),
        ensures
            r == workday_for(db.settings, db.versions@, date as int),
    {
        let s = settings_on(db, date);
        s.is_workday_on(date)
    }

    /// Whether the day of `now` is a workday.
    pub fn is_workday(db: &Database, now: LocalTime) -> (r: bool)
        requires
            now.wf(),
        ensures
            r == workday_for(db.settings, db.versions@, now.day as int),
    {
        Self::is_workday_on(db, now.day)
    }

    /// Whether `now` is work time (see `work_time_at`).
    pub fn is_work_time(db: &Database, now: LocalTime) -> (r: bool)
        requires
            now.wf(),
        ensures
            r == work_time_at(db.settings, db.versions@, now.day as int, now.minute as int),
    {
        let today = now.day;
        let s = settings_on(db, today);
        if s.is_workday_on(today) && started_window(&s.time_windows, now.minute) {
            return true;
        }
        let prev = today - 1;
        let sp = settings_on(db, prev);
        sp.is_workday_on(prev) && in_midnight_tail(&sp.time_windows, now.minute)
    }

    /// The start of the next work window after `now` (see `next_start_from`);
    /// `None` when no window is configured or no workday lies within the horizon.
    pub fn next_window_start(db: &Database, now: LocalTime) -> (r: Result<Option<LocalTime>, PlanError>)
        requires
            now.wf(),
        ensures
            r == Ok::<Option<LocalTime>, PlanError>(next_start_from(db.settings, db.versions@, now, 0)),
    {
        let mut offset: i64 = 0;
        while offset <= DAY_HORIZON
            invariant
                0 <= offset <= DAY_HORIZON + 1,
                now.wf(),
                next_start_from(db.settings, db.versions@, now, 0) == next_start_from(db.settings, db.versions@, now, offset as int),
            decreases DAY_HORIZON + 1 - offset,
        {
            let day = now.day + offset;
            let s = settings_on(db, day);
            if s.is_workday_on(day) && s.time_windows.len() > 0 {
                let after: i64 = if offset == 0 { now.minute as i64 } else { -1 };
                match earliest_start_after_of(&s.time_windows, after) {
                    Some(m) => {
                        return Ok(Some(LocalTime { day, minute: m as u32 }));
                    },
                    None => {},
                }
            }
            offset = offset + 1;
        }
        Ok(None)
    }

    /// When the settings were last saved (`None` before the first save).
    pub fn updated_at(db: &Database) -> (r: Option<LocalTime>)
        ensures
            r == db.settings_updated_at,
    {
        db.settings_updated_at
    }
}

impl SettingsService {
    /// Saves a settings snapshot at `now` (see `save_outcome`); returns the day
    /// the daily minutes, workdays and windows apply from.
    pub fn save(db: &mut Database, now: LocalTime, s: &Settings) -> (r: Result<i64, PlanError>)
        requires
            old(db).wf(),
            now.wf(),
        ensures
            final(db).wf(),
            save_outcome(old(db), final(db), now, *s, r),
    {
        let today = now.day;
        validate_settings(s, today)?;
        let merged = merge_time_windows(&s.time_windows);
        let windows = match merged {
            Ok(w) => w,
            Err(e) => {
                proof {
                    assert(merge_gives(s.time_windows@, None::<Seq<TimeWindow>>));
                }
                return Err(e);
            },
        };
        assert(merge_gives(s.time_windows@, Some(windows@)));
        let current = settings_on(db, today);
        let changed = s.daily_minutes != current.daily_minutes || !bytes_eq(&s.workdays, &current.workdays)
            || !windows_eq(&s.time_windows, &current.time_windows);
        let mut eff: i64 = today;
        if changed {
            eff = today + 1;
            let mut i: i64 = 1;
            while i <= DAY_HORIZON
                invariant_except_break
                    eff == today + 1,
                invariant
                    1 <= i <= DAY_HORIZON + 1,
                    now.wf(),
                    today == now.day,
                    current.workdays@ == day_workdays(db.versions@, today as int),
                    current.date_overrides@ == db.settings.date_overrides@,
                    first_workday_after(db.settings, db.versions@, today as int, 1)
                        == first_workday_after(db.settings, db.versions@, today as int, i as int),
                ensures
                    eff == first_workday_after(db.settings, db.versions@, today as int, 1),
                decreases DAY_HORIZON + 1 - i,
            {
                if current.is_workday_on(today + i) {
                    eff = today + i;
                    break;
                }
                i = i + 1;
            }
        }
        let overrides = store_overrides(&s.date_overrides);
        assert(changed == delayed_changed(db.versions@, today as int, *s));
        if changed {
            db.versions.push(SettingsVersion {
                daily_minutes: s.daily_minutes,
                workdays: copy_vec(&s.workdays),
                time_windows: copy_vec(&windows),
                effective_from: eff,
            });
            assert(db.versions@.drop_last() =~= old(db).versions@);
        }
        db.settings = Settings {
            daily_minutes: s.daily_minutes,
            workdays: copy_vec(&s.workdays),
            time_windows: windows,
            smoothing_workdays: s.smoothing_workdays,
            date_overrides: overrides,
        };
        db.settings_updated_at = Some(now);
        Ok(eff)
    }
}

/// Saving never rewrites the past: a version that applies from after `today`
/// leaves the settings of `today` and every earlier day as they were.
pub proof fn lemma_save_keeps_past(old_vs: Seq<SettingsVersion>, v: SettingsVersion, today: int, date: int)
    requires
        v.effective_from > today,
        date <= today,
    ensures
        day_minutes(old_vs.push(v), date) == day_minutes(old_vs, date),
        day_workdays(old_vs.push(v), date) == day_workdays(old_vs, date),
        day_windows(old_vs.push(v), date) == day_windows(old_vs, date),
{
    let new_vs = old_vs.push(v);
    assert forall|k: int| is_version_in_effect(new_vs, date, k) <==> is_version_in_effect(old_vs, date, k) by {
        if 0 <= k < old_vs.len() {
            assert(new_vs[k] == old_vs[k]);
            if is_version_in_effect(old_vs, date, k) {
                assert forall|j: int| 0 <= j < new_vs.len() && new_vs[j].effective_from <= date implies
                    (new_vs[j].effective_from < new_vs[k].effective_from
                     || (new_vs[j].effective_from == new_vs[k].effective_from && j <= k)) by {
                    if j < old_vs.len() {
                        assert(new_vs[j] == old_vs[j]);
                    }
                }
            }
            if is_version_in_effect(new_vs, date, k) {
                assert forall|j: int| 0 <= j < old_vs.len() && old_vs[j].effective_from <= date implies
                    (old_vs[j].effective_from < old_vs[k].effective_from
                     || (old_vs[j].effective_from == old_vs[k].effective_from && j <= k)) by {
                    assert(new_vs[j] == old_vs[j]);
                }
            }
        }
    }
    if exists|k: int| is_version_in_effect(old_vs, date, k) {
        let k = choose|k: int| is_version_in_effect(old_vs, date, k);
        lemma_version_unique(old_vs, date, k);
        lemma_version_unique(new_vs, date, k);
        assert(new_vs[k] == old_vs[k]);
    } else {
        assert(!exists|k: int| is_version_in_effect(new_vs, date, k));
    }
}


/// `first_workday_after` from offset `i` is the first day from `today + i`
/// within the horizon that is a workday by today's settings, or tomorrow when
/// there is none.
proof fn lemma_first_workday_after(latest: Settings, vs: Seq<SettingsVersion>, today: int, i: int)
    requires
        1 <= i <= DAY_HORIZON + 1,
    ensures
        (exists|d: int| today + i <= d <= today + DAY_HORIZON && #[trigger] workday_by_today(latest, vs, today, d)) ==> {
            let f = first_workday_after(latest, vs, today, i);
            &&& today + i <= f <= today + DAY_HORIZON
            &&& workday_by_today(latest, vs, today, f)
            &&& forall|d: int| today + i <= d < f ==> !#[trigger] workday_by_today(latest, vs, today, d)
        },
        !(exists|d: int| today + i <= d <= today + DAY_HORIZON && #[trigger] workday_by_today(latest, vs, today, d))
            ==> first_workday_after(latest, vs, today, i) == today + 1,
    decreases DAY_HORIZON + 1 - i,
{
    if i <= DAY_HORIZON && !workday_by_today(latest, vs, today, today + i) {
        lemma_first_workday_after(latest, vs, today, i + 1);
        if exists|d: int| today + i <= d <= today + DAY_HORIZON && #[trigger] workday_by_today(latest, vs, today, d) {
            let d0 = choose|d: int| today + i <= d <= today + DAY_HORIZON && #[trigger] workday_by_today(latest, vs, today, d);
            assert(d0 != today + i);
            assert(today + (i + 1) <= d0);
        }
    }
}

/// Delayed changes apply from the first workday after today, counted by the
/// settings in effect today (`cur`): when the daily minutes, workdays or windows
/// differ from today's, the day returned lies after today, no day strictly
/// between today and it is a workday by `cur`, and it is itself a workday by
/// `cur` within `DAY_HORIZON` days; when no workday comes within the horizon it
/// is tomorrow. When none of them differs, the day returned is today.
pub proof fn lemma_changes_apply_from_next_workday(old: &Database, new: &Database, now: LocalTime, s: Settings,
    r: Result<i64, PlanError>, cur: Settings)
    requires
        save_outcome(old, new, now, s, r),
        r is Ok,
        settings_for_day(old.settings, old.versions@, now.day as int, cur),
    ensures
        (s.daily_minutes != cur.daily_minutes || s.workdays@ != cur.workdays@ || s.time_windows@ != cur.time_windows@) ==> {
            let eff = r->Ok_0 as int;
            &&& eff > now.day
            &&& forall|d: int| now.day < d < eff ==> !#[trigger] workday_on(cur, d)
            &&& (exists|d: int| now.day < d <= now.day + DAY_HORIZON && #[trigger] workday_on(cur, d))
                    ==> workday_on(cur, eff) && eff <= now.day + DAY_HORIZON
            &&& !(exists|d: int| now.day < d <= now.day + DAY_HORIZON && #[trigger] workday_on(cur, d))
                    ==> eff == now.day + 1
        },
        !(s.daily_minutes != cur.daily_minutes || s.workdays@ != cur.workdays@ || s.time_windows@ != cur.time_windows@)
            ==> r->Ok_0 == now.day,
{
    let today = now.day as int;
    let vs = old.versions@;
    let latest = old.settings;
    lemma_day_settings(latest, vs, today, cur);
    assert forall|d: int| #[trigger] workday_on(cur, d) == workday_by_today(latest, vs, today, d) by {}
    let merged = choose|merged: Option<Seq<TimeWindow>>| #[trigger] merge_gives(s.time_windows@, merged) && match merged {
        None => r matches Err(PlanError::InvalidSettings { .. }) && *new == *old,
        Some(windows) => saved_as(old, new, now, s, windows, r),
    };
    lemma_first_workday_after(latest, vs, today, 1);
    if exists|d: int| today < d <= today + DAY_HORIZON && #[trigger] workday_on(cur, d) {
        let d0 = choose|d: int| today < d <= today + DAY_HORIZON && #[trigger] workday_on(cur, d);
        assert(workday_by_today(latest, vs, today, d0));
    }
    if exists|d: int| today + 1 <= d <= today + DAY_HORIZON && #[trigger] workday_by_today(latest, vs, today, d) {
        let d0 = choose|d: int| today + 1 <= d <= today + DAY_HORIZON && #[trigger] workday_by_today(latest, vs, today, d);
        assert(workday_on(cur, d0));
    }
}

} // verus!
