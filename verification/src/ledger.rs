//! The work-hour ledger: each day's adjusted target is the day's base plus the
//! shares of earlier shortfalls and surpluses spread over the following
//! workdays, all derived from the progress log and the settings in effect day
//! by day.
//!
//! Rules: a workday whose actual lies within ±10% of its adjusted target adds
//! nothing; outside the band the difference (target − actual) is spread evenly
//! over the next `smoothing_workdays` workdays (positive raises them, negative
//! lowers them). A rest day neither takes a slot nor receives a share; what was
//! done on it counts in full as surplus. The account starts on the day of the
//! earliest progress event; every workday after it owes its target, even with
//! no event at all.
//!
//! Amounts here are in nanominutes (10⁻⁹ minute); log deltas are in
//! thousandths of a minute. A share is the difference divided by the window
//! length, rounded toward zero to the nanominute.

use vstd::prelude::*;
use crate::plans::PlanError;
use crate::settings::{workday_on, Settings, SettingsCalendar, SettingsVersion};
use crate::settings_service::{day_minutes, day_windows, lemma_day_settings, settings_on, workday_for};
use crate::store::{Database, LogRow};
use crate::time::{valid_day, LocalTime};
use crate::windows::TimeWindow;

verus! {

/// Nanominutes per minute.
pub const NANOS_PER_MINUTE: i128 = 1_000_000_000;

/// Nanominutes per thousandth of a minute.
pub const NANOS_PER_MILLI: i128 = 1_000_000;

/// Largest magnitude of an amount in the ledger (nanominutes); beyond it the
/// replay refuses to go on (about 10²¹ minutes).
pub const AMOUNT_LIMIT: i128 = 1_000_000_000_000_000_000_000_000_000_000;

// ---------------------------------------------------------------------------
// Attribution of an event to a day
// ---------------------------------------------------------------------------

/// Minute `t` lies in a window of the event's own day: inside an ordinary
/// window, or in the evening part of a window that crosses midnight.
pub open spec fn in_own_window(ws: Seq<TimeWindow>, t: int) -> bool {
    exists|k: int| 0 <= k < ws.len() && {
        let w = #[trigger] ws[k];
        ||| (w.start_minute <= w.end_minute && w.start_minute <= t < w.end_minute)
        ||| (w.end_minute < w.start_minute && t >= w.start_minute)
    }
}

/// Minute `t` lies in the after-midnight tail of a window of the previous day.
pub open spec fn in_prev_tail(ws: Seq<TimeWindow>, t: int) -> bool {
    exists|k: int| 0 <= k < ws.len() && {
        let w = #[trigger] ws[k];
        w.end_minute < w.start_minute && t < w.end_minute
    }
}

/// Day an event at `at` belongs to, given the windows of its own day and of the
/// day before: its own day when a window of that day holds it, the day before
/// when it falls in the tail of a window of the day before that crosses
/// midnight, its own day otherwise.
pub open spec fn attributed_with(own: Seq<TimeWindow>, prev: Seq<TimeWindow>, at: LocalTime) -> int {
    if in_own_window(own, at.minute as int) {
        at.day as int
    } else if in_prev_tail(prev, at.minute as int) {
        at.day - 1
    } else {
        at.day as int
    }
}

/// Day an event at `at` belongs to, with each day's windows as in effect on it.
pub open spec fn attributed_day(vs: Seq<SettingsVersion>, at: LocalTime) -> int {
    attributed_with(day_windows(vs, at.day as int), day_windows(vs, at.day - 1), at)
}

fn in_own_window_of(ws: &Vec<TimeWindow>, t: u32) -> (r: bool)
    ensures
        r == in_own_window(ws@, t as int),
{
    let n = ws.len();
    let mut k: usize = 0;
    while k < n
        invariant
            n == ws@.len(),
            k <= n,
            forall|q: int| 0 <= q < k ==> !({
                let w = #[trigger] ws@[q];
                ||| (w.start_minute <= w.end_minute && w.start_minute <= t < w.end_minute)
                ||| (w.end_minute < w.start_minute && t >= w.start_minute)
            }),
        decreases n - k,
    {
        let w = ws[k];
        let s = w.start_minute as u32;
        let e = w.end_minute as u32;
        if (s <= e && s <= t && t < e) || (e < s && t >= s) {
            return true;
        }
        k = k + 1;
    }
    false
}

fn in_prev_tail_of(ws: &Vec<TimeWindow>, t: u32) -> (r: bool)
    ensures
        r == in_prev_tail(ws@, t as int),
{
    let n = ws.len();
    let mut k: usize = 0;
    while k < n
        invariant
            n == ws@.len(),
            k <= n,
            forall|q: int| 0 <= q < k ==> !({
                let w = #[trigger] ws@[q];
                w.end_minute < w.start_minute && t < w.end_minute
            }),
        decreases n - k,
    {
        let w = ws[k];
        if w.end_minute < w.start_minute && t < w.end_minute as u32 {
            return true;
        }
        k = k + 1;
    }
    false
}

/// Day an event at `at` belongs to, given the windows of its own day (`own`)
/// and of the day before (`prev`).
pub fn attributed_date(at: LocalTime, own: &Vec<TimeWindow>, prev: &Vec<TimeWindow>) -> (r: i64)
    requires
        at.wf(),
    ensures
        r == attributed_with(own@, prev@, at),
{
    if in_own_window_of(own, at.minute) {
        at.day
    } else if in_prev_tail_of(prev, at.minute) {
        at.day - 1
    } else {
        at.day
    }
}

/// Day an event at `at` belongs to, each day read through the calendar.
pub fn attributed_date_on(at: LocalTime, cal: &SettingsCalendar) -> (r: i64)
    requires
        at.wf(),
    ensures
        r == attributed_day(cal.versions@, at),
{
    let own = cal.for_date(at.day);
    let prev = cal.for_date(at.day - 1);
    proof {
        lemma_day_settings(cal.latest, cal.versions@, at.day as int, own);
        lemma_day_settings(cal.latest, cal.versions@, at.day - 1, prev);
    }
    attributed_date(at, &own.time_windows, &prev.time_windows)
}

/// Day an event at `at` belongs to, read from the store's versions.
pub(crate) fn attributed_in(db: &Database, at: LocalTime) -> (r: i64)
    requires
        at.wf(),
    ensures
        r == attributed_day(db.versions@, at),
        at.day - 1 <= r <= at.day,
{
    let own = settings_on(db, at.day);
    let prev = settings_on(db, at.day - 1);
    attributed_date(at, &own.time_windows, &prev.time_windows)
}

// ---------------------------------------------------------------------------
// Daily amounts from the log
// ---------------------------------------------------------------------------

/// Net progress (thousandths of a minute) of the events attributed to day `d`.
pub open spec fn day_actual(vs: Seq<SettingsVersion>, log: Seq<LogRow>, d: int) -> int
    decreases log.len(),
{
    if log.len() == 0 {
        0
    } else {
        day_actual(vs, log.drop_last(), d) + if attributed_day(vs, log.last().at) == d {
            log.last().delta_milli as int
        } else {
            0
        }
    }
}

/// Earliest day any event is attributed to (`None` for an empty log).
pub open spec fn first_day(vs: Seq<SettingsVersion>, log: Seq<LogRow>) -> Option<int>
    decreases log.len(),
{
    if log.len() == 0 {
        None
    } else {
        let a = attributed_day(vs, log.last().at);
        match first_day(vs, log.drop_last()) {
            None => Some(a),
            Some(b) => Some(if a < b { a } else { b }),
        }
    }
}

proof fn lemma_day_actual_bound(vs: Seq<SettingsVersion>, log: Seq<LogRow>, d: int)
    ensures
        -(log.len() as int) * 0x8000_0000_0000_0000 <= day_actual(vs, log, d) <= (log.len() as int) * 0x8000_0000_0000_0000,
    decreases log.len(),
{
    if log.len() > 0 {
        lemma_day_actual_bound(vs, log.drop_last(), d);
    }
}

/// Attributed day of every log event, in log order.
pub(crate) fn attributed_days(db: &Database) -> (r: Vec<i64>)
    requires
        db.wf(),
    ensures
        r@.len() == db.log@.len(),
        forall|k: int| 0 <= k < r@.len() ==> #[trigger] r@[k] == attributed_day(db.versions@, db.log@[k].at),
        forall|k: int| 0 <= k < r@.len() ==> -1_000_000_001 <= #[trigger] r@[k] <= 1_000_000_000,
{
    let n = db.log.len();
    let mut r: Vec<i64> = Vec::new();
    let mut k: usize = 0;
    while k < n
        invariant
            n == db.log@.len(),
            db.wf(),
            k <= n,
            r@.len() == k,
            forall|q: int| 0 <= q < k ==> #[trigger] r@[q] == attributed_day(db.versions@, db.log@[q].at),
            forall|q: int| 0 <= q < k ==> -1_000_000_001 <= #[trigger] r@[q] <= 1_000_000_000,
        decreases n - k,
    {
        assert(db.log@[k as int].at.wf());
        r.push(attributed_in(db, db.log[k].at));
        k = k + 1;
    }
    r
}

/// Net progress of day `d` given the attributed days of the events.
pub(crate) fn day_sum(log: &Vec<LogRow>, days: &Vec<i64>, Ghost(vs): Ghost<Seq<SettingsVersion>>, d: i64) -> (r: i128)
    requires
        days@.len() == log@.len(),
        forall|k: int| 0 <= k < days@.len() ==> #[trigger] days@[k] == attributed_day(vs, log@[k].at),
    ensures
        r == day_actual(vs, log@, d as int),
{
    let n = log.len();
    let mut sum: i128 = 0;
    let mut k: usize = 0;
    while k < n
        invariant
            n == log@.len(),
            days@.len() == n,
            forall|q: int| 0 <= q < days@.len() ==> #[trigger] days@[q] == attributed_day(vs, log@[q].at),
            k <= n,
            sum == day_actual(vs, log@.subrange(0, k as int), d as int),
        decreases n - k,
    {
        assert(log@.subrange(0, k + 1).drop_last() =~= log@.subrange(0, k as int));
        proof {
            lemma_day_actual_bound(vs, log@.subrange(0, k + 1), d as int);
            lemma_day_actual_bound(vs, log@.subrange(0, k as int), d as int);
        }
        if days[k] == d {
            sum = sum + log[k].delta_milli as i128;
        }
        k = k + 1;
    }
    assert(log@.subrange(0, n as int) =~= log@);
    sum
}

/// Net progress (thousandths of a minute) attributed to day `day`.
pub fn minutes_on(db: &Database, day: i64) -> (r: i128)
    requires
        db.wf(),
    ensures
        r == day_actual(db.versions@, db.log@, day as int),
{
    let days = attributed_days(db);
    day_sum(&db.log, &days, Ghost(db.versions@), day)
}

/// Earliest attributed day among `days`.
fn earliest_day(days: &Vec<i64>, Ghost(vs): Ghost<Seq<SettingsVersion>>, Ghost(log): Ghost<Seq<LogRow>>) -> (r: Option<i64>)
    requires
        days@.len() == log.len(),
        forall|k: int| 0 <= k < days@.len() ==> #[trigger] days@[k] == attributed_day(vs, log[k].at),
        forall|k: int| 0 <= k < days@.len() ==> -1_000_000_001 <= #[trigger] days@[k] <= 1_000_000_000,
    ensures
        match first_day(vs, log) {
            None => r is None,
            Some(a) => r matches Some(b) && b as int == a,
        },
        r matches Some(b) ==> -1_000_000_001 <= b <= 1_000_000_000,
{
    let n = days.len();
    let mut best: Option<i64> = None;
    let mut k: usize = 0;
    while k < n
        invariant
            n == log.len(),
            days@.len() == n,
            forall|q: int| 0 <= q < days@.len() ==> #[trigger] days@[q] == attributed_day(vs, log[q].at),
            forall|q: int| 0 <= q < days@.len() ==> -1_000_000_001 <= #[trigger] days@[q] <= 1_000_000_000,
            k <= n,
            match first_day(vs, log.subrange(0, k as int)) {
                None => best is None,
                Some(a) => best matches Some(b) && b as int == a,
            },
            best matches Some(b) ==> -1_000_000_001 <= b <= 1_000_000_000,
        decreases n - k,
    {
        assert(log.subrange(0, k + 1).drop_last() =~= log.subrange(0, k as int));
        let a = days[k];
        best = match best {
            None => Some(a),
            Some(b) => Some(if a < b { a } else { b }),
        };
        k = k + 1;
    }
    assert(log.subrange(0, n as int) =~= log);
    best
}

// ---------------------------------------------------------------------------
// Replaying the account
// ---------------------------------------------------------------------------

/// An amount within the ledger's range.
pub open spec fn amount_ok(x: int) -> bool {
    -AMOUNT_LIMIT <= x <= AMOUNT_LIMIT
}

/// Every slot within range.
pub open spec fn all_ok(s: Seq<int>) -> bool {
    forall|i: int| 0 <= i < s.len() ==> amount_ok(#[trigger] s[i])
}

/// The slots as integers.
pub open spec fn ints(v: Seq<i128>) -> Seq<int> {
    v.map_values(|x: i128| x as int)
}

/// Difference a workday adds to the account: nothing when the actual lies
/// within ±10% of the adjusted target, target − actual otherwise.
pub open spec fn band_debt(actual: int, target: int) -> int {
    if 10 * actual >= 9 * target && 10 * actual <= 11 * target {
        0
    } else {
        target - actual
    }
}

/// `debt / w` rounded toward zero.
pub open spec fn share_of(debt: int, w: int) -> int {
    if debt >= 0 {
        debt / w
    } else {
        -((-debt) / w)
    }
}

/// A workday takes the first slot; a fresh empty slot joins at the end.
pub open spec fn rotate(s: Seq<int>) -> Seq<int> {
    s.drop_first().push(0)
}

/// Every slot receives `share`.
pub open spec fn spread(s: Seq<int>, share: int) -> Seq<int> {
    Seq::new(s.len(), |i: int| s[i] + share)
}

/// Spreads a difference over all slots (none for a zero difference); `None`
/// when a slot leaves the range.
pub open spec fn settle(s: Seq<int>, debt: int, w: int) -> Option<Seq<int>> {
    let next = if debt == 0 { s } else { spread(s, share_of(debt, w)) };
    if all_ok(next) { Some(next) } else { None }
}

/// One day of the replay: a workday with base `base` takes its slot as carry
/// and adds its band difference; a rest day adds all it did as surplus.
pub open spec fn replay_day(slots: Seq<int>, workday: bool, base: int, actual: int, w: int) -> Option<Seq<int>> {
    if !amount_ok(actual) {
        None
    } else if workday {
        let target = base + slots[0];
        if !amount_ok(target) {
            None
        } else {
            settle(rotate(slots), band_debt(actual, target), w)
        }
    } else {
        settle(slots, -actual, w)
    }
}

/// Length of the smoothing window (at least one workday).
pub open spec fn width(s: Settings) -> int {
    if s.smoothing_workdays < 1 { 1 } else { s.smoothing_workdays as int }
}

/// Base of day `d` in nanominutes.
pub open spec fn day_base(vs: Seq<SettingsVersion>, d: int) -> int {
    day_minutes(vs, d) * NANOS_PER_MINUTE
}

/// The slots after replaying days `d` up to (not including) `date`.
pub open spec fn replay(latest: Settings, vs: Seq<SettingsVersion>, log: Seq<LogRow>, d: int, date: int, slots: Seq<int>) -> Option<Seq<int>>
    decreases date - d,
{
    if d >= date {
        Some(slots)
    } else {
        match replay_day(
            slots,
            workday_for(latest, vs, d),
            day_base(vs, d),
            day_actual(vs, log, d) * NANOS_PER_MILLI,
            width(latest),
        ) {
            None => None,
            Some(next) => replay(latest, vs, log, d + 1, date, next),
        }
    }
}

/// `n` empty slots.
pub open spec fn zeros(n: int) -> Seq<int> {
    Seq::new(n as nat, |i: int| 0)
}

/// Adjusted target of day `date` in nanominutes: the base, plus on a workday
/// the carry that the replay from the first attributed day up to the day
/// before leaves in the first slot. `None` when an amount leaves the range.
pub open spec fn target_on(db: &Database, date: int) -> Option<int> {
    let vs = db.versions@;
    let base = day_base(vs, date);
    match first_day(vs, db.log@) {
        None => Some(base),
        Some(a) => match replay(db.settings, vs, db.log@, a, date, zeros(width(db.settings))) {
            None => None,
            Some(s) => Some(if workday_for(db.settings, vs, date) { base + s[0] } else { base }),
        },
    }
}

/// A day's target: the base (daily work minutes in effect) and the adjusted
/// target in nanominutes. On a rest day the target equals the base.
#[derive(Clone, Copy, Debug, PartialEq, Eq)]
pub struct DayTarget {
    pub base_minutes: u32,
    pub target_nanos: i128,
}

/// The work-hour ledger.
pub struct LedgerService;

/// One day of the replay on concrete slots.
fn replay_step(slots: &Vec<i128>, workday: bool, base: i128, actual_milli: i128, w: usize) -> (r: Option<Vec<i128>>)
    requires
        slots@.len() == w,
        1 <= w <= u32::MAX,
        all_ok(ints(slots@)),
        0 <= base <= 0xffff_ffff * NANOS_PER_MINUTE,
    ensures
        match replay_day(ints(slots@), workday, base as int, actual_milli * NANOS_PER_MILLI, w as int) {
            None => r is None,
            Some(n) => r matches Some(v) && ints(v@) == n,
        },
{
    let ghost s = ints(slots@);
    if actual_milli < -1_000_000_000_000_000_000_000_000 || actual_milli > 1_000_000_000_000_000_000_000_000 {
        return None;
    }
    let actual: i128 = actual_milli * NANOS_PER_MILLI;
    let mut rest: Vec<i128> = Vec::new();
    let debt: i128;
    if workday {
        assert(amount_ok(s[0]));
        let target: i128 = base + slots[0];
        if target < -AMOUNT_LIMIT || target > AMOUNT_LIMIT {
            return None;
        }
        debt = if 10 * actual >= 9 * target && 10 * actual <= 11 * target { 0 } else { target - actual };
        let mut i: usize = 1;
        while i < w
            invariant
                slots@.len() == w,
                1 <= i <= w,
                s == ints(slots@),
                rest@.len() == i - 1,
                forall|q: int| 0 <= q < i - 1 ==> #[trigger] rest@[q] == slots@[q + 1],
            decreases w - i,
        {
            rest.push(slots[i]);
            i = i + 1;
        }
        rest.push(0);
        assert(ints(rest@) =~= rotate(s));
    } else {
        debt = -actual;
        let mut i: usize = 0;
        while i < w
            invariant
                slots@.len() == w,
                i <= w,
                rest@.len() == i,
                forall|q: int| 0 <= q < i ==> #[trigger] rest@[q] == slots@[q],
            decreases w - i,
        {
            rest.push(slots[i]);
            i = i + 1;
        }
        assert(ints(rest@) =~= s);
    }
    let ghost base_s = ints(rest@);
    assert(all_ok(base_s)) by {
        assert forall|q: int| 0 <= q < base_s.len() implies amount_ok(#[trigger] base_s[q]) by {
            if workday && q == base_s.len() - 1 {
            } else if workday {
                assert(base_s[q] == s[q + 1]);
            } else {
                assert(base_s[q] == s[q]);
            }
        }
    }
    if debt == 0 {
        return Some(rest);
    }
    let wide: u128 = w as u128;
    let share: i128 = if debt >= 0 {
        ((debt as u128) / wide) as i128
    } else {
        -(((-debt) as u128 / wide) as i128)
    };
    assert(share == share_of(debt as int, w as int));
    assert(replay_day(s, workday, base as int, actual_milli * NANOS_PER_MILLI, w as int) == settle(base_s, debt as int, w as int));
    let mut next: Vec<i128> = Vec::new();
    let mut i: usize = 0;
    while i < w
        invariant
            rest@.len() == w,
            base_s == ints(rest@),
            all_ok(base_s),
            -3 * AMOUNT_LIMIT <= share <= 3 * AMOUNT_LIMIT,
            share == share_of(debt as int, w as int),
            debt != 0,
            s == ints(slots@),
            replay_day(s, workday, base as int, actual_milli * NANOS_PER_MILLI, w as int) == settle(base_s, debt as int, w as int),
            i <= w,
            next@.len() == i,
            forall|q: int| 0 <= q < i ==> #[trigger] next@[q] == rest@[q] + share,
            forall|q: int| 0 <= q < i ==> amount_ok(#[trigger] next@[q] as int),
        decreases w - i,
    {
        assert(amount_ok(base_s[i as int]));
        let v: i128 = rest[i] + share;
        if v < -AMOUNT_LIMIT || v > AMOUNT_LIMIT {
            assert(!all_ok(spread(base_s, share as int))) by {
                assert(spread(base_s, share as int)[i as int] == v);
                assert(!amount_ok(spread(base_s, share as int)[i as int]));
            }
            assert(settle(base_s, debt as int, w as int) is None);
            return None;
        }
        next.push(v);
        i = i + 1;
    }
    assert(ints(next@) =~= spread(base_s, share as int));
    Some(next)
}

impl LedgerService {
    /// Adjusted target of day `date` (see `target_on`); a Storage error when an
    /// amount leaves the ledger's range.
    pub fn day_target_on(db: &Database, date: i64) -> (r: Result<DayTarget, PlanError>)
        requires
            db.wf(),
            valid_day(date as int),
        ensures
            match target_on(db, date as int) {
                Some(t) => r matches Ok(v) && v.base_minutes == day_minutes(db.versions@, date as int) && v.target_nanos == t,
                None => r matches Err(PlanError::Storage(_)),
            },
            r matches Ok(v) ==> -2 * AMOUNT_LIMIT <= v.target_nanos <= 2 * AMOUNT_LIMIT,
    {
        let ghost vs = db.versions@;
        let ghost log = db.log@;
        let s_date = settings_on(db, date);
        let base_minutes = s_date.daily_minutes;
        let base: i128 = base_minutes as i128 * NANOS_PER_MINUTE;
        let days = attributed_days(db);
        let anchor = match earliest_day(&days, Ghost(vs), Ghost(log)) {
            None => {
                return Ok(DayTarget { base_minutes, target_nanos: base });
            },
            Some(a) => a,
        };
        let w: usize = if db.settings.smoothing_workdays < 1 { 1 } else { db.settings.smoothing_workdays as usize };
        let mut slots: Vec<i128> = Vec::new();
        let mut i: usize = 0;
        while i < w
            invariant
                i <= w,
                slots@.len() == i,
                forall|q: int| 0 <= q < i ==> #[trigger] slots@[q] == 0,
            decreases w - i,
        {
            slots.push(0);
            i = i + 1;
        }
        assert(ints(slots@) =~= zeros(width(db.settings)));
        assert(first_day(vs, log) == Some(anchor as int));
        let mut d: i64 = anchor;
        while d < date
            invariant
                db.wf(),
                vs == db.versions@,
                log == db.log@,
                valid_day(date as int),
                -1_000_000_001 <= anchor <= d,
                anchor < date ==> d <= date,
                first_day(vs, log) == Some(anchor as int),
                w as int == width(db.settings),
                1 <= w <= u32::MAX,
                slots@.len() == w,
                all_ok(ints(slots@)),
                days@.len() == log.len(),
                forall|k: int| 0 <= k < days@.len() ==> #[trigger] days@[k] == attributed_day(vs, log[k].at),
                replay(db.settings, vs, log, anchor as int, date as int, zeros(w as int))
                    == replay(db.settings, vs, log, d as int, date as int, ints(slots@)),
            decreases date - d,
        {
            let s = settings_on(db, d);
            let actual = day_sum(&db.log, &days, Ghost(vs), d);
            let workday = s.is_workday_on(d);
            let base_d: i128 = s.daily_minutes as i128 * NANOS_PER_MINUTE;
            let ghost cur = ints(slots@);
            match replay_step(&slots, workday, base_d, actual, w) {
                None => {
                    assert(replay(db.settings, vs, log, d as int, date as int, cur) is None);
                    assert(first_day(vs, log) == Some(anchor as int));
                    assert(target_on(db, date as int) is None);
                    return Err(PlanError::Storage("工时账户数值越界".to_string()));
                },
                Some(next) => {
                    slots = next;
                },
            }
            d = d + 1;
        }
        let t: i128 = if s_date.is_workday_on(date) {
            assert(amount_ok(ints(slots@)[0]));
            base + slots[0]
        } else {
            base
        };
        Ok(DayTarget { base_minutes, target_nanos: t })
    }

    /// Adjusted target of the day of `now`.
    pub fn day_target(db: &Database, now: LocalTime) -> (r: Result<DayTarget, PlanError>)
        requires
            db.wf(),
            now.wf(),
        ensures
            match target_on(db, now.day as int) {
                Some(t) => r matches Ok(v) && v.base_minutes == day_minutes(db.versions@, now.day as int) && v.target_nanos == t,
                None => r matches Err(PlanError::Storage(_)),
            },
            r matches Ok(v) ==> -2 * AMOUNT_LIMIT <= v.target_nanos <= 2 * AMOUNT_LIMIT,
    {
        Self::day_target_on(db, now.day)
    }
}

/// A day meets its target when its net progress (thousandths of a minute)
/// reaches the lower edge of the ±10% band around the target (nanominutes).
pub open spec fn met_spec(total_milli: int, target_nanos: int) -> bool {
    10 * total_milli * NANOS_PER_MILLI >= 9 * target_nanos
}

/// `q` is the ceiling of `y / b`: the least integer whose multiple of `b`
/// reaches `y`.
proof fn lemma_ceil_compare(x: int, y: int, b: int, q: int)
    requires
        b > 0,
        q * b >= y,
        (q - 1) * b < y,
    ensures
        (x * b >= y) == (x >= q),
{
    if x >= q {
        assert(x * b >= q * b) by (nonlinear_arith)
            requires
                x >= q,
                b > 0,
        ;
    } else {
        assert(x * b <= (q - 1) * b) by (nonlinear_arith)
            requires
                x <= q - 1,
                b > 0,
        ;
    }
}

/// Ceiling of `y / b` for a positive `b`, in both signs of `y`.
proof fn lemma_ceil_bounds(n: int, b: int)
    requires
        n >= 0,
        b > 0,
    ensures
        ((n + b - 1) / b) * b >= n,
        ((n + b - 1) / b - 1) * b < n,
        (-(n / b)) * b >= -n,
        (-(n / b) - 1) * b < -n,
{
    let m = n + b - 1;
    vstd::arithmetic::div_mod::lemma_fundamental_div_mod(m, b);
    vstd::arithmetic::div_mod::lemma_mod_pos_bound(m, b);
    vstd::arithmetic::div_mod::lemma_fundamental_div_mod(n, b);
    vstd::arithmetic::div_mod::lemma_mod_pos_bound(n, b);
    let q = m / b;
    let p = n / b;
    assert(q * b == b * q) by (nonlinear_arith);
    assert((q - 1) * b == b * q - b) by (nonlinear_arith);
    assert((-p) * b == -(b * p)) by (nonlinear_arith);
    assert((-p - 1) * b == -(b * p) - b) by (nonlinear_arith);
}

/// Whether a day's net progress (thousandths of a minute) meets its adjusted
/// target (nanominutes): at least 90% of it.
pub fn day_met(total_milli: i128, target_nanos: i128) -> (r: bool)
    requires
        -2 * AMOUNT_LIMIT <= target_nanos <= 2 * AMOUNT_LIMIT,
    ensures
        r == met_spec(total_milli as int, target_nanos as int),
{
    let y: i128 = 9 * target_nanos;
    let b: i128 = 10 * NANOS_PER_MILLI;
    let q: i128 = if y >= 0 {
        ((y as u128 + (b as u128 - 1)) / (b as u128)) as i128
    } else {
        -((((-y) as u128) / (b as u128)) as i128)
    };
    proof {
        if y >= 0 {
            lemma_ceil_bounds(y as int, b as int);
        } else {
            lemma_ceil_bounds(-y as int, b as int);
        }
        lemma_ceil_compare(total_milli as int, y as int, b as int, q as int);
        assert(10 * total_milli * NANOS_PER_MILLI == total_milli * b) by (nonlinear_arith)
            requires
                b == 10 * NANOS_PER_MILLI,
        ;
    }
    total_milli >= q
}

/// The adjusted target is derived from the progress log and the settings
/// alone: two stores with the same settings, versions and log give every day
/// the same target, whatever their plans, allocations or other tables hold.
pub proof fn lemma_target_reads_log_and_settings(a: &Database, b: &Database, date: int)
    requires
        a.settings == b.settings,
        a.versions@ == b.versions@,
        a.log@ == b.log@,
    ensures
        target_on(a, date) == target_on(b, date),
{
}

/// With no progress event at all, every day's target is its base; on a rest
/// day the target is always the base.
pub proof fn lemma_base_targets(db: &Database, date: int)
    ensures
        db.log@.len() == 0 ==> target_on(db, date) == Some(day_base(db.versions@, date)),
        !workday_for(db.settings, db.versions@, date) ==>
            (target_on(db, date) matches Some(t) ==> t == day_base(db.versions@, date)),
{
}

/// The band is symmetric: a workday within ±10% of its (non-negative) target
/// adds nothing, a shortfall below the band raises the following workdays and a
/// surplus above it lowers them.
pub proof fn lemma_band_symmetric(actual: int, target: int)
    requires
        target >= 0,
    ensures
        (band_debt(actual, target) == 0) == (9 * target <= 10 * actual <= 11 * target),
        (band_debt(actual, target) > 0) == (10 * actual < 9 * target),
        (band_debt(actual, target) < 0) == (10 * actual > 11 * target),
{
}


/// Workdays after day `a`, up to and including day `d`.
pub open spec fn workdays_after(latest: Settings, vs: Seq<SettingsVersion>, a: int, d: int) -> int
    decreases d - a,
{
    if d <= a {
        0
    } else {
        workdays_after(latest, vs, a, d - 1) + if workday_for(latest, vs, d) { 1int } else { 0int }
    }
}

proof fn lemma_workdays_after_nonneg(latest: Settings, vs: Seq<SettingsVersion>, a: int, d: int)
    ensures
        workdays_after(latest, vs, a, d) >= 0,
    decreases d - a,
{
    if d > a {
        lemma_workdays_after_nonneg(latest, vs, a, d - 1);
    }
}

/// The slots while a share is being used up: `c` workdays have taken theirs,
/// and the next `w - c` slots still hold it.
spec fn carry_slots(w: int, share: int, c: int) -> Seq<int> {
    Seq::new(w as nat, |i: int| if i + c < w { share } else { 0 })
}

/// The replay after the anchor day: rest days that log nothing keep the slots,
/// and a workday within ±10% of its target takes its slot.
proof fn lemma_replay_carry(latest: Settings, vs: Seq<SettingsVersion>, log: Seq<LogRow>, a: int, d: int, date: int,
    w: int, share: int)
    requires
        a < d <= date,
        w == width(latest),
        -AMOUNT_LIMIT <= 2 * share <= AMOUNT_LIMIT,
        forall|x: int| a < x < date ==> amount_ok(#[trigger] day_actual(vs, log, x) * NANOS_PER_MILLI),
        forall|x: int| a < x < date && !#[trigger] workday_for(latest, vs, x) ==> day_actual(vs, log, x) == 0,
        forall|x: int| a < x < date && #[trigger] workday_for(latest, vs, x) ==> {
            let target = day_base(vs, x) + if workdays_after(latest, vs, a, x) <= w { share } else { 0 };
            let actual = day_actual(vs, log, x) * NANOS_PER_MILLI;
            9 * target <= 10 * actual && 10 * actual <= 11 * target
        },
    ensures
        replay(latest, vs, log, d, date, carry_slots(w, share, workdays_after(latest, vs, a, d - 1)))
            == Some(carry_slots(w, share, workdays_after(latest, vs, a, date - 1))),
    decreases date - d,
{
    if d < date {
        let c = workdays_after(latest, vs, a, d - 1);
        let slots = carry_slots(w, share, c);
        let next_c = workdays_after(latest, vs, a, d);
        assert(0 <= day_minutes(vs, d) <= 0xffff_ffff);
        assert(all_ok(slots));
        if workday_for(latest, vs, d) {
            assert(next_c == c + 1);
            lemma_workdays_after_nonneg(latest, vs, a, d - 1);
            assert forall|i: int| 0 <= i < w implies #[trigger] rotate(slots)[i] == carry_slots(w, share, c + 1)[i] by {
                if i < w - 1 {
                    assert(rotate(slots)[i] == slots[i + 1]);
                }
            }
            assert(rotate(slots) =~= carry_slots(w, share, c + 1));
            assert(all_ok(rotate(slots)));
            assert(slots[0] == if workdays_after(latest, vs, a, d) <= w { share } else { 0 });
        } else {
            assert(next_c == c);
        }
        lemma_replay_carry(latest, vs, log, a, d + 1, date, w, share);
    }
}

/// A day's difference is spread over exactly as many following workdays as the
/// smoothing setting says (at least one). Take the first day the log reaches,
/// `a`: a workday whose progress lies outside ±10% of its base, with difference
/// `D` = base − progress, or a rest day with some progress, which counts in full
/// as surplus, `D` = −progress. Suppose every later day up to `date` either is
/// a rest day that logs nothing or a workday within ±10% of its own target.
/// Then the k-th workday after `a` has as target its base plus
/// `D / max(1, smoothing_workdays)` (rounded toward zero) while
/// k ≤ max(1, smoothing_workdays), and its bare base after that.
pub proof fn lemma_difference_spread_over_smoothing_window(db: &Database, a: int, date: int)
    requires
        first_day(db.versions@, db.log@) == Some(a),
        a < date,
        workday_for(db.settings, db.versions@, a) ==> (
            10 * (day_actual(db.versions@, db.log@, a) * NANOS_PER_MILLI) < 9 * day_base(db.versions@, a)
            || 10 * (day_actual(db.versions@, db.log@, a) * NANOS_PER_MILLI) > 11 * day_base(db.versions@, a)),
        !workday_for(db.settings, db.versions@, a) ==> day_actual(db.versions@, db.log@, a) != 0,
        ({
            let act = day_actual(db.versions@, db.log@, a) * NANOS_PER_MILLI;
            let debt = if workday_for(db.settings, db.versions@, a) { day_base(db.versions@, a) - act } else { -act };
            -AMOUNT_LIMIT <= 2 * debt <= AMOUNT_LIMIT
        }),
        forall|x: int| a <= x < date ==> amount_ok(#[trigger] day_actual(db.versions@, db.log@, x) * NANOS_PER_MILLI),
        forall|x: int| a < x < date && !#[trigger] workday_for(db.settings, db.versions@, x)
            ==> day_actual(db.versions@, db.log@, x) == 0,
        forall|x: int| a < x < date && #[trigger] workday_for(db.settings, db.versions@, x) ==> {
            let w: int = if db.settings.smoothing_workdays < 1 { 1 } else { db.settings.smoothing_workdays as int };
            let act = day_actual(db.versions@, db.log@, a) * NANOS_PER_MILLI;
            let debt = if workday_for(db.settings, db.versions@, a) { day_base(db.versions@, a) - act } else { -act };
            let share = if debt >= 0 { debt / w } else { -((-debt) / w) };
            let target = day_base(db.versions@, x)
                + if workdays_after(db.settings, db.versions@, a, x) <= w { share } else { 0 };
            let actual = day_actual(db.versions@, db.log@, x) * NANOS_PER_MILLI;
            9 * target <= 10 * actual && 10 * actual <= 11 * target
        },
    ensures
        ({
            let w: int = if db.settings.smoothing_workdays < 1 { 1 } else { db.settings.smoothing_workdays as int };
            let act = day_actual(db.versions@, db.log@, a) * NANOS_PER_MILLI;
            let debt = if workday_for(db.settings, db.versions@, a) { day_base(db.versions@, a) - act } else { -act };
            let share = if debt >= 0 { debt / w } else { -((-debt) / w) };
            let k = workdays_after(db.settings, db.versions@, a, date);
            target_on(db, date) == Some(day_base(db.versions@, date)
                + if workday_for(db.settings, db.versions@, date) && k <= w { share } else { 0 })
        }),
{
    let latest = db.settings;
    let vs = db.versions@;
    let log = db.log@;
    let w: int = if latest.smoothing_workdays < 1 { 1 } else { latest.smoothing_workdays as int };
    let base_a = day_base(vs, a);
    let act_a = day_actual(vs, log, a) * NANOS_PER_MILLI;
    let wa = workday_for(latest, vs, a);
    let debt = if wa { base_a - act_a } else { -act_a };
    let share = if debt >= 0 { debt / w } else { -((-debt) / w) };
    assert(w == width(latest));
    assert(0 <= day_minutes(vs, a) <= 0xffff_ffff);
    assert(share == share_of(debt, w));
    if debt >= 0 {
        assert(0 <= debt / w <= debt) by (nonlinear_arith)
            requires
                debt >= 0,
                w >= 1,
        ;
    } else {
        assert(0 <= (-debt) / w <= -debt) by (nonlinear_arith)
            requires
                -debt > 0,
                w >= 1,
        ;
    }
    // The anchor fills every slot with its share of the difference.
    let z = zeros(width(latest));
    assert(rotate(z) =~= z);
    assert(debt != 0);
    if wa {
        assert(band_debt(act_a, base_a) == debt);
        assert(spread(rotate(z), share) =~= carry_slots(w, share, 0));
    } else {
        assert(spread(z, share) =~= carry_slots(w, share, 0));
    }
    assert(all_ok(carry_slots(w, share, 0)));
    assert(replay_day(z, wa, base_a, act_a, w) == Some(carry_slots(w, share, 0)));
    assert(workdays_after(latest, vs, a, a) == 0);
    lemma_replay_carry(latest, vs, log, a, a + 1, date, w, share);
    assert(replay(latest, vs, log, a, date, z) == replay(latest, vs, log, a + 1, date, carry_slots(w, share, 0)));
    let c = workdays_after(latest, vs, a, date - 1);
    assert(carry_slots(w, share, c)[0] == if c < w { share } else { 0 });
}

} // verus!
