//! Settings: first-run defaults, saving, the app-state snapshot, work time,
//! delayed and immediate fields, date overrides, validation, the next window
//! start and window normalisation on save.

use plan_helper::app_state::app_state_view;
use plan_helper::plans::PlanError;
use plan_helper::settings::{DateOverride, Settings, SettingsVersion, SENTINEL_EFFECTIVE};
use plan_helper::settings_service::SettingsService;
use plan_helper::store::{open_in_memory, Database};
use plan_helper::time::{FixedClock, LocalTime};
use plan_helper::windows::{merge_time_windows, TimeWindow};

/// Day number of a calendar date, counted as chrono counts it (0001-01-01 is day 1).
fn ymd(y: i32, m: u32, d: u32) -> Option<i64> {
    chrono::NaiveDate::from_ymd_opt(y, m, d).map(|x| chrono::Datelike::num_days_from_ce(&x) as i64)
}

fn d(y: i32, mo: u32, day: u32) -> i64 {
    ymd(y, mo, day).unwrap()
}

fn at(y: i32, mo: u32, day: u32, h: u32, mi: u32) -> LocalTime {
    LocalTime { day: d(y, mo, day), minute: h * 60 + mi }
}

fn force_settings(db: &mut Database, s: Settings) {
    db.versions = vec![SettingsVersion {
        daily_minutes: s.daily_minutes,
        workdays: s.workdays.clone(),
        time_windows: s.time_windows.clone(),
        effective_from: SENTINEL_EFFECTIVE,
    }];
    db.settings = s;
}

fn tw(a: u16, b: u16) -> TimeWindow {
    TimeWindow { start_minute: a, end_minute: b }
}

#[test]
fn first_run_loads_and_persists_defaults() {
    let db = open_in_memory();
    let first = SettingsService::load(&db);
    assert_eq!(first.daily_minutes, 300);
    assert_eq!(first.workdays, vec![1, 2, 3, 4, 5]);
    assert_eq!(first.smoothing_workdays, 7);
    assert_eq!(first.time_windows, vec![tw(540, 1080)]);
    assert_eq!(SettingsService::load(&db), first);
}

#[test]
fn save_overwrites_and_records_injected_clock() {
    let mut db = open_in_memory();
    let clock = FixedClock(at(2026, 8, 23, 20, 30));
    let custom = Settings {
        daily_minutes: 240,
        workdays: vec![2, 4, 6],
        time_windows: vec![tw(600, 690), tw(1200, 60)],
        smoothing_workdays: 14,
        date_overrides: Vec::new(),
    };
    SettingsService::save(&mut db, clock.now(), &custom).unwrap();
    assert_eq!(SettingsService::load(&db), custom);
    assert_eq!(SettingsService::updated_at(&db), Some(clock.0));
    // Sunday 2026-08-23: the next workday under the settings in effect is Monday.
    assert_eq!(SettingsService::save(&mut db, clock.now(), &custom).unwrap(), d(2026, 8, 24));
}

#[test]
fn app_state_view_composes_settings_with_injected_now() {
    let db = open_in_memory();
    let clock = FixedClock(at(2026, 8, 23, 9, 0));
    let view = app_state_view(&db, clock.now());
    assert_eq!(view.server_now, clock.0);
    assert_eq!(view.settings, Settings::default());
}

#[test]
fn is_work_time_requires_workday_and_window() {
    let db = open_in_memory();
    assert!(SettingsService::is_work_time(&db, at(2026, 8, 24, 10, 0)));
    assert!(!SettingsService::is_work_time(&db, at(2026, 8, 24, 8, 0)));
    assert!(!SettingsService::is_work_time(&db, at(2026, 8, 24, 18, 0)), "the end is exclusive");
    assert!(!SettingsService::is_work_time(&db, at(2026, 8, 29, 10, 0)), "Saturday");
}

#[test]
fn is_work_time_covers_multi_window_and_cross_midnight() {
    let mut db = open_in_memory();
    force_settings(&mut db, Settings { time_windows: vec![tw(600, 690), tw(1200, 60)], workdays: vec![2, 4], ..Settings::default() });
    assert!(SettingsService::is_work_time(&db, at(2026, 8, 25, 11, 0)));
    assert!(!SettingsService::is_work_time(&db, at(2026, 8, 25, 15, 0)));
    assert!(SettingsService::is_work_time(&db, at(2026, 8, 27, 23, 0)));
    assert!(SettingsService::is_work_time(&db, at(2026, 8, 28, 0, 30)), "the tail belongs to Thursday");
    assert!(!SettingsService::is_work_time(&db, at(2026, 8, 28, 1, 30)));
    assert!(!SettingsService::is_work_time(&db, at(2026, 8, 30, 0, 30)), "Saturday is not a workday");
}

#[test]
fn delayed_fields_take_effect_next_workday() {
    let mut db = open_in_memory();
    let mut s = SettingsService::load(&db);
    s.daily_minutes = 400;
    let effective = SettingsService::save(&mut db, at(2026, 8, 24, 12, 0), &s).unwrap();
    assert_eq!(effective, d(2026, 8, 25));
    let cal = SettingsService::calendar(&db);
    assert_eq!(cal.for_date(d(2026, 8, 24)).daily_minutes, 300, "today keeps the old value");
    assert_eq!(cal.for_date(d(2026, 8, 25)).daily_minutes, 400);
    assert_eq!(cal.for_date(d(2026, 8, 31)).daily_minutes, 400);
    assert!(SettingsService::is_workday_on(&db, d(2026, 8, 24)));
}

#[test]
fn immediate_fields_take_effect_today() {
    let mut db = open_in_memory();
    let now = at(2026, 8, 24, 12, 0);
    let mut s = SettingsService::load(&db);
    s.smoothing_workdays = 14;
    assert_eq!(SettingsService::save(&mut db, now, &s).unwrap(), d(2026, 8, 24));
    assert_eq!(SettingsService::calendar(&db).for_date(d(2026, 8, 24)).smoothing_workdays, 14);
    s.date_overrides = vec![DateOverride { date: d(2026, 8, 29), working: true }];
    assert_eq!(SettingsService::save(&mut db, now, &s).unwrap(), d(2026, 8, 24));
    assert_eq!(db.versions.len(), 1, "no delayed version added");
    let cal = SettingsService::calendar(&db);
    assert!(cal.for_date(d(2026, 8, 29)).is_workday_on(d(2026, 8, 29)));
}

#[test]
fn date_overrides_override_weekly_loop_both_ways() {
    let mut db = open_in_memory();
    let mut s = SettingsService::load(&db);
    s.date_overrides = vec![DateOverride { date: d(2026, 8, 29), working: true }, DateOverride { date: d(2026, 8, 25), working: false }];
    SettingsService::save(&mut db, at(2026, 8, 24, 12, 0), &s).unwrap();
    assert!(SettingsService::is_workday_on(&db, d(2026, 8, 29)));
    assert!(!SettingsService::is_workday_on(&db, d(2026, 8, 25)));
    assert!(SettingsService::is_workday_on(&db, d(2026, 8, 26)));
    assert!(!SettingsService::is_workday_on(&db, d(2026, 8, 30)));
    assert_eq!(SettingsService::load(&db).date_overrides.len(), 2);
}

#[test]
fn invalid_settings_rejected_and_untouched() {
    let mut db = open_in_memory();
    let now = at(2026, 8, 24, 12, 0);
    let base = SettingsService::load(&db);
    let mut bad_window = base.clone();
    bad_window.time_windows = vec![tw(600, 600)];
    let mut bad_smoothing = base.clone();
    bad_smoothing.smoothing_workdays = 0;
    let mut bad_daily = base.clone();
    bad_daily.daily_minutes = 0;
    for (name, s) in [("start = end", &bad_window), ("smoothing 0", &bad_smoothing), ("daily 0", &bad_daily)] {
        let err = SettingsService::save(&mut db, now, s).unwrap_err();
        assert!(matches!(err, PlanError::InvalidSettings { .. }), "{name} must be refused");
    }
    assert_eq!(SettingsService::load(&db), base);
}

#[test]
fn date_override_must_be_in_the_future() {
    let mut db = open_in_memory();
    let mut s = SettingsService::load(&db);
    s.date_overrides = vec![DateOverride { date: d(2026, 8, 24), working: false }, DateOverride { date: d(2026, 8, 23), working: true }];
    let err = SettingsService::save(&mut db, at(2026, 8, 24, 12, 0), &s).unwrap_err();
    assert!(matches!(err, PlanError::InvalidSettings { .. }));
}

#[test]
fn next_window_start_finds_first_upcoming_window() {
    let mut db = open_in_memory();
    let windows = vec![tw(600, 690), tw(1200, 1320)];
    force_settings(&mut db, Settings { time_windows: windows.clone(), ..Settings::default() });
    let next = |db: &Database, y, mo, day, h, mi| SettingsService::next_window_start(db, at(y, mo, day, h, mi)).unwrap();
    assert_eq!(next(&db, 2026, 8, 24, 9, 0), Some(at(2026, 8, 24, 10, 0)));
    assert_eq!(next(&db, 2026, 8, 24, 10, 30), Some(at(2026, 8, 24, 20, 0)));
    assert_eq!(next(&db, 2026, 8, 24, 21, 0), Some(at(2026, 8, 25, 10, 0)));
    assert_eq!(next(&db, 2026, 8, 28, 21, 0), Some(at(2026, 8, 31, 10, 0)));
    force_settings(&mut db, Settings { time_windows: windows, date_overrides: vec![DateOverride { date: d(2026, 8, 31), working: false }], ..Settings::default() });
    assert_eq!(next(&db, 2026, 8, 28, 21, 0), Some(at(2026, 9, 1, 10, 0)));
    force_settings(&mut db, Settings { time_windows: vec![], ..Settings::default() });
    assert_eq!(next(&db, 2026, 8, 24, 9, 0), None);
}

#[test]
fn is_work_time_uses_effective_config_per_day() {
    let mut db = open_in_memory();
    let mut s = SettingsService::load(&db);
    s.time_windows = vec![tw(480, 540)];
    SettingsService::save(&mut db, at(2026, 8, 24, 12, 0), &s).unwrap();
    assert!(SettingsService::is_work_time(&db, at(2026, 8, 24, 12, 0)));
    assert!(!SettingsService::is_work_time(&db, at(2026, 8, 25, 12, 0)));
    assert!(SettingsService::is_work_time(&db, at(2026, 8, 25, 8, 30)));
}

#[test]
fn save_merges_overlapping_and_adjacent_windows() {
    let mut db = open_in_memory();
    let now = at(2026, 8, 24, 12, 0);
    let mut save_windows = |windows: &[TimeWindow]| {
        let mut s = SettingsService::load(&db);
        s.time_windows = windows.to_vec();
        SettingsService::save(&mut db, now, &s).unwrap();
        SettingsService::load(&db).time_windows
    };
    assert_eq!(save_windows(&[tw(600, 690), tw(660, 750)]), vec![tw(600, 750)]);
    assert_eq!(save_windows(&[tw(540, 720), tw(720, 1080)]), vec![tw(540, 1080)]);
    assert_eq!(save_windows(&[tw(1200, 60), tw(60, 300)]), vec![tw(1200, 300)]);
    assert_eq!(save_windows(&[tw(1200, 0), tw(0, 300)]), vec![tw(1200, 300)]);
    assert_eq!(save_windows(&[tw(720, 780), tw(600, 660)]), vec![tw(600, 660), tw(720, 780)]);
}

#[test]
fn save_rejects_windows_covering_full_day() {
    let mut db = open_in_memory();
    let mut s = SettingsService::load(&db);
    s.time_windows = vec![tw(540, 1320), tw(1200, 600)];
    let err = SettingsService::save(&mut db, at(2026, 8, 24, 12, 0), &s).unwrap_err();
    assert!(matches!(err, PlanError::InvalidSettings { .. }));
    assert_eq!(SettingsService::load(&db).time_windows, Settings::default().time_windows);
}

#[test]
fn merge_is_idempotent_on_normal_form() {
    let merged = merge_time_windows(&vec![tw(1200, 60), tw(60, 300), tw(600, 660)]).unwrap();
    assert_eq!(merged, vec![tw(600, 660), tw(1200, 300)]);
    assert_eq!(merge_time_windows(&merged).unwrap(), merged);
}
