//! Start-up snapshot: the settings and the current instant.

use vstd::prelude::*;
use crate::settings::Settings;
use crate::settings_service::{same_settings, SettingsService};
use crate::store::Database;
use crate::time::LocalTime;

verus! {

/// What the interface reads at start-up.
#[derive(Debug)]
pub struct AppStateView {
    pub settings: Settings,
    pub server_now: LocalTime,
}

/// The latest saved settings and the instant `now` (what the clock answered).
pub fn app_state_view(db: &Database, now: LocalTime) -> (r: AppStateView)
    ensures
        same_settings(r.settings, db.settings),
        r.server_now == now,
{
    AppStateView { settings: SettingsService::load(db), server_now: now }
}

} // verus!
