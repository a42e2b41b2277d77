//! Plan helper: plans, tasks, sub-goals and their dependencies; the plan life
//! cycle with priority preemption; today's allocation; progress reporting on an
//! append-only log; the work-hour ledger; daily summaries; and the settings that
//! drive them, all over an in-memory store.

pub mod text;
pub mod time;
pub mod windows;
pub mod order;
pub mod plans;
pub mod settings;
pub mod progress;
pub mod store;
pub mod lifecycle;
pub mod deps;
pub mod views;
pub mod editing;
pub mod revision;
pub mod copying;
pub mod settings_service;
pub mod app_state;
pub mod ledger;
pub mod allocation;
pub mod summary;
pub mod layout;
