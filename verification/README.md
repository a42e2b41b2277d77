# plan_helper

A desktop study planner's core, verified with Verus: plans made of tasks and
ordered sub-goals, dependencies between tasks, the plan life cycle with priority
preemption, today's allocation, progress reporting over an append-only log, the
work-hour ledger that spreads a deficit or surplus over the coming workdays,
daily summaries, and the settings (workdays, time windows, date overrides) that
drive them.

Layout:

- `src/` — the verified library. Each public function states what it returns or
  changes in its `ensures`, over spec functions of the store (`store.rs`) and of
  each module's data. Properties that span several calls stand as public proof
  functions (`lemma_*`), for example that starting, pausing or completing a
  plan keeps the preemption invariant, that saving settings never changes a
  past day, and that the ledger's target is a function of the log and the
  settings alone.
- `tests/` — scenarios run against the compiled library.
- `app/` — the command-line shell: SQLite persistence, JSON input and output,
  the clock, and the dispatch of commands to the library.

Dates are day numbers as chrono counts them (0001-01-01 is day 1); instants are
a day number and a minute of that day; percentages are tenths of a percent; and
ledger amounts are billionths of a minute, so that no floating point enters the
library.

A time window's endpoints are minutes of the day, with end < start for a window
that crosses midnight. Windows inside the day are merged into their normal
form; a window with an endpoint of 1440 or more is merged segment by segment
and kept as that merge leaves it. The machine's clock is read in `app/`, which hands
the library the day, hour and minute it read (`LocalTime::from_parts`).
