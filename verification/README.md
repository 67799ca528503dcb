# CiderHub

A small web logbook for cider making: seasons, orchard trees, batches and
the events logged against them (juicing, additives, measurements, racking,
bottling, tastings, failures), with a dashboard of per-metric charts and a
season-wide timeline of every batch's phases.

The crate is written in Verus. `src/` is the verified library: everything
the pages decide or compute — a batch's status and phase dates from its
event log, the timeline summaries and their order, form reading, dates,
the password lock, the dashboard's selections and the SVG season timeline
— each with a contract that Verus proves. The calls into chrono and into
std's lowercasing sit behind small trusted wrappers whose contracts state
what those functions are documented to do.

`app/` is the server around it: axum routes, SQLite access through sqlx,
askama pages, and the per-metric line charts, which are computed in
floating point. `tests/` runs the library on concrete values.

| module | what it holds |
| --- | --- |
| `text` | decimal writing, trimming, comparisons |
| `numbers` | `u32`/`i64` parsing with std's rules and errors |
| `calendar` | the proleptic Gregorian calendar as day numbers; chrono wrappers |
| `dates` | ISO date texts, today, season dates, month pickers |
| `batches` | status, timeline summaries and order, juicing form, batch list facts |
| `dashboard` | chart selection, pickers, season overview phases |
| `charts` | day ticks, weekly gridlines, escaping, the season timeline SVG |
| `binary64` | the timeline's `f64` positions and widths, rounded exactly as `f64` rounds, in integers |
| `auth` | the shared-password lock and login |
| `seasons`, `trees`, `units`, `models` | the editable tables and form types |
