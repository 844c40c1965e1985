# codextool

A Codex account and history toolkit whose logic is written in Verus and
proved against its contracts.

- `src/` is the verified library. Each module holds the data it works on, the
  spec functions that say what its operations compute, the operations
  themselves, and public proof functions (`law_*`) for the properties that
  relate several of them:
  - `provider_sync`: the provider `config.toml` selects, rollout metadata scans
    and rewrites, per-provider counts, SQLite schema checks, backup plans;
  - `token_usage`, `session_log`, `record_hash`: token events, confirmed usage
    deltas, fork lineage of session files and the record fingerprints it
    compares;
  - `analytics_log`: per-prompt usage for cost analytics, and what each
    session owns once fork lineage is applied;
  - `models`, `account_store`, `desktop`, `command_line`, `settings_service`:
    account keys, record merging, switch and OAuth decisions, CLI parsing and
    output, settings clean-up;
  - `skill_market`, `skin_market`, `ldxp_store`: skill files and sources,
    PowerShell output decoding, shop catalogue rules;
  - `tray`, `tray_visual`: tray surfaces and icon rasters;
  - `text`, `text_map`, `order`: the string, map and ordering helpers.
- Calls into `serde_json`, `toml_edit`, `time`, `reqwest`'s URL parser and
  `encoding_rs` stand behind small wrappers whose contracts say what the
  library relies on.
- `tests/` runs the library on concrete inputs.
- `app/` is the `codextool` command-line program: argument parsing, files,
  the SQLite index and printing around the library.
