# vrc_log_viewer

A viewer for VRChat output logs (`output_log_YYYY-MM-DD_HH-MM-SS.txt`),
whose logic is verified with Verus.

- `src/` is the verified library:
  - `vrc::parser`: splitting a log into records (first line with timestamp,
    level, type and message; continuation lines as details), removing Unity
    rich-text tags, and reading a file backwards from its end in pieces
    (`TailReader`) or forwards from an offset.
  - `state`: the viewer state (`VRCLog`): the bounded cache of records kept
    newest first, the text / regular-expression / level filters, paging,
    expanded rows and the settings page; `update` is specified against the
    pure transition function `next_state`.
  - `stream`: which log files are followed (log file names from the last two
    days, newest first).
  - `vrc::path`: the decisions made while locating VRChat's data directory
    (`LocalLow` directory, Steam installation, `libraryfolders.vdf`).
  - `view`: paging arithmetic and the texts shown by the log page.
  - `text`, `log_entry`, `message`, `config`: text helpers with their
    specifications, cache entries and their order, messages and settings.
- `app/` is the program around it: the window (iced), reading files and
  directories (tokio), the settings file (serde_json) and the clock.
- `tests/` runs the library on concrete values.
