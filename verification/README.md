# cc-stats

Usage statistics of assistant session logs: how much time, how many messages,
tokens and dollars went into which project, day, model, skill, tool and branch.

A session log is a file with one JSON record a line. A scan reads the logs of
many folders, counts the sessions that are asked for, and a report lists and
sums up what was counted.

## Layout

- `src/` is the library. Every function in it is verified with Verus; calls into
  `chrono`, `serde_json` and `std` stand behind small trusted functions whose
  doc comments say what is taken for granted.
  - `text`, `time`, `names`, `sorting`: characters and numbers, instants and
    dates, tables in the order of their names, stable sorting.
  - `json`, `event`, `log`: from the lines of a log to the events of a session.
  - `project`: names of projects, merging and filtering.
  - `tokens`, `usage`, `sums`, `union`: what tokens cost, amounts and tables of
    amounts, sums over them, and the time that spans cover together.
  - `session`, `tables`, `scan`: what a session adds, all tables together, and
    the scan with its invariant.
  - `report`, `anonymize`, `render`: the report, what is taken out of it for the
    public, and its texts.
- `app/` is the command line around it: arguments, files, JSON output and
  floating point.
- `tests/` runs the library on given values.

Costs are exact: they are counted in hundred-millionths of a US dollar, and
turned into a number with a fraction only where they are shown.
