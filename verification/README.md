# stint

Terminal-native project time tracking. A shell hook notices which project a directory belongs to and
keeps its time; timers can also be started by hand, time can be added afterwards, and the result is
listed, summed up, reported, served over HTTP and shown in a dashboard.

The library in `src/` holds everything that is decided or computed, as functions on plain values,
with contracts that Verus proves:

- `text`, `clock`, `dates`, `duration`, `tags`, `paths`: texts, points in time, days, durations,
  tags and directories. The `time` crate reads and writes timestamps behind a few trusted functions
  in `clock`.
- `models`, `rows`, `db`: projects, entries and sessions, and what is stored as a mathematical
  value: the tables, their rules, and every query and change.
- `storage`, `loading`: the store itself, and the test whether loaded rows keep the rules.
- `upkeep`, `readback`, `chronology`: laws of the store. Every change keeps the rules, what was
  written is read back, and stored times, which are compared as they are written, are in the order
  of time wherever that can be said of their texts.
- `hook`, `tracking`, `config`: the shell hook, and the laws of tracking.
- `service`, `cli`, `project_commands`, `report`, `shell`, `error`: the commands and what they print.
- `api`: the HTTP interface, as replies with a status and a body.
- `dashboard`, `panels`: the state of the dashboard, its keys, and what its panels show.
- `schema`: the statements that create and migrate the database.

Names that start with `law_` are theorems about the library as a whole. Functions that read the
clock come with a twin that takes any time as an argument and says exactly what is done at it.

`app/` is the program around the library: arguments, the SQLite database, the terminal, the HTTP
server, and the search for repositories.
