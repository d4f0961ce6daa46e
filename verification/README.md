# anchor-tray-app

A system-tray supervisor for the anchor backend services, with its decision
logic written in Verus and proved against its contracts.

- `src/` is the verified library: the service table and its transitions
  (`supervisor`), the crash/backoff policy (`policy`), the stack file and the
  service definitions built from it (`stack`), environment maps (`env_map`),
  text helpers (`text`), the tray menu and status report (`ui`),
  properties of single steps (`laws`), and properties of whole runs of
  events: stops and degradation hold until a restart, one live process per
  service, the backoff schedule, names and ports (`lifecycle`).
- `app/` is the program around it: it spawns and reaps processes, sleeps
  between respawns, writes log files, reads the stack file with serde, and
  runs the tray menu with tauri.
- `tests/` exercises the library on concrete values.
