# portkill

The logic behind a menu-bar utility that lists every listening TCP port and
kills or focuses the process behind it, verified with Verus.

- `src/text.rs` — lines, whitespace words, trimming, unsigned decimal numbers
  and their spelling, over characters.
- `src/ports.rs` — the `lsof -F pcn` listing read into port entries (one per
  pid and port), the pid argument of the single `ps` call, the resident-set
  sizes it prints, and the parent pid that `ps -o ppid=` prints.
- `src/kill.rs` — `kill -9` checks and messages, and the kill of the process
  on a port: `SIGTERM`, a grace period, `SIGKILL` only if still alive, the pid
  and port checked again right before each signal.
- `src/focus.rs` — the walk up the parent chain to the app that owns a process.
- `src/panel.rs` — the clock, the reopen guard, and the panel's show/hide rules.
- `app/` — the Tauri program: runs `lsof`, `ps` and `kill`, drives the kill and
  focus decisions, and talks to AppKit on macOS.
