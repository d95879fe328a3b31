# vidzy

A wall of media players fed from configured libraries, as a Verus-verified
library (`src/`) with a thin program around it (`app/`).

- `src/text.rs` — characters, splitting, trimming, byte search and decimal
  number reading, each with its specification.
- `src/helpers.rs` — configuration files (`name = value` lines), entry
  selection by name, directory patterns `root{a|b}`, path sorting, the clock
  and random helpers.
- `src/feeder.rs` — libraries, the blacklist and size filter, and the steps of
  a player's file pick.
- `src/input.rs` — pointer events and the timed combos a configuration
  defines.
- `src/player.rs` — player commands, the runner's decisions, wake-up routing,
  engine calls and channel viewports.
- `src/sys.rs` — the trusted calls into std's clock and `rand`.
- `app/` — reading files and directories, the pick loops, the mpv runner
  threads and the command loop on standard input.
