# mimic

Keeps League of Legends settings in named profiles, applies them per account at login,
gives champions settings of their own for the game they are picked in, and asks before
keeping what the player changed.

- `src/` is the library, verified with Verus: the settings model and its diffs and
  merges, the files mimic keeps and their names, the League client's lockfile and event
  frames, the decisions taken at login, after a game and on a pick, and everything the
  panel shows. Each public function states what it returns in its contract; the laws
  that relate several functions are the `law_*` proof functions.
- `tests/` runs the library on concrete values.
- `app/` is the part that waits, reads and writes: files on disk, the client's REST API
  and WebSocket, the clock and the log. It hands what it reads to the library's
  decisions and carries out the steps they ask for, each pass of a settings write
  included (`write_begin`, `write_after_read`). The order of the steps and the waits
  between them are its own, and so is which kind of write asks for a snapshot first:
  applying, restoring and settling changes do; putting a champion's settings on or
  taking them off does not.
- The desktop shell around all this (the tray icon, its windows, the updater and the
  autostart switch, built on a window toolkit) is not part of this crate.
