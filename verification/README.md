# steam_core

The logic of a Steam account switcher, verified with Verus: it reads the
accounts the local Steam client remembers, decides how to switch the account
Steam logs into on its next start, keeps rank badges, folders and colours per
account, and follows Steam's game process log for a local playtime history.

- `src/` is the verified library. Every file it reads arrives as text or
  bytes and every file it writes leaves as a value, so its functions are
  stated over Valve KeyValues documents, paths as text, and plain facts about
  the file system (whether a path is a file or a folder).
  - `vdf`: the KeyValues parser and writer, with the document model and its laws.
  - `accounts`, `autologin`: `loginusers.vdf`, `config.vdf` and `registry.vdf`
    edits, and the plan of a switch.
  - `ranks`, `metadata`: rank ladders and the rank stored per account.
  - `settings`, `state`: preferences, folders, colours, and the installation picker.
  - `pathdetect`, `avatars`, `games`, `processes`: where Steam lives, which
    avatar is cached, which game an app id names, which processes are Steam.
  - `playtime`, `logtail`: the game process log, read line by line.
  - `presentation`, `util`, `model`, `text`, `error`: texts and shared types.
- `app/` is a command-line front end: file and process I/O, the JSON files,
  and the session accounting of the playtime tracker, whose times are
  floating point seconds.
- `tests/` runs the library on concrete values.
