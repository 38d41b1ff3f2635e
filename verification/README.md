# iumenu

The verified core of an application launcher.

- `src/` is the library, checked by Verus: desktop entry parsing and
  filtering (`freedesktop`), catalogues of applications keyed by id (`app`),
  splitting a command line into program and arguments (`action`), the socket
  protocol between the launcher server and its toggle client (`ipc`),
  turning Windows registry entries and shortcuts into applications
  (`windows`), and the text operations these rest on (`text`).
- `app/` is the unverified outer layer: command-line parsing with clap,
  configuration files with serde and toml, directory and file reading,
  starting programs, the tokio socket server and client, and reading the
  Windows registry and Start Menu.
- `tests/` runs the library on concrete values.
