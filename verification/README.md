# ssh_config_manager

A verified library for viewing and editing the `Host` blocks of an SSH client
configuration file (`~/.ssh/config`), with a small desktop window around it.

- `src/` is the library, checked by Verus:
  - `text` — whitespace, trimming, ASCII case folding, decimal numbers;
  - `directive` — the lines of a text and the `Key value` / `Key=value`
    directives they hold;
  - `host` — a `Host` block: reading and setting its directives;
  - `editor` — the form of one block: filling, validating, applying;
  - `document` — the whole file: parsing, writing, duplicate aliases;
  - `roundtrip` — what reading a written document gives back;
  - `status` — the status-bar message;
  - `manager` — the state of the window and the decision of each action.
- `app/` is the window (eframe/egui), the file picker (rfd) and the file
  reads and writes, including the `.bak` copy made before each save.
- `tests/` runs the library on concrete files and compares its text helpers
  with the standard library.
