# meatshell window management, verified

The launch-time and single-instance logic of the meatshell terminal, written
in Verus.

- `src/launch.rs` — reading the launch intent (`--new-window`, `--dir <path>`)
  from the process arguments.
- `src/single_instance.rs` — the request payload a forwarding launch sends to
  the primary instance, the acknowledgement, the endpoint names and the port
  file's text.
- `src/acquire.rs` — becoming the primary instance or forwarding to it, as
  two step-by-step procedures: over a unix-domain socket, and over loopback
  TCP with a port file.
- `src/registry_menu.rs` — the Explorer context-menu verb: key paths, UTF-16
  strings, and the registration and removal procedures, one registry call at
  a time.
- `src/text.rs` — character-level helpers: equality, search, white-space
  trimming and decimal numerals.
- `app/` — the I/O that the procedures call for: sockets, files, the Win32
  registry functions, and logging.
- `tests/` — tests on concrete values.
