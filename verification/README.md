# RDP Anchor

Opens remote desktops on the monitors that a display profile names, even after a restart has given
those monitors other numbers. Monitors are known by position and resolution; at each connection the
current numbers are looked up, and a copy of the host's `.rdp` file is launched that selects them.

## Layout

- `src/` is the verified library.
  - `text`, `number`, `casing`, `table`: characters, decimal numbers, upper and lower case, tables
    by text key.
  - `config`, `hosts`: the configuration and the changes to it.
  - `listing`, `monitor`: reading what `mstsc /l` lists, and finding the monitor that a definition
    means.
  - `profile`, `detect`: the monitor numbers of a profile, and definitions for connected monitors.
  - `decode`, `rdp`, `launch_file`: the text of a `.rdp` file, what it says, and the copy for a
    launch.
  - `session`, `relocate`: open sessions, and moving a session to another monitor.
  - `connect`, `placement`: checking and planning a connection, and the launcher's own window.
- `app/` is the program around it: files, processes, Win32 calls and the window.
- `tests/` runs the library.

Calls into other crates and the parts of the standard library without a specification stand behind
declarations whose doc comments say what is taken on trust: `casing`, `config`, `decode` and
`String::push` in `text`.
