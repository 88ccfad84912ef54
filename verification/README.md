# logfilter

The logic of a viewer for device logs, written in Verus: every executable
function has a contract, and Verus proves it.

- `src/` is the library. `parser` reads the formats of `logcat` and `hilog`,
  `model` holds the log, `filter` and `refilter` decide which lines are shown,
  `highlight` marks terms, `selection`, `indicator` and `ui` move through the
  table, `io`, `bytes` and `lines` decode files that grow while they are read,
  `adb` and `transport` talk about devices, and `config`, `properties` and
  `import` are the settings. `app` and `actions` tie these together.
- `app/` is the program around it: the window, the threads, the files, the child
  processes and the settings file.
- `tests/` runs the library.

Calls into other crates and into parts of the standard library stand behind small
wrappers. What a wrapper claims of the function that it calls is not proved; the
comment above it says what that is.
