# qmkonnect

Tells a QMK keyboard which window is focused so it can switch layers. This
crate is the verified core; `app/` holds the I/O around it.

- `src/pattern.rs` — the window-rule glob matcher: escape processing, anchor
  parsing, NFA compilation and simulation, proved against a declarative
  matching semantics.
- `src/hid_id.rs` — recognises a QMK Raw HID interface from its HID report
  descriptor; builds the sysfs path of a hidraw node.
- `src/notifier.rs` — device filters and classification, the per-path
  classification cache, the host-rules capability handshake as a state
  machine, presence tracking, debouncing and send/retry decisions.
- `src/config.rs` — the `config.toml` model, the renderers of the seeded and
  saved files, and the (path, mtime, size) cache.
- `src/errors.rs` — error types, their codes, and the logging context.
- `src/keyed.rs`, `src/text.rs` — a string-keyed map and integer rendering.
- `app/` — the `qmkonnect-hid-id` udev helper, config-file I/O, HID
  enumeration, the keyboard transport, and the threads that run the
  library's decisions.
