# nexacore_ui

The logic of the NexaCore desktop, written in Rust and proved with Verus.

- `src/` is the library. Messages and their encoding (`ai`, `config`, `display_channel`,
  `display_protocol`, `fs_service`, `wire`), the shell (`launcher`, `dock`, `chrome`,
  `notification`, `session`, `settings`, `display_settings`, `status_bar`, `chat`, `ai_actions`),
  input and data exchange (`shortcuts`, `clipboard`, `edit`, `dnd`, `cursor`), painting (`canvas`,
  `paint`, `text`, `material`, `icon`, `scale`), accessibility (`a11y`), localisation (`i18n`), and
  the decisions of the demo daemon (`demo`).
- `tests/` runs the library on concrete values.
- `app/` is the ordinary Rust around it: the daemon with its system calls and heap, icon and text
  rasterisation in floating point, and `std` errors.

Public proof functions named `law_*` state what holds of several functions together, such as that a
message is read back from its encoding, that painting never leaves the canvas, or that a locked
session opens only after authentication.

The library trusts `font8x8` for the glyph bitmaps and a few functions of `std` on strings; each has
its contract in `src/text.rs` or `src/strings.rs`.
