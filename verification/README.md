# jterm1

The logic of a terminal emulator, written in Verus: every function of the
library has a contract, and the contracts are proved. What is believed without
proof is what the library calls outside itself:

- `src/text.rs`: assumed specifications of `String::push` and
  `String::push_str`; wrappers around `core::str::from_utf8`,
  `String::from_utf8_lossy`, `str::to_lowercase` and `memchr::memchr`.
- `src/json.rs`: wrappers around `serde_json` that read a field of a document,
  tell why a text is no document, and quote a text.
- `src/terminal/grid.rs`: wrappers around `unicode_width`, `unicode_bidi` and
  `unicode_bidi_mirroring`.
- `src/terminal/select.rs`: a wrapper around `regex`.
- `src/palette.rs`: a wrapper around `fuzzy_matcher`.

Each says in its comment what is believed of the outside function.

How the library is laid out:

- `src/parser.rs` reads the byte stream of a shell: text, prompt marks, working
  directories, clipboard and graphics sequences, terminal modes.
- `src/terminal/` replays recorded output on a grid, reads styled text, finds
  links and tokens, assembles inline images, cleans up what pagers leave, and
  decides how a pane starts.
- `src/workspace/` is the window as a value: tabs, trees of panes, what is asked
  of them and what is to be done in turn, snapshots and their way back.
- `src/palette.rs`, `src/workflows.rs`, `src/dialogs.rs`, `src/file_tree.rs`,
  `src/theme.rs` hold what the palette, the workflows, the dialogs, the file
  browser and the style sheet decide.
- `src/agent.rs`, `src/agent_panel.rs`, `src/ai.rs` hold the agent's protocol,
  its safety checks, and the requests to a model.
- `src/process.rs`, `src/paths.rs`, `src/session.rs` hold what is known of
  processes, paths and saved sessions.
- `src/text.rs`, `src/order.rs`, `src/base64.rs`, `src/json.rs` are the ground
  that the rest stands on.

`app/` is the program around it: the widgets, files, processes and requests.
