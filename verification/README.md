# linux-cmd-dashboard

A tiling terminal window for Linux (GTK4, libadwaita, VTE), whose logic is a
library verified with Verus.

- `src/layout.rs`: the recursive tiling of panes: split, close, focus, move,
  resize, the rectangles of the panes and the neighbor of a pane.
- `src/config.rs`: the settings model and the theme readers for Kitty
  (`kitty.conf` text) and Alacritty (TOML text), and the rules
  that pick the theme in use.
- `src/runtime_env.rs`: the environment handed to the shells of new panes,
  without the AppImage wrapper's own state.
- `src/toml_doc.rs`: the one call into the `toml` crate, which reads TOML
  text into the library's `TomlValue`.
- `src/text.rs`: the character-level helpers the readers are built from.
- `app/`: the window, file and process I/O, and the serde form of the settings.

Split ratios are fixed-point numbers in thousandths and opacities in
billionths; pane rectangles are measured in units of which the workspace
spans `10^35`.
