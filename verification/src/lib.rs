//! Core logic of a tiling terminal dashboard: the pane layout tree and its
//! navigation, the terminal theme model with its Kitty and Alacritty readers,
//! and the environment handed to spawned shells.

pub mod config;
pub mod layout;
pub mod runtime_env;
pub mod text;
pub mod toml_doc;
