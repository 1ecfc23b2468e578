//! Core of a modal terminal text editor: key-sequence resolution through a
//! per-mode trie, a cursor and viewport model with sticky-column vertical
//! navigation, line-buffer editing, and the pure computations behind file
//! round-trips and screen rendering.

pub mod action;
pub mod command;
pub mod display;
pub mod editor;
pub mod keybinds;
pub mod keymap;
pub mod keyparse;
pub mod keys;
pub mod render;
pub mod rope;
pub mod text;
