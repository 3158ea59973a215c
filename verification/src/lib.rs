//! The logic of moet, a terminal emulator with a directory listing pane.

pub mod text;
pub mod paths;
pub mod shell_inject;
pub mod classify;
pub mod config;
pub mod state;
pub mod handlers;
pub mod startup;
pub mod ipc;
pub mod listing;
pub mod menu;
pub mod cli;
pub mod watcher;
pub mod input;
