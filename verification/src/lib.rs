//! A directory tree that is filtered as the user types.
//!
//! A listing of path names becomes a tree of nodes (`path`, `order`,
//! `link`, `tree`). A query shows the nodes whose path names hold its
//! patterns, with their ancestors, and highlights the patterns in the names
//! (`patterns`, `highlight`, `matching`). The part of the tree that is shown
//! and open is laid out in lines (`display`) and seen through a window
//! with a query line (`tui`, `term`). `session` says what each key does,
//! `args` reads the settings, and `laws` holds what is true of all of it.

pub mod args;
pub mod display;
pub mod highlight;
pub mod laws;
pub mod link;
pub mod matching;
pub mod order;
pub mod path;
pub mod patterns;
pub mod session;
pub mod term;
pub mod text;
pub mod tree;
pub mod tui;
