//! Verified core of a terminal statusline for coding-agent panes.
use vstd::prelude::*;

pub mod cli;
pub mod text;
pub mod state;
pub mod json;
pub mod render;
pub mod paths;
pub mod reap;
