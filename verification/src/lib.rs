//! Finds the nearest bracket or quote pair around each selection of an
//! editor buffer, and swaps, removes, changes or selects it.
use vstd::prelude::*;

pub mod editor;
pub mod pairs;
pub mod text;
pub mod unicode;
pub mod brackets;
pub mod quotes;
pub mod edits;
pub mod commands;
pub mod laws;
pub mod search_laws;
