//! The core of a language server whose symbols come from a database.
#![allow(unused_imports)]

pub use crate::config::{resolve_path, Config};
use vstd::prelude::*;

pub mod config;
pub mod documents;
pub mod error;
pub mod fuzzy;
pub mod gather;
pub mod ident;
pub mod located;
pub mod lookup;
pub mod occurrences;
pub mod paths;
pub mod protocol;
pub mod references;
pub mod requests;
pub mod rope;
pub mod search;
pub mod server;
pub mod sort;
pub mod state;
pub mod symbols;
pub mod text;
pub mod tokens;

verus! {

} // verus!
