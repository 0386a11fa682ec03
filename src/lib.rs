//! Single-file cargo projects: the descriptor embedded in a script's leading
//! comment, its normalization into a standalone manifest, command resolution
//! and the collection of build artifacts.
use vstd::prelude::*;

pub mod text;
pub mod extract;
pub mod document;
pub mod paths;
pub mod traverse;
pub mod rules;
pub mod manifest;
pub mod args;
pub mod env;
pub mod default_action;
pub mod options;
pub mod artifacts;
pub mod template;
pub mod idempotence;
