//! Generating and patching `.gitignore` files from template repositories:
//! the verified core of the `git-ignore` tool.

pub mod action;
pub mod args;
pub mod config;
pub mod defs;
pub mod error;
pub mod hash;
pub mod index;
pub mod order;
pub mod patch;
pub mod patch_laws;
pub mod result;
pub mod roundtrip;
pub mod state;
pub mod sync;
pub mod text;

pub use args::GitIgnoreArgs;
pub use config::{Config, TemplateSource};
