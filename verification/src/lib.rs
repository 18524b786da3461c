//! The core of a language server for Nix.

pub mod answers;
pub mod binding;
pub mod change;
pub mod diagnostics;
pub mod document;
pub mod layout;
pub mod links;
pub mod position;
pub mod protocol;
pub mod rename;
pub mod scope;
pub mod server;
pub mod syntax;
pub mod text;
pub mod tree;
pub mod utf16;
