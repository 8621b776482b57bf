//! A small text-templating engine: templates with `{{tags}}` are compiled to
//! tokens, parsed into a tree of nodes and rendered against structured data.
//!
//! ```text
//! template text --compile--> tokens --parse--> nodes --render--> output
//! ```
//!
//! Each step has a mathematical counterpart on sequences of characters, and
//! each function is proved to compute it.

pub mod builder;
pub mod compiler;
pub mod data;
pub mod entries;
pub mod error;
pub mod laws;
pub mod loader;
pub mod parser;
pub mod template;
pub mod text;

pub use crate::builder::{HashBuilder, VecBuilder};
pub use crate::compiler::{compile, compile_with, TagKind, Token};
pub use crate::data::Data;
pub use crate::error::Error;
pub use crate::loader::Loader;
pub use crate::parser::{parse, Node};
pub use crate::template::{render, render_text, render_within, Partials};
