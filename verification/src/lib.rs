//! A keyed, multi-language store of message templates with named
//! placeholders, and the single-pass substitution that fills them in.

pub mod error;
pub mod laws;
pub mod matcher;
pub mod model;
pub mod registry;
pub mod small_str;
pub mod substitution;
pub mod text_order;

pub use crate::error::Error;
pub use crate::registry::LanguageId;
pub use crate::registry::Translator;
pub use crate::substitution::substitute;
