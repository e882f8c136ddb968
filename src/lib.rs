//! A template engine: templates are parsed into nodes, which are rendered
//! against a tree of values. Conditions, loops, includes of partials and a
//! content slot are the directives.

mod text;
mod path;
pub mod number;
pub mod value;
pub mod nodes;
pub mod expr;
pub mod parser;
pub mod engine;
pub mod keys;
pub mod templates;
pub mod laws;

pub use engine::{ContextStack, render_nodes};
pub use nodes::{CompareOp, Condition, ForLoop, If, Include, LocalValue, Node, Operand};
pub use keys::{Component, derive_base_dir, diff_paths, normalize_key};
pub use number::Number;
pub use parser::parse_template;
pub use templates::Templates;
pub use value::Value;
