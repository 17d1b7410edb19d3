//! Incremental XML parsing and tree construction.
//!
//! Raw text chunks are fed to a [`Parser`], which produces lexical events;
//! an [`ElementBuilder`] consumes those events, resolves namespace prefixes,
//! and yields completed [`Element`] trees.  A finished tree can be rendered
//! back to XML text or converted to a schema-less [`Value`] with heuristic
//! type guessing over attribute and text content.

pub mod element;
pub mod element_builder;
pub mod laws;
pub mod lexical;
pub mod parser;
pub mod render;
pub mod text;
pub mod value;

pub use element::Element;
pub use element::Xml;
pub use text::escape;
pub use value::map_collect;
pub use value::type_guess;
pub use value::type_guess_val;
pub use value::Value;
pub use parser::Event;
pub use parser::ParseError;
pub use parser::Parser;
pub use parser::Position;
pub use element_builder::BuilderError;
pub use element_builder::ElementBuilder;
