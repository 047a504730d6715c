//! BML markup language: an indentation-sensitive, simplified XML used as a
//! static database format.
//!
//! A text is parsed into a tree of nodes, [`BmlNode`], and a tree is rendered
//! back into text. Elements nest by their indent and carry data lines and
//! attributes:
//!
//! ```text
//! server
//!   path: /core/www/
//!   proxy host="proxy.example.com" port="8080"
//!     authentication: plain
//!   description
//!     :Primary web-facing server
//!     :Provides commerce-related functionality
//! ```
//!
//! The [`grammar`] says which texts are BML. The [`parser`] finds the
//! productions of a text, the [`builder`] makes a tree of them, and [`render`]
//! gives the text of a tree. The [`laws`] relate them: the text of a tree that
//! was read reads as that tree again.

pub mod builder;
pub mod building;
pub mod canon;
pub mod error;
pub mod grammar;
pub mod indent;
pub mod index;
pub mod laws;
pub mod node;
pub mod pair;
pub mod parser;
pub mod parsing;
pub mod reading;
pub mod render;
pub mod text;

pub use error::BmlError;
pub use indent::BmlIndent;
pub use node::{BmlKind, BmlNode};
pub use pair::{BmlPair, Rule};
pub use parser::BmlParser;
