//! A lossless CSS tokenizer and concrete syntax tree.
//!
//! Source text is split into contiguous tokens whose contents, concatenated,
//! reproduce the input byte for byte; a tree built from those tokens keeps the
//! same guarantee and supports structural edits that remove exactly the bytes
//! of the detached subtree.

pub mod input;
pub mod parser;
pub mod plugins;
pub mod scan;
pub mod tokenizer;
pub mod tokens;
pub mod tree;

pub use input::Input;
pub use parser::ParseError;
pub use parser::Parser;
pub use scan::LexErrorKind;
pub use tokenizer::Tokenizer;
pub use tokenizer::TokenizerError;
pub use tokenizer::tokenize;
pub use tokens::Token;
pub use tokens::TokenControlKind;
pub use tree::Element;
pub use tree::NodeKind;
pub use tree::SyntaxNode;
