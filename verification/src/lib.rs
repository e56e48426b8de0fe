//! Compiler front end for a small indentation-sensitive expression language:
//! an off-side-rule lexer that synthesizes `INDENT`/`DEDENT` tokens, a Pratt
//! (precedence-climbing) parser that builds a typed syntax tree, and a
//! renderer that prints the tree in Graphviz DOT form.

pub mod ast;
pub mod lexer;
pub mod parser;
pub mod visualizer;
pub mod token;

pub use ast::AstNode;
pub use ast::NodeType;
pub use ast::Precedence;
pub use lexer::LexError;
pub use lexer::Lexer;
pub use parser::ParseError;
pub use parser::Parser;
pub use token::Token;
pub use token::TokenType;
pub use visualizer::Visualizer;
