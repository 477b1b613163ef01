//! A dependency-light JSON reader: a lexer that turns raw text into a flat
//! sequence of spanned tokens, and a recursive-descent parser that consumes
//! that sequence and builds a tagged value tree.
//!
//! Text flows one way: source text -> tokens -> value tree.  Every stage is
//! specified against a mathematical model of the grammar and verified.

pub mod common;
pub mod error;
pub mod parser;
pub mod token;
pub mod value;

pub use common::match_text;
pub use common::match_token;
pub use error::JError;
pub use parser::parse_array;
pub use parser::parse_boolean;
pub use parser::parse_null;
pub use parser::parse_number;
pub use parser::parse_obj;
pub use parser::parse_string;
pub use parser::parse_value;
pub use token::JsonLexer;
pub use token::JsonToken;
pub use token::JsonTokenKind;
pub use token::tokenize;
pub use value::JsonExpr;
pub use value::JsonObject;
