//! Conversion of infix regular-expression patterns into postfix (Reverse
//! Polish) token sequences: a tokenizer that scans a pattern string into
//! tokens (inserting the implicit concatenation operator), and a parser that
//! reorders the token sequence into postfix form with an operator stack.

pub mod laws;
pub mod parser;
pub mod token;
pub mod tokenizer;

pub use parser::Parser;
pub use token::Error;
pub use token::Token;
pub use tokenizer::Tokenizer;
