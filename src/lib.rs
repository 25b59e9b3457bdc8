//! Codec, parser and evaluator for a small expression language sent as a
//! line of printable ASCII words.
pub mod bigint;
pub mod codec;
pub mod error;
pub mod eval;
pub mod lexer;
pub mod parser;
pub mod token;

pub use bigint::BigInt;
pub use codec::{decode_payload, encode_integer, encode_string};
pub use error::WireError;
pub use eval::{eval, eval_with_depth, MAX_EVAL_DEPTH};
pub use lexer::split_words;
pub use parser::{parse, parse_string};
pub use token::{BinaryOp, Token, UnaryOp};
