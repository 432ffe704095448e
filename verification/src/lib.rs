//! A metrics-push agent's core: the exposition-line encoder, the tokenizer
//! that reads the same format back, and the push scheduler's decisions.

pub mod chars;
pub mod decimal;
pub mod decoder;
pub mod encoder;
pub mod lexer;
pub mod pusher;
pub mod roundtrip;
pub mod scan;
pub mod strings;
pub mod token;
