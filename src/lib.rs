//! A small stack language: integer literals, eight built-in words and
//! user definitions that capture the bodies of the words they name.
pub mod op;
pub mod token;
pub mod forth;
pub mod laws;

pub use forth::{Forth, WordReadState};
pub use op::{Error, Instr, Op, Prim, Value};
pub use token::TokenType;
