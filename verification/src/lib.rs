//! An arithmetic expression engine.
//!
//! An infix expression arrives as a single string whose tokens — numeric
//! literals, the binary operators `+ - * / ^`, and parentheses — are
//! separated by whitespace.  A shunting-yard pass turns the token sequence
//! into postfix (reverse Polish) order, and a stack machine evaluates the
//! postfix sequence.  Numbers are IEEE-754 single-precision values carried
//! as their 32-bit encodings; the arithmetic itself is supplied by the
//! caller, so the engine's own logic stays fully verified.

pub mod convert;
pub mod eval;
pub mod parser;
pub mod tokens;
