//! A fixed-point, bounded-precision decimal arithmetic engine together with
//! the lexer, recursive-descent parser and tree evaluator that drive it.
//!
//! Values are sign-magnitude sequences of decimal digits with a fixed
//! fractional and integer width.  Every arithmetic operation is digit-exact;
//! overflow and division by zero are reported as values, never as panics.

pub mod big_dec;
pub mod digits;
pub mod eval;
pub mod funcs;
pub mod num_val;
pub mod text_canvas;
pub mod token;
