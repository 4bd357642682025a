//! An integer calculator: a one-pass recursive-descent evaluator for
//! expressions over `+ - * /`, parentheses and unary minus.
//!
//! The scanner and the grammar functions share a cursor over the input
//! characters (`Calculator`). Their meaning is stated by spec functions in
//! `scan` and `semantics`, and every executable step is proved against them.

pub mod token;
pub mod scan;
pub mod semantics;
pub mod calculator;
pub mod laws;
pub mod arithmetic;
