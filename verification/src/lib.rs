//! Symbolic expressions and substitution tables, as requests to a symbolic-algebra engine.
//!
//! An [`Expression`] is a symbolic value, held as the request that yields it: the engine's
//! reading of a text, a numeric literal, or the result of arithmetic, the exponential,
//! differentiation, substitution or numeric evaluation on other expressions. Its model is a
//! [`Term`], and every operation states the term of what it returns. A text that is
//! handed to the engine, an expression's or a symbol's name, holds no NUL character.
//!
//! An [`ExpressionMap`] is a substitution table. It binds symbols to expressions, addressed
//! by keys of any type that names a symbol ([`ExpressionMapKey`]), and keeps an index of
//! its keys in lock-step with the bindings. What is proved of a table is proved for key
//! types that are lawful ([`key::lawful_key`]), as strings are.
//!
//! The engine is not part of this crate. The program that embeds the crate walks the
//! [`Request`] of an expression and carries out each step; for an equality test it hands
//! the engine the two operands of a [`Comparison`] and reads the verdict off the answer,
//! and after reading a text it asks [`Expression::was_read`] whether the engine could.
//! The laws that hold across the operations stand in [`laws`].

mod bindings;
pub mod expr;
pub mod key;
pub mod laws;
pub mod map;

pub use expr::{
    Atomic, BinaryOperator, Binding, Comparison, Expression, Literal, Request, Symbol, Term,
    UnaryOp, UnaryOperator,
};
pub use key::ExpressionMapKey;
pub use map::ExpressionMap;
