//! Numeric tower and primitive text constructors of a Lisp-style runtime.
//!
//! A number is a machine integer, an IEEE-754 double or an arbitrary-precision
//! integer. The procedures of this crate add, subtract, multiply, divide and
//! compare such numbers across the three variants, narrow a number to the
//! smallest integer variant that holds it, and build text and byte buffers
//! from integers. Each is stated over a mathematical model and proved.
//!
//! Choices that the contracts rest on:
//!
//! - A double is held as its 64-bit pattern. Its classification, its order,
//!   its conversion from and to integers are worked out on the pattern and
//!   proved against the value that the pattern denotes (`double`, `convert`,
//!   `nearest`). The five arithmetic operations on doubles are those of a
//!   software implementation of IEEE-754 (`float_ops`).
//! - Arithmetic on machine integers wraps at 64 bits. A result is never
//!   widened behind the caller's back: the variant of a result is always the
//!   one that the promotion table gives (`number::arith`).
//! - An integer division or remainder by an integer zero is a failure that
//!   the caller gets back, and so is the narrowing of an infinity or a NaN.
//! - Two numbers of which one is a double are equal when they lie at most
//!   two units in the last place apart.
pub mod error;
pub mod double;
pub mod convert;
pub mod integer;
pub mod bigint;
pub mod float_ops;
pub mod number;
pub mod order;
pub mod arith;
pub mod character;
pub mod nearest;
pub mod laws;
