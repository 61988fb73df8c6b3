//! Elementary operations on IEEE-754 binary32 values, carried out on the bit
//! pattern with integer arithmetic alone: classification, comparison and
//! selection, rounding to a whole number, and the arithmetic that the
//! standard defines exactly: sum, difference, product, quotient, fused
//! multiply-add and square root, each rounded once to nearest, ties to even.
//! No floating-point unit or math library is called.
//!
//! Every operation is stated against [`value::Value`], the mathematical value
//! that a bit pattern stands for, and [`round::nearest`], the rounding of an
//! exact fraction. The powers of a whole exponent, the conversion to degrees
//! and the inverse hyperbolic functions up to their logarithm are built from
//! these. The exponential and the logarithms themselves have no exact
//! result; for them [`strategy`] names the way in which a target computes
//! them, and [`double`] holds the way out to binary64 and back.
pub mod value;
pub mod repr;
pub mod order;
pub mod integral;
pub mod round;
pub mod arith;
pub mod root;
pub mod sum;
pub mod double;
pub mod derived;
pub mod identities;
pub mod strategy;
