//! Arbitrary-precision decimal calculator: an exact decimal value type, the
//! operations of the calculator over it, and the text form of its values.

pub mod decimal;
pub mod ops;
pub mod text;
pub mod laws;
