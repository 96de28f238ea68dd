//! Arithmetic for binary finite fields GF(2^p).
//!
//! Given a field degree `p` and optionally an explicit irreducible modulus,
//! the crate resolves a concrete field definition (modulus and generator) and
//! precomputes lookup tables that turn field multiplication and inversion into
//! table lookups plus XOR folding. Field elements are the residues of GF(2)[x]
//! polynomials modulo an irreducible polynomial of degree `p`, encoded as the
//! bits of an unsigned integer.

pub mod poly;
pub mod repr;
mod g2;
pub mod resolve;
pub mod chunk;
pub mod tables;
pub mod field;
pub mod laws;

pub use resolve::ConstructionError;
pub use resolve::FieldSpec;
pub use resolve::resolve;
pub use field::ArithmeticError;
pub use field::Field;
pub use chunk::ceil_log256;
