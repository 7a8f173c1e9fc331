//! Polynomial arithmetic over a prime-order finite field, the building block
//! of threshold schemes: random polynomials, evaluation at a field point, and
//! the Lagrange basis at zero used to reconstruct a shared value.

pub mod field;
pub mod polynomial;
