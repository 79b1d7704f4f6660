//! Exact linear algebra on rectangular integer matrices: transpose, scalar and
//! matrix products, minors, determinants by Laplace expansion, cofactors,
//! adjugates and inverses, with every operation verified against a
//! mathematical model.
pub mod laws;
pub mod matrix;
pub mod model;
pub mod sums;
pub mod text;
