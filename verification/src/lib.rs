//! Matrix representations of finite-dimensional Lie algebras and their
//! structure constants.
//!
//! The crate builds several orthogonal bases of complex matrices spanning
//! su(d)-type algebras — generalized Gell-Mann matrices, the clock-and-shift
//! (Sylvester) basis, spin operators and spherical tensor operators — and
//! recovers the sparse structure-constant table of any such basis by a
//! least-squares decomposition. A bracket algebra then reconstructs
//! commutator and anticommutator products from the sparse table.

pub mod complex;
pub mod matrix;
pub mod table;
pub mod lie_algebra;
pub mod gellmann;
pub mod su2;
pub mod spherical;
pub mod sylvester;
