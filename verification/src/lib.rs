//! Integer core of a particle fluid solver: the uniform cell grid that the
//! solver sorts its particles into, the neighbour queries on that grid, and
//! the integer lattice of offsets that the rest density is summed over.
//! The floating-point physics around it lives in the application crate.

pub mod counting;
pub mod grid;
pub mod lattice;
