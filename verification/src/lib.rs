//! Random sampling of connected polycubes of a fixed size on the cubic
//! lattice, by local moves that keep the body in one piece.

pub mod bounds;
pub mod cells;
pub mod connectivity;
pub mod decimal;
pub mod format;
pub mod lattice;
pub mod neighbors;
pub mod oracles;
pub mod polycube;
pub mod sampler;
