//! Building blocks of a one-dimensional finite-difference wave simulation:
//! the square-pulse initial state, the explicit time step with its boundary
//! rule, the space-time history of a run, and the names of the frames that
//! are drawn from it.

pub mod profile;
pub mod scheme;
pub mod frames;
