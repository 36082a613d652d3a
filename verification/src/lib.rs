//! Morse complexes of scalar functions on graphs: a partition of the vertices
//! into the basins of the extrema, the persistence of each extremum, and the
//! filtration that merges the extrema from the least to the most persistent.

pub mod ordering;
pub mod pointed_union_find;
pub mod model;
pub mod morse;
pub mod laws;
