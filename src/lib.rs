//! Two-level bounding-volume hierarchy construction over integer coordinates:
//! a bottom level over the triangles of one mesh and a top level over mesh
//! instances, both built by a binned surface-area-heuristic split search.
//!
//! Coordinates are fixed-point integers, so that every split decision and every
//! bound is exact; callers quantise their positions onto the grid (rounding
//! bounds outward) before building.
pub mod geometry;
pub mod node;
pub mod partition;
pub mod split;
pub mod builder;
pub mod blas;
pub mod tlas;
