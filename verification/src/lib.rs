//! Checkerboard and face tracking logic: rectangle geometry, the selection of
//! checkerboard squares, the clustering of adjacent squares, the tracker's
//! state machine and the binary remap-table file formats.
pub mod geometry;
pub mod detect;
pub mod load;
pub mod track;
