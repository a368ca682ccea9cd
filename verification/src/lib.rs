//! Voxel- and mesh-level numeric kernels for an interactive segmentation and
//! 3-D reconstruction tool: region growing over 3-D scalar volumes, hole
//! filling by connected-component size, ray-casting projections, a
//! view-aligned mask cut, and the topology side of context-aware mesh
//! smoothing.
//!
//! Volumes are dense 3-D arrays with axis order `(z, y, x)`; every kernel
//! states in its contract exactly which cells it writes and what each cell
//! holds afterwards.

pub mod floodfill;
pub mod grid;
pub mod mask_cut;
pub mod mesh;
pub mod mips;
pub mod traverse;
