//! Propagation of cortical labels along white-matter streamlines.
//!
//! A volume of anatomical labels and a set of streamlines go in; out comes,
//! for every white-matter voxel that a labelled streamline passes through,
//! the cortical label that its streamlines and its neighbours speak for.
//!
//! * [`nifti`] decodes and encodes the volume: a fixed header and a dense
//!   grid of single-precision elements.
//! * [`trackvis`] decodes and encodes the streamlines: a fixed header and
//!   records of points, converted between millimetres and voxels.
//! * [`propagate`] leaves each streamline's label along its points, lets
//!   every voxel choose among the labels it was left, and keeps the choices
//!   of the voxels that may be filled.
//! * [`binary32`] is the single-precision arithmetic that the other modules
//!   share, on bit patterns; [`wire`] is the byte layout of the fields.
//!
//! The library takes and gives bytes and values; reading and writing files
//! is left to its callers.
pub mod binary32;
pub mod error;
pub mod nifti;
pub mod propagate;
pub mod trackvis;
pub mod wire;
