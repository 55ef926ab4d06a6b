//! Verified integer core of a Firth-penalised Cox regression engine: the
//! column-major storage of design matrices, the packing of risk-set moments,
//! the compaction of repeated design rows, the grouping of tied Breslow
//! events, and the layout of the native input arrays.

pub mod breslow;
pub mod conversion;
pub mod fit;
pub mod layout;
pub mod likelihood;
pub mod matrix;
pub mod moments;
pub mod packed;
pub mod patterns;
