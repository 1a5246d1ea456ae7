//! Toolkit for the CIRCUS visual-novel asset formats.
//!
//! Two container formats are handled:
//! - CRX: a compressed raster image with a per-row predictor codec wrapping
//!   a deflate or Zstandard payload.
//! - PCK: a flat archive of named sub-files with a duplicated, fixed-size
//!   index block that can grow mid-write.
//!
//! The library works over in-memory byte buffers; file and directory
//! handling lives with the callers.

pub mod args;
pub mod crx;
pub mod ext;
pub mod pck;
pub mod utils;
