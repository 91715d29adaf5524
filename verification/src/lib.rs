//! A selection-and-layout engine for stitching images: it picks recently
//! created (or alphabetically ordered) image files out of a directory
//! listing, decides the output format and a collision-free output name,
//! plans a row, column or near-square-grid placement of the decoded images
//! under optional size bounds, and composites them onto one canvas.
//!
//! Everything here works on plain values: directory listings arrive as
//! names and timestamps, images as pixel buffers with their sizes. Reading
//! the file system, decoding and encoding image files, and the command line
//! belong to the surrounding program.

pub mod enums;
pub mod options;
pub mod files;
pub mod layout;
pub mod image_set;
pub mod run;
