//! Dataset preparation for image classification: from a directory of class
//! folders to a reproducible, class-balanced stream of labeled batches.
//!
//! - [`sampler`] draws a fixed number of image files from each class.
//! - [`splitter`] shuffles the sample once and cuts it into training, test
//!   and validation subsets.
//! - [`batch_sizer`] picks, for an evaluation subset, the largest batch size
//!   within a ceiling that divides the subset evenly.
//! - [`generator`] hands out, epoch after epoch, the files of each batch with
//!   the indices of their classes, which [`class_index`] assigns.
//! - [`loader`] and [`pixels`] decode the files of a batch, resize them and
//!   deliver them in the colour mode asked for.
//! - [`random`] holds the one source of randomness, a seeded draw of
//!   positions; [`order`] and [`text`] hold the order of labels.
//! - [`laws`] states what holds across these stages.
//!
//! The library reads no files. Its callers list directories and read file
//! contents, and hand both over as plain values.

pub mod batch_sizer;
pub mod class_index;
pub mod generator;
pub mod laws;
pub mod loader;
pub mod model;
pub mod order;
pub mod pixels;
pub mod random;
pub mod sampler;
pub mod splitter;
pub mod text;
