//! Data model and text processing for gliphoread recipe-page annotations.
//!
//! - `model`: semantic roles, word annotations and page annotations.
//! - `tsv`: reading the word rows of Tesseract's TSV output.
//! - `annotate`: naming the output of the annotation command.
//! - `labeler`: the state of the labeling tool and the decisions it takes.
//! - `stdlib`: the std calls the library takes on trust.

pub mod annotate;
pub mod labeler;
pub mod model;
pub mod stdlib;
pub mod tsv;
