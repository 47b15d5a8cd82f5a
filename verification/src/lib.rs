//! A minimal prototype-based classifier for small fixed-size binary images.
//!
//! The engine keeps one integer accumulator matrix ("prototype") per label.
//! Teaching folds a bipolar-normalized sample into a label's prototype;
//! guessing scores a sample against every prototype and reports the best
//! match together with the ingredients of a confidence ratio.  The whole
//! engine state can be encoded to a byte stream and restored from it.

pub mod codec;
pub mod engine;
pub mod laws;
pub mod matrix;
