//! A restartable byte scanner that pulls utility-class candidates out of
//! arbitrary source text.

pub mod brackets;
pub mod collect;
pub mod extractor;
pub mod laws;
pub mod validate;

pub use extractor::{Bracketing, Extractor, ExtractorOptions, ParseAction, SplitCandidate};
pub use validate::modifier_after_property;
