//! A verified SubRip (`.srt`) subtitle library: a line-oriented parser that
//! turns subtitle text into a structured document, exact millisecond timecode
//! arithmetic, and serializers that emit the document as SubRip text or as a
//! sequence of styled paragraph descriptors.

pub mod digits;
pub mod errors;
pub mod lines;
pub mod timecode;
pub mod parser;
pub mod document;
pub mod rich;
pub mod laws;
