//! Error types for parsing and document construction.

use vstd::prelude::*;

verus! {

/// Mathematical model of an error: the kind, the clip (block) index where it
/// arose, and the offending text, without the executable representation.
#[verifier::ext_equal]
pub ghost enum ErrModel {
    /// A timecode string does not match the grammar; carries the offending text.
    Timecode { text: Seq<u8> },
    /// A clip has no line matching the time-range grammar; carries the clip
    /// index and the line that was expected to be a time range.
    Header { clip: nat, text: Seq<u8> },
    /// A clip's time-range line is not followed by any content line.
    Clip { clip: nat },
    /// Converting a parsed clip record into an entry failed; carries the index
    /// of the failing clip and the underlying error.
    Build { clip: nat, cause: Box<ErrModel> },
}

/// An error from parsing subtitle text or building a document from it.
#[derive(Debug)]
pub enum SrtError {
    /// A timecode string does not match `H+:MM:SS,mmm`; carries the text.
    MalformedTimecode { text: Vec<u8> },
    /// A clip's structural grammar is violated: the line that should hold the
    /// time range does not; carries the clip index and that line's text.
    MalformedHeader { clip: usize, text: Vec<u8> },
    /// A clip has a header but no content line; carries the clip index.
    MalformedClip { clip: usize },
    /// Building the document from parsed records failed on one clip; wraps the
    /// underlying error and carries the index of the failing clip.
    DocumentBuildFailed { clip: usize, cause: Box<SrtError> },
}

/// The model that an `SrtError` value stands for.
pub open spec fn err_model(e: SrtError) -> ErrModel
    decreases e,
{
    match e {
        SrtError::MalformedTimecode { text } => ErrModel::Timecode { text: text@ },
        SrtError::MalformedHeader { clip, text } => ErrModel::Header {
            clip: clip as nat,
            text: text@,
        },
        SrtError::MalformedClip { clip } => ErrModel::Clip { clip: clip as nat },
        SrtError::DocumentBuildFailed { clip, cause } => ErrModel::Build {
            clip: clip as nat,
            cause: Box::new(err_model(*cause)),
        },
    }
}

impl View for SrtError {
    type V = ErrModel;

    open spec fn view(&self) -> ErrModel {
        err_model(*self)
    }
}

} // verus!
