use vstd::prelude::*;

verus! {

/// Mathematical image of a `TokError`, with byte payloads as sequences.
pub enum SpecErr {
    /// A non-blank vocabulary line does not hold exactly two fields.
    LineFormat(Seq<u8>),
    /// The first field of a vocabulary line is not valid base-64.
    BadBase64(Seq<u8>),
    /// The second field of a vocabulary line is not a valid rank integer.
    BadRank(Seq<u8>),
    /// The split pattern does not compile to a usable matcher.
    Pattern,
    /// The matcher failed while splitting a text.
    Split,
    /// A residual byte sequence of a chunk has no vocabulary entry.
    Piece(Seq<u8>),
    /// A token id has no vocabulary entry.
    Token(u32),
    /// Decoded bytes are not valid text.
    Text,
}

/// Every recoverable failure of the engine. Boundary layers turn these into
/// retrievable error descriptions; the engine itself never holds error state.
#[derive(Debug, PartialEq, Eq)]
pub enum TokError {
    /// A non-blank vocabulary line does not hold exactly two
    /// whitespace-separated fields; carries the offending line.
    VocabLineFormat { line: Vec<u8> },
    /// The first field of a vocabulary line is not valid base-64; carries the
    /// offending line.
    VocabBadBase64 { line: Vec<u8> },
    /// The second field of a vocabulary line is not a valid non-negative
    /// integer that fits a rank; carries the offending line.
    VocabBadRank { line: Vec<u8> },
    /// The split pattern does not compile to a usable matcher.
    PatternInvalid,
    /// The matcher failed while splitting a text.
    SplitFailed,
    /// A chunk reduced to a byte sequence absent from the vocabulary; carries
    /// that byte sequence.
    UnencodablePiece { piece: Vec<u8> },
    /// A token id with no vocabulary entry was handed to decoding.
    UnknownToken { token: u32 },
    /// The bytes of a decoded token sequence are not valid text.
    InvalidText,
}

impl View for TokError {
    type V = SpecErr;

    open spec fn view(&self) -> SpecErr {
        match self {
            TokError::VocabLineFormat { line } => SpecErr::LineFormat(line@),
            TokError::VocabBadBase64 { line } => SpecErr::BadBase64(line@),
            TokError::VocabBadRank { line } => SpecErr::BadRank(line@),
            TokError::PatternInvalid => SpecErr::Pattern,
            TokError::SplitFailed => SpecErr::Split,
            TokError::UnencodablePiece { piece } => SpecErr::Piece(piece@),
            TokError::UnknownToken { token } => SpecErr::Token(*token),
            TokError::InvalidText => SpecErr::Text,
        }
    }
}

} // verus!
