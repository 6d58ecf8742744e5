//! Format tags and the typed errors the converter returns. The library never
//! terminates the process: every failure is surfaced as one of these values.
use vstd::prelude::*;

verus! {

/// A concrete encoding: the binary-compact format or one of the three
/// supported text formats.
#[derive(Debug, Clone, Copy, PartialEq, Eq, Structural)]
pub enum Format {
    Cbor,
    Json,
    Yaml,
    Toml,
}

/// Why a document failed to decode.
#[derive(Debug, PartialEq)]
pub enum DecodeErrorKind {
    /// The stream ended inside a value.
    UnexpectedEnd,
    /// A type byte names a form outside the supported subset: a reserved
    /// argument or simple-value form, a lone break byte, or a non-string
    /// chunk inside an indefinite-length string.
    UnsupportedTypeByte,
    /// An integer lies outside the signed 64-bit range of the value model.
    IntegerOverflow,
    /// A text string is not valid UTF-8.
    InvalidUtf8,
    /// A text-format parser rejected the input; the message carries the
    /// parser's own description, including its positional information.
    Syntax(String),
}

/// A failed decode: the source format, the byte offset at which the decoder
/// stopped (0 for text formats, whose parsers report positions in the
/// message), and why.
#[derive(Debug, PartialEq)]
pub struct DecodeError {
    pub format: Format,
    pub position: usize,
    pub kind: DecodeErrorKind,
}

/// A failed encode: the target format and the encoder's description of the
/// first unrepresentable part, such as a non-text map key.
#[derive(Debug, PartialEq)]
pub struct EncodeError {
    pub format: Format,
    pub message: String,
}

/// Either half of a conversion can fail; the first failure aborts the run.
#[derive(Debug, PartialEq)]
pub enum ConversionError {
    Decode(DecodeError),
    Encode(EncodeError),
}

impl DecodeErrorKind {
    /// The human-readable classification of this failure.
    pub open spec fn spec_message(&self) -> Seq<char> {
        match self {
            DecodeErrorKind::UnexpectedEnd => "unexpected end of input"@,
            DecodeErrorKind::UnsupportedTypeByte => "unsupported type byte"@,
            DecodeErrorKind::IntegerOverflow => "integer out of range"@,
            DecodeErrorKind::InvalidUtf8 => "text is not valid UTF-8"@,
            DecodeErrorKind::Syntax(s) => s@,
        }
    }

    /// Renders the classification.
    pub fn message(&self) -> (r: String)
        ensures
            r@ == self.spec_message(),
    {
        match self {
            DecodeErrorKind::UnexpectedEnd => "unexpected end of input".to_owned(),
            DecodeErrorKind::UnsupportedTypeByte => "unsupported type byte".to_owned(),
            DecodeErrorKind::IntegerOverflow => "integer out of range".to_owned(),
            DecodeErrorKind::InvalidUtf8 => "text is not valid UTF-8".to_owned(),
            DecodeErrorKind::Syntax(s) => s.clone(),
        }
    }
}

} // verus!
