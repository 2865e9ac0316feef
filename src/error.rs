//! The ways in which one occurrence of the structured header can fail to
//! parse.
use vstd::prelude::*;

verus! {

/// Why one occurrence of the `Forwarded` header, one of its stanzas or one
/// of its identifiers could not be parsed.
#[derive(Clone, Debug, PartialEq, Eq)]
pub enum ForwardedHeaderValueParseError {
    /// The occurrence holds no non-empty stanza.
    HeaderIsEmpty,
    /// A part of a stanza has no `=`; it holds that part.
    InvalidPart(String),
    /// A `proto` field names neither `http` nor `https`.
    InvalidProtocol,
    /// A bracketed identifier does not hold an IP address.
    InvalidAddress,
    /// An identifier matches none of the allowed forms; it holds the
    /// identifier after trimming and unquoting.
    InvalidObfuscatedNode(String),
}

/// The mathematical value of a [`ForwardedHeaderValueParseError`].
pub enum ParseErrorView {
    HeaderIsEmpty,
    InvalidPart(Seq<char>),
    InvalidProtocol,
    InvalidAddress,
    InvalidObfuscatedNode(Seq<char>),
}

impl View for ForwardedHeaderValueParseError {
    type V = ParseErrorView;

    open spec fn view(&self) -> ParseErrorView {
        match self {
            ForwardedHeaderValueParseError::HeaderIsEmpty => ParseErrorView::HeaderIsEmpty,
            ForwardedHeaderValueParseError::InvalidPart(s) => ParseErrorView::InvalidPart(s@),
            ForwardedHeaderValueParseError::InvalidProtocol => ParseErrorView::InvalidProtocol,
            ForwardedHeaderValueParseError::InvalidAddress => ParseErrorView::InvalidAddress,
            ForwardedHeaderValueParseError::InvalidObfuscatedNode(s) => {
                ParseErrorView::InvalidObfuscatedNode(s@)
            },
        }
    }
}

} // verus!
