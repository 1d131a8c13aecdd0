//! The closed error taxonomy: transport, transform, markup-syntax,
//! token-grammar, document-metadata, structural and trailing-data failures,
//! all returned to the caller instead of aborting the process.

use vstd::prelude::*;

verus! {

/// Failure kinds a decoding session can report, grouped by layer.
#[derive(Debug, PartialEq, Eq)]
pub enum DeError {
    /// Destination-shape-specific complaint with a free-form message.
    Custom(String),
    /// Transport failure: the byte source could not be opened or read.
    Io,
    /// Transform failure: the XOR/base64/gzip stack rejected the payload.
    Transform,
    /// Markup syntax failure: malformed tag, declaration or text encoding.
    XmlParse,
    /// Malformed attribute inside a start tag.
    XmlAttrParse,
    /// A declaration without a readable `version` attribute.
    NoXmlVersionInfo,
    /// A markup construct outside the token grammar (comment, CDATA, ...).
    UnexpectedOtherXml,
    /// A tag arrived while text was expected.
    UnexpectedXmlTag,
    /// Text arrived with no pending tag context.
    UnexpectedXmlText,
    /// An attribute other than `version`/`gjver` on the document tag.
    UnexpectedXmlAttr,
    /// A tag name outside the closed tag set.
    UnknownXmlTag,
    /// A closing tag with no matching opener: unexpected nesting.
    UnexpectedXmlNesting,
    /// The document did not begin with an XML version declaration.
    ExpectedXmlVersion,
    /// The document tag lacked its `version` or `gjver` attribute.
    ExpectedPlistVersion,
    /// Reserved: the document tag lacked its `gjver` attribute.
    ExpectedGjVersion,
    /// Input continued after the destination value was fully decoded.
    ExpectedEof,
    /// The requested destination shape does not match the tokens found.
    Deserialization,
}

pub type DeResult<T> = Result<T, DeError>;

/// Failure kinds of the symmetric encoding path.
#[derive(Debug, PartialEq, Eq)]
pub enum SerError {
    /// Source-shape-specific complaint with a free-form message.
    Custom(String),
    /// Markup could not be written.
    XmlParse,
}

pub type SerResult<T> = Result<T, SerError>;

} // verus!
