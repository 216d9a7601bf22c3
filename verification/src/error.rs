//! What can go wrong while a property list is decoded.

use vstd::prelude::*;
use vstd::string::{StrSliceExecFns, StringExecFns};
use crate::event::{Event, EventView, XmlError, XmlErrorView};

verus! {

/// `std::num::ParseIntError`, the cause of a text that is no integer. It is
/// carried from the parser to the caller and never looked into.
#[verifier::external_type_specification]
#[verifier::external_body]
pub struct ExParseIntError(std::num::ParseIntError);

/// `std::str::Utf8Error`, the cause of bytes that are no UTF-8. It is carried
/// from the decoder to the caller and never looked into.
#[verifier::external_type_specification]
#[verifier::external_body]
pub struct ExUtf8Error(std::str::Utf8Error);

/// `std::string::FromUtf16Error`, the cause of code units that are no
/// UTF-16. It is carried from the decoder to the caller and never looked into.
#[verifier::external_type_specification]
#[verifier::external_body]
pub struct ExFromUtf16Error(std::string::FromUtf16Error);

/// `chrono::format::ParseError`, the cause of a text that is no timestamp. It
/// is carried from the parser to the caller and never looked into.
#[verifier::external_type_specification]
#[verifier::external_body]
pub struct ExDateParseError(chrono::format::ParseError);

/// `rustc_serialize::base64::FromBase64Error`, the cause of a text that is no
/// base64. It is carried from the decoder to the caller and never looked into.
#[verifier::external_type_specification]
#[verifier::external_body]
pub struct ExFromBase64Error(rustc_serialize::base64::FromBase64Error);

/// Why a read from the byte source failed.
#[derive(Debug, Clone, Copy, PartialEq, Eq, Structural)]
pub enum IoErrorKind {
    /// The source ended before the bytes asked for.
    UnexpectedEof,
}

/// The errors that can occur when parsing a property list.
#[derive(Debug)]
pub enum Error {
    /// The binary property list does not have valid magic bytes.
    InvalidMagicBytes,
    /// The binary property list trailer does not contain valid values.
    InvalidTrailer,
    /// The binary property list does not have a valid version.
    /// The only valid version is currently "00".
    VersionNotSupported(Option<String>),
    /// The binary property list has a key object that is not a string.
    InvalidKeyObject,
    /// The binary property list has an invalid marker byte for a boolean.
    InvalidBoolean,
    /// The binary property list has an unsupported integer size for an offset, length,
    /// or count integer. Only sizes of 1, 2, 4 and 8 bytes are supported.
    InvalidIntegerSize,
    /// The binary property list has an unsupported object type.
    ObjectNotSupported(u8),
    /// The binary property list refers to an object that its offset table does not hold.
    InvalidObjectReference,
    /// The binary property list has an object that contains itself.
    CyclicReference,
    /// The XML property list encountered an early end of the document.
    UnexpectedXmlEof,
    /// The XML property list contains an unexpected XML event.
    UnexpectedXmlEvent(Event),
    /// The XML property list contains an unsupported object type.
    XmlObjectNotSupported(String),
    /// The XML property list contains invalid XML.
    XmlError(XmlError),
    /// The byte source could not give the bytes asked for.
    IoError(IoErrorKind),
    /// The XML property list contains an invalid integer value.
    IntError(std::num::ParseIntError),
    /// The XML property list contains an invalid float value: this text.
    FloatError(String),
    /// The XML property list contains an invalid date value.
    DateError(chrono::format::ParseError),
    /// The XML property list contains an invalid data value.
    Base64Error(rustc_serialize::base64::FromBase64Error),
    /// The property list contains an invalid UTF-8 string value.
    Utf8Error(std::str::Utf8Error),
    /// The property list contains an invalid UTF-16 string value.
    Utf16Error(std::string::FromUtf16Error),
}

/// The kind of an [`Error`]: which failure it is and what it says of the
/// document, without the cause that a failed conversion wrapped into it.
pub ghost enum ErrorKind {
    InvalidMagicBytes,
    InvalidTrailer,
    VersionNotSupported(Option<Seq<char>>),
    InvalidKeyObject,
    InvalidBoolean,
    InvalidIntegerSize,
    ObjectNotSupported(u8),
    InvalidObjectReference,
    CyclicReference,
    UnexpectedXmlEof,
    UnexpectedXmlEvent(EventView),
    XmlObjectNotSupported(Seq<char>),
    XmlError(XmlErrorView),
    IoError(IoErrorKind),
    IntError,
    FloatError(Seq<char>),
    DateError,
    Base64Error,
    Utf8Error,
    Utf16Error,
}

impl Error {
    /// Which failure the error is and what it says of the document.
    pub open spec fn kind(&self) -> ErrorKind {
        match self {
            Error::InvalidMagicBytes => ErrorKind::InvalidMagicBytes,
            Error::InvalidTrailer => ErrorKind::InvalidTrailer,
            Error::VersionNotSupported(v) => ErrorKind::VersionNotSupported(
                match v {
                    Some(s) => Some(s@),
                    None => None,
                },
            ),
            Error::InvalidKeyObject => ErrorKind::InvalidKeyObject,
            Error::InvalidBoolean => ErrorKind::InvalidBoolean,
            Error::InvalidIntegerSize => ErrorKind::InvalidIntegerSize,
            Error::ObjectNotSupported(t) => ErrorKind::ObjectNotSupported(*t),
            Error::InvalidObjectReference => ErrorKind::InvalidObjectReference,
            Error::CyclicReference => ErrorKind::CyclicReference,
            Error::UnexpectedXmlEof => ErrorKind::UnexpectedXmlEof,
            Error::UnexpectedXmlEvent(e) => ErrorKind::UnexpectedXmlEvent(e@),
            Error::XmlObjectNotSupported(s) => ErrorKind::XmlObjectNotSupported(s@),
            Error::XmlError(e) => ErrorKind::XmlError(e@),
            Error::IoError(k) => ErrorKind::IoError(*k),
            Error::IntError(_) => ErrorKind::IntError,
            Error::FloatError(s) => ErrorKind::FloatError(s@),
            Error::DateError(_) => ErrorKind::DateError,
            Error::Base64Error(_) => ErrorKind::Base64Error,
            Error::Utf8Error(_) => ErrorKind::Utf8Error,
            Error::Utf16Error(_) => ErrorKind::Utf16Error,
        }
    }
}

/// What an error says of itself in a few words, where the words are its own.
/// An error that wraps the cause of a failed conversion is described by that
/// cause, and a failure of the tokenizer by its message.
pub open spec fn description_of(e: ErrorKind) -> Option<Seq<char>> {
    match e {
        ErrorKind::InvalidMagicBytes => Some("Magic bytes are incorrect"@),
        ErrorKind::InvalidTrailer => Some("Trailer is invalid"@),
        ErrorKind::VersionNotSupported(_) => Some("Version not supported"@),
        ErrorKind::InvalidKeyObject => Some("Key object is not a string"@),
        ErrorKind::InvalidBoolean => Some("Boolean object has an invalid value"@),
        ErrorKind::InvalidIntegerSize => Some("Integer size is not supported"@),
        ErrorKind::ObjectNotSupported(_) => Some("Object type is not supported"@),
        ErrorKind::InvalidObjectReference => Some("Object reference is outside the table"@),
        ErrorKind::CyclicReference => Some("Object contains itself"@),
        ErrorKind::UnexpectedXmlEof => Some("The XML stream ends unexpectedly"@),
        ErrorKind::UnexpectedXmlEvent(_) => Some("The XML event is unexpected"@),
        ErrorKind::XmlObjectNotSupported(_) => Some("The XML object is not supported"@),
        ErrorKind::XmlError(e) => Some(e.message),
        ErrorKind::IoError(_) => Some("failed to fill whole buffer"@),
        ErrorKind::FloatError(text) => if text.len() == 0 {
            Some("cannot parse float from empty string"@)
        } else {
            Some("invalid float literal"@)
        },
        _ => None,
    }
}

impl Error {
    /// What the error says of itself in a few words.
    pub fn description(&self) -> (r: String)
        ensures
            description_of(self.kind()) matches Some(text) ==> r@ == text,
    {
        match self {
            Error::InvalidMagicBytes => String::from_str("Magic bytes are incorrect"),
            Error::InvalidTrailer => String::from_str("Trailer is invalid"),
            Error::VersionNotSupported(_) => String::from_str("Version not supported"),
            Error::InvalidKeyObject => String::from_str("Key object is not a string"),
            Error::InvalidBoolean => String::from_str("Boolean object has an invalid value"),
            Error::InvalidIntegerSize => String::from_str("Integer size is not supported"),
            Error::ObjectNotSupported(_) => String::from_str("Object type is not supported"),
            Error::InvalidObjectReference => String::from_str(
                "Object reference is outside the table",
            ),
            Error::CyclicReference => String::from_str("Object contains itself"),
            Error::UnexpectedXmlEof => String::from_str("The XML stream ends unexpectedly"),
            Error::UnexpectedXmlEvent(_) => String::from_str("The XML event is unexpected"),
            Error::XmlObjectNotSupported(_) => String::from_str("The XML object is not supported"),
            Error::XmlError(e) => e.message.clone(),
            Error::IoError(_) => String::from_str("failed to fill whole buffer"),
            Error::IntError(e) => e.to_string(),
            Error::FloatError(text) => if text.as_str().unicode_len() == 0 {
                String::from_str("cannot parse float from empty string")
            } else {
                String::from_str("invalid float literal")
            },
            Error::DateError(e) => e.to_string(),
            Error::Base64Error(e) => e.to_string(),
            Error::Utf8Error(e) => e.to_string(),
            Error::Utf16Error(e) => e.to_string(),
        }
    }
}

/// What reading from some position gives: a value and the position after it,
/// or a failure.
pub type Parse<T> = Result<(T, int), ErrorKind>;

/// Whether `r` is what `expected` says: on success a value with that view, on
/// failure an error of that kind.
pub open spec fn yields<T: View>(r: Result<T, Error>, expected: Result<T::V, ErrorKind>) -> bool {
    match expected {
        Ok(v) => r matches Ok(x) && x@ == v,
        Err(e) => r matches Err(x) && x.kind() == e,
    }
}

} // verus!
