//! Property list parsing.
//!
//! A property list is a tree of typed values: arrays, dictionaries keyed by
//! strings, booleans, data, dates, reals, integers and strings. This library
//! decodes one from its binary encoding or from its markup encoding. The
//! source is held in memory as bytes, behind a [`Reader`].
//!
//! ```ignore
//! let mut input = plist::Reader::new(&bytes);
//! let value = plist::Plist::from_reader(&mut input)?;
//! ```
//!
//! Every function states what it returns over the mathematical value of its
//! arguments: a [`Plist`] has a [`Value`], an [`Error`] has a kind, an [`ErrorKind`],
//! and each reader has a spec function that says what a source
//! holds.
//!
//! The library has no floating-point numbers. A real stays as the document
//! encodes it, as the bits of a double or as decimal text, and a date that
//! the binary encoding counts in a double is read from the bits of it.

pub mod equality;
pub mod error;
pub mod event;
pub mod ieee;
pub mod plist;
pub mod reader;
pub mod text;
pub mod tokenizer;

pub use error::{Error, ErrorKind, IoErrorKind};
pub use event::{Event, Events, XmlError};
pub use plist::{Date, Dictionary, Plist, Real, RealView, Value};
pub use reader::Reader;
