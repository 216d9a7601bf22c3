//! The tokenizer of markup documents.

use vstd::prelude::*;
use ::xml::common::Position;
use crate::event::{stream_view, Event, XmlError, XmlItem, XmlItemView};

verus! {

/// `xml::reader::XmlEvent`, an event as the tokenizer makes it. It is handed
/// to `event_of` and never looked into elsewhere.
#[verifier::external_type_specification]
#[verifier::external_body]
pub struct ExTokenizerEvent(::xml::reader::XmlEvent);

/// The items that the tokenizer makes of the bytes of a markup document.
pub uninterp spec fn xml_items_of(input: Seq<u8>) -> Seq<XmlItemView>;

/// One event of `xml::reader`, with what the property-list grammar reads of it.
#[verifier::external_body]
fn event_of(event: ::xml::reader::XmlEvent) -> Event {
    match event {
        ::xml::reader::XmlEvent::StartDocument { .. } => Event::StartDocument,
        ::xml::reader::XmlEvent::EndDocument => Event::EndDocument,
        ::xml::reader::XmlEvent::ProcessingInstruction { name, .. } => Event::ProcessingInstruction(name),
        ::xml::reader::XmlEvent::StartElement { name, .. } => Event::StartElement(name.local_name),
        ::xml::reader::XmlEvent::EndElement { name } => Event::EndElement(name.local_name),
        ::xml::reader::XmlEvent::CData(text) => Event::CData(text),
        ::xml::reader::XmlEvent::Comment(text) => Event::Comment(text),
        ::xml::reader::XmlEvent::Characters(text) => Event::Characters(text),
        ::xml::reader::XmlEvent::Whitespace(text) => Event::Whitespace(text),
    }
}

/// `xml::reader::EventReader` over `input`, run to the end of its events: white
/// space comes as character runs, `CDATA` sections stay apart, comments are
/// left out, and adjacent character runs come as one. An error of the reader
/// comes with its position and its message. The items are a function of the
/// bytes alone.
#[verifier::external_body]
pub(crate) fn tokenize(input: &[u8]) -> (items: Vec<XmlItem>)
    ensures
        stream_view(items@) == xml_items_of(input@),
{
    let config = ::xml::reader::ParserConfig::new()
        .trim_whitespace(false)
        .whitespace_to_characters(true)
        .cdata_to_characters(false)
        .ignore_comments(true)
        .coalesce_characters(true);
    let events = ::xml::reader::EventReader::new_with_config(input, config).into_iter();
    events.map(|item| match item {
        Ok(event) => Ok(event_of(event)),
        Err(e) => Err(XmlError { row: e.position().row, column: e.position().column, message: e.msg().to_string() }),
    }).collect()
}

} // verus!
