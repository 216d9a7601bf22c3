//! The structural events of a markup document, as the tokenizer hands them over.

use vstd::prelude::*;

verus! {

/// One structural event of a markup document.
///
/// Only what the property-list grammar reads is kept: the kind of the event,
/// the local name of an element and the text of a character run.
#[derive(Debug)]
pub enum Event {
    /// The beginning of the document.
    StartDocument,
    /// The end of the document.
    EndDocument,
    /// A processing instruction, with its name.
    ProcessingInstruction(String),
    /// An opening tag, with the local name of its element.
    StartElement(String),
    /// A closing tag, with the local name of its element.
    EndElement(String),
    /// A `CDATA` section.
    CData(String),
    /// A comment.
    Comment(String),
    /// A run of characters between tags.
    Characters(String),
    /// A run of white space between tags.
    Whitespace(String),
}

/// The mathematical value of an [`Event`].
pub ghost enum EventView {
    StartDocument,
    EndDocument,
    ProcessingInstruction(Seq<char>),
    StartElement(Seq<char>),
    EndElement(Seq<char>),
    CData(Seq<char>),
    Comment(Seq<char>),
    Characters(Seq<char>),
    Whitespace(Seq<char>),
}

impl View for Event {
    type V = EventView;

    open spec fn view(&self) -> EventView {
        match self {
            Event::StartDocument => EventView::StartDocument,
            Event::EndDocument => EventView::EndDocument,
            Event::ProcessingInstruction(s) => EventView::ProcessingInstruction(s@),
            Event::StartElement(s) => EventView::StartElement(s@),
            Event::EndElement(s) => EventView::EndElement(s@),
            Event::CData(s) => EventView::CData(s@),
            Event::Comment(s) => EventView::Comment(s@),
            Event::Characters(s) => EventView::Characters(s@),
            Event::Whitespace(s) => EventView::Whitespace(s@),
        }
    }
}

impl Event {
    /// A copy of the event.
    pub fn duplicate(&self) -> (r: Event)
        ensures
            r@ == self@,
    {
        match self {
            Event::StartDocument => Event::StartDocument,
            Event::EndDocument => Event::EndDocument,
            Event::ProcessingInstruction(s) => Event::ProcessingInstruction(s.clone()),
            Event::StartElement(s) => Event::StartElement(s.clone()),
            Event::EndElement(s) => Event::EndElement(s.clone()),
            Event::CData(s) => Event::CData(s.clone()),
            Event::Comment(s) => Event::Comment(s.clone()),
            Event::Characters(s) => Event::Characters(s.clone()),
            Event::Whitespace(s) => Event::Whitespace(s.clone()),
        }
    }
}

/// A failure of the tokenizer: where in the text it happened, and why.
#[derive(Debug)]
pub struct XmlError {
    /// The line of the text, counted from zero.
    pub row: u64,
    /// The column in that line, counted from zero.
    pub column: u64,
    /// What the tokenizer said.
    pub message: String,
}

/// The mathematical value of an [`XmlError`].
pub ghost struct XmlErrorView {
    pub row: u64,
    pub column: u64,
    pub message: Seq<char>,
}

impl View for XmlError {
    type V = XmlErrorView;

    open spec fn view(&self) -> XmlErrorView {
        XmlErrorView { row: self.row, column: self.column, message: self.message@ }
    }
}

impl XmlError {
    /// A copy of the failure.
    pub fn duplicate(&self) -> (r: XmlError)
        ensures
            r@ == self@,
    {
        XmlError { row: self.row, column: self.column, message: self.message.clone() }
    }
}

/// One item of the tokenizer's stream: an event, or the failure that ends the stream.
pub type XmlItem = Result<Event, XmlError>;

/// The mathematical value of an [`XmlItem`].
pub type XmlItemView = Result<EventView, XmlErrorView>;

/// The value of one item of a stream.
pub open spec fn item_view(item: XmlItem) -> XmlItemView {
    match item {
        Ok(e) => Ok(e@),
        Err(e) => Err(e@),
    }
}

/// The value of a stream of items.
pub open spec fn stream_view(items: Seq<XmlItem>) -> Seq<XmlItemView> {
    Seq::new(items.len(), |i: int| item_view(items[i]))
}

/// A stream of items that is read from front to back.
#[derive(Debug)]
pub struct Events {
    items: Vec<XmlItem>,
    pos: usize,
}

impl Events {
    #[verifier::type_invariant]
    spec fn within(self) -> bool {
        self.pos <= self.items.len()
    }

    /// All the items of the stream, those already read too.
    pub closed spec fn items(&self) -> Seq<XmlItemView> {
        stream_view(self.items@)
    }

    /// How many items have been read.
    pub closed spec fn position(&self) -> int {
        self.pos as int
    }

    /// A stream that holds `items` and stands before the first of them.
    pub fn new(items: Vec<XmlItem>) -> (r: Events)
        ensures
            r.items() == stream_view(items@),
            r.position() == 0,
    {
        Events { items, pos: 0 }
    }

    /// How many items are left to read.
    pub fn remaining(&self) -> (n: usize)
        ensures
            0 <= self.position() <= self.items().len(),
            n == self.items().len() - self.position(),
    {
        proof {
            use_type_invariant(self);
        }
        self.items.len() - self.pos
    }

    /// The next item, which stays in the stream; `None` at its end.
    pub fn peek(&self) -> (r: Option<&XmlItem>)
        ensures
            0 <= self.position() <= self.items().len(),
            match r {
                Some(item) => self.position() < self.items().len() && item_view(*item)
                    == self.items()[self.position()],
                None => self.position() == self.items().len(),
            },
    {
        proof {
            use_type_invariant(self);
        }
        if self.pos < self.items.len() {
            Some(&self.items[self.pos])
        } else {
            None
        }
    }

    /// Reads the next item; `None` at the end of the stream.
    pub fn next(&mut self) -> (r: Option<XmlItem>)
        ensures
            final(self).items() == old(self).items(),
            0 <= old(self).position() <= old(self).items().len(),
            match r {
                Some(item) => old(self).position() < old(self).items().len() && item_view(item)
                    == old(self).items()[old(self).position()] && final(self).position() == old(
                    self,
                ).position() + 1,
                None => old(self).position() == old(self).items().len() && final(self).position()
                    == old(self).position(),
            },
    {
        proof {
            use_type_invariant(&*self);
        }
        if self.pos < self.items.len() {
            let item = match &self.items[self.pos] {
                Ok(e) => Ok(e.duplicate()),
                Err(e) => Err(e.duplicate()),
            };
            self.pos = self.pos + 1;
            Some(item)
        } else {
            None
        }
    }
}

} // verus!
