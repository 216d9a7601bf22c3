//! The reader of markup documents: a recursive descent over the events of
//! the tokenizer.

use vstd::prelude::*;
use vstd::string::{StrSliceExecFns, StringExecFns};
use crate::error::{yields, Error, ErrorKind};
use crate::event::{
    stream_view, Event, EventView, Events, XmlError, XmlErrorView, XmlItem, XmlItemView,
};
use crate::plist::{
    lemma_array_view, same_text, values_of, Date, Dictionary, Plist, Real, RealView, Value,
};
use crate::reader::{rest_of, Reader};
use crate::tokenizer::{tokenize, xml_items_of};
use crate::text::{
    base64_bytes, decimal_integer, decode_base64, is_real, is_real_text, parse_integer,
    parse_timestamp, rfc3339_timestamp, strip_white_space, without_white_space,
};

verus! {

/// The boundary that a reader looks for next.
pub enum Expected<'a> {
    /// The beginning of the document.
    StartDocument,
    /// The opening tag of the element of this name.
    StartElement(&'a str),
    /// The closing tag of the element of this name.
    EndElement(&'a str),
}

/// The mathematical value of an [`Expected`].
pub ghost enum ExpectedView {
    StartDocument,
    StartElement(Seq<char>),
    EndElement(Seq<char>),
}

impl<'a> View for Expected<'a> {
    type V = ExpectedView;

    open spec fn view(&self) -> ExpectedView {
        match self {
            Expected::StartDocument => ExpectedView::StartDocument,
            Expected::StartElement(name) => ExpectedView::StartElement(name@),
            Expected::EndElement(name) => ExpectedView::EndElement(name@),
        }
    }
}

/// The kinds of element that hold a value.
#[derive(Debug, Clone, Copy, PartialEq, Eq, Structural)]
pub enum Element {
    Boolean,
    Integer,
    Real,
    Date,
    Data,
    String,
    Array,
    Dict,
}

/// The kind of value that an element of this name holds, if it holds one.
pub open spec fn element_of(name: Seq<char>) -> Option<Element> {
    if name == "true"@ || name == "false"@ {
        Some(Element::Boolean)
    } else if name == "integer"@ {
        Some(Element::Integer)
    } else if name == "real"@ {
        Some(Element::Real)
    } else if name == "date"@ {
        Some(Element::Date)
    } else if name == "data"@ {
        Some(Element::Data)
    } else if name == "string"@ {
        Some(Element::String)
    } else if name == "array"@ {
        Some(Element::Array)
    } else if name == "dict"@ {
        Some(Element::Dict)
    } else {
        None
    }
}

/// What a reader that looks for `expected` makes of `event`: `Some(true)`
/// where the event is that boundary, `Some(false)` where it is another
/// structural event, and `None` where it is a character run to pass over.
pub open spec fn matching(expected: ExpectedView, event: EventView) -> Option<bool> {
    match expected {
        ExpectedView::StartDocument => Some(event is StartDocument),
        ExpectedView::StartElement(name) => match event {
            EventView::StartElement(n) => Some(n == name),
            EventView::Characters(_) => None,
            _ => Some(false),
        },
        ExpectedView::EndElement(name) => match event {
            EventView::EndElement(n) => Some(n == name),
            EventView::Characters(_) => None,
            _ => Some(false),
        },
    }
}

/// The position of the first item at or after `pos` that a reader which
/// looks for `expected` does not pass over; the length of the stream where
/// there is none.
pub open spec fn decisive(s: Seq<XmlItemView>, pos: int, expected: ExpectedView) -> int
    decreases s.len() - pos,
{
    if 0 <= pos < s.len() && (s[pos] matches Ok(e) && matching(expected, e) is None) {
        decisive(s, pos + 1, expected)
    } else {
        pos
    }
}

/// What reading a stream from some position gives: a value or a failure, and
/// with either the position after it.
pub type Reading<T> = Result<(T, int), (ErrorKind, int)>;

/// The text of the character runs among the items from `pos` up to `k`, one
/// behind the other.
pub open spec fn passed_text(s: Seq<XmlItemView>, pos: int, k: int) -> Seq<char>
    decreases k - pos,
{
    if pos < k && 0 < k <= s.len() {
        passed_text(s, pos, k - 1) + match s[k - 1] {
            Ok(EventView::Characters(t)) => t,
            _ => Seq::empty(),
        }
    } else {
        Seq::empty()
    }
}

/// Whether `text` begins with `prefix`.
pub open spec fn begins_with(text: Seq<char>, prefix: Seq<char>) -> bool {
    text.len() >= prefix.len() && text.take(prefix.len() as int) == prefix
}

/// Whether a message of the tokenizer says that its input ended too early:
/// before the root element, within it, within a tag or a character, or
/// within a `CDATA` section.
pub open spec fn ends_input(message: Seq<char>) -> bool {
    ||| begins_with(message, "Unexpected end of stream"@)
    ||| message == "Unexpected EOF"@
    ||| message == "Unclosed <![CDATA["@
}

/// What a failure of the tokenizer is to a reader: the end of the stream
/// where the input ended too early, and else invalid markup.
pub open spec fn failure(e: XmlErrorView) -> ErrorKind {
    if ends_input(e.message) {
        ErrorKind::UnexpectedXmlEof
    } else {
        ErrorKind::XmlError(e)
    }
}

/// Reading up to the boundary `expected`: the text of the character runs
/// passed over on the way, and the position after the boundary. A failure
/// of the stream and a structural event that is not the boundary are read
/// too; at the end of the stream nothing is.
pub open spec fn event_at(s: Seq<XmlItemView>, pos: int, expected: ExpectedView) -> Reading<
    Seq<char>,
> {
    let k = decisive(s, pos, expected);
    if k < 0 || k >= s.len() {
        Err((ErrorKind::UnexpectedXmlEof, k))
    } else {
        match s[k] {
            Err(e) => Err((failure(e), k + 1)),
            Ok(e) => if matching(expected, e) == Some(true) {
                Ok((passed_text(s, pos, k), k + 1))
            } else {
                Err((ErrorKind::UnexpectedXmlEvent(e), k + 1))
            },
        }
    }
}

/// Reading up to the opening tag of the element `name`.
pub open spec fn start_at(s: Seq<XmlItemView>, pos: int, name: Seq<char>) -> Reading<()> {
    match event_at(s, pos, ExpectedView::StartElement(name)) {
        Ok((_, p)) => Ok(((), p)),
        Err(e) => Err(e),
    }
}

/// Reading up to the closing tag of the element `name`: the text before it.
pub open spec fn end_at(s: Seq<XmlItemView>, pos: int, name: Seq<char>) -> Reading<Seq<char>> {
    event_at(s, pos, ExpectedView::EndElement(name))
}

/// Reading the element `name` with nothing but text in it: that text.
pub open spec fn content_at(s: Seq<XmlItemView>, pos: int, name: Seq<char>) -> Reading<
    Seq<char>,
> {
    match start_at(s, pos, name) {
        Ok((_, p)) => end_at(s, p, name),
        Err(e) => Err(e),
    }
}

/// Reading a `true` or `false` element.
pub open spec fn boolean_at(s: Seq<XmlItemView>, pos: int) -> Reading<Value> {
    let k = decisive(s, pos, ExpectedView::StartElement("true"@));
    if k < 0 || k >= s.len() {
        Err((ErrorKind::UnexpectedXmlEof, k))
    } else {
        match s[k] {
            Err(e) => Err((failure(e), k + 1)),
            Ok(EventView::StartElement(name)) => if name == "true"@ {
                match end_at(s, k + 1, "true"@) {
                    Ok((_, p)) => Ok((Value::Boolean(true), p)),
                    Err(e) => Err(e),
                }
            } else if name == "false"@ {
                match end_at(s, k + 1, "false"@) {
                    Ok((_, p)) => Ok((Value::Boolean(false), p)),
                    Err(e) => Err(e),
                }
            } else {
                Err((ErrorKind::UnexpectedXmlEvent(EventView::StartElement(name)), k + 1))
            },
            Ok(e) => Err((ErrorKind::UnexpectedXmlEvent(e), k + 1)),
        }
    }
}

/// The integer that the text of an `integer` element stands for.
pub open spec fn integer_of(text: Seq<char>) -> Result<Value, ErrorKind> {
    match decimal_integer(text) {
        Some(v) => Ok(Value::Integer(v)),
        None => Err(ErrorKind::IntError),
    }
}

/// The real that the text of a `real` element stands for.
pub open spec fn real_of(text: Seq<char>) -> Result<Value, ErrorKind> {
    if is_real_text(text) {
        Ok(Value::Real(RealView::Decimal(text)))
    } else {
        Err(ErrorKind::FloatError(text))
    }
}

/// The instant that lies `secs` seconds and `nanos` nanoseconds after the
/// Unix epoch: a second more for each 1,000,000,000 nanoseconds.
pub open spec fn instant_of(secs: i64, nanos: u32) -> Date {
    Date { secs: (secs + nanos / 1_000_000_000) as i128, nanos: nanos % 1_000_000_000 }
}

/// The instant that the text of a `date` element names.
pub open spec fn date_of(text: Seq<char>) -> Result<Value, ErrorKind> {
    match rfc3339_timestamp(text) {
        Some((secs, nanos)) => Ok(Value::DateTime(instant_of(secs, nanos))),
        None => Err(ErrorKind::DateError),
    }
}

/// The bytes that the text of a `data` element encodes.
pub open spec fn data_of(text: Seq<char>) -> Result<Value, ErrorKind> {
    match base64_bytes(without_white_space(text)) {
        Some(bytes) => Ok(Value::Data(bytes)),
        None => Err(ErrorKind::Base64Error),
    }
}

/// Reading an element whose text `convert` turns into a value.
pub open spec fn leaf_at(
    s: Seq<XmlItemView>,
    pos: int,
    name: Seq<char>,
    convert: spec_fn(Seq<char>) -> Result<Value, ErrorKind>,
) -> Reading<Value> {
    match content_at(s, pos, name) {
        Ok((text, p)) => match convert(text) {
            Ok(v) => Ok((v, p)),
            Err(e) => Err((e, p)),
        },
        Err(e) => Err(e),
    }
}

/// Reading an `integer` element.
pub open spec fn integer_at(s: Seq<XmlItemView>, pos: int) -> Reading<Value> {
    leaf_at(s, pos, "integer"@, |t: Seq<char>| integer_of(t))
}

/// Reading a `real` element.
pub open spec fn real_at(s: Seq<XmlItemView>, pos: int) -> Reading<Value> {
    leaf_at(s, pos, "real"@, |t: Seq<char>| real_of(t))
}

/// Reading a `date` element.
pub open spec fn date_at(s: Seq<XmlItemView>, pos: int) -> Reading<Value> {
    leaf_at(s, pos, "date"@, |t: Seq<char>| date_of(t))
}

/// Reading a `data` element.
pub open spec fn data_at(s: Seq<XmlItemView>, pos: int) -> Reading<Value> {
    leaf_at(s, pos, "data"@, |t: Seq<char>| data_of(t))
}

/// Reading a `string` element.
pub open spec fn string_at(s: Seq<XmlItemView>, pos: int) -> Reading<Value> {
    leaf_at(s, pos, "string"@, |t: Seq<char>| Ok::<Value, ErrorKind>(Value::String(t)))
}

/// Whether the item at `k` is the closing tag of the element `name`.
pub open spec fn closes(s: Seq<XmlItemView>, k: int, name: Seq<char>) -> bool {
    0 <= k < s.len() && s[k] == Ok::<EventView, XmlErrorView>(EventView::EndElement(name))
}

/// Reading one value: the element that the next structural event opens.
/// The opening tag of an element that holds no value is not read: it stays
/// the next item of the stream.
pub open spec fn value_at(s: Seq<XmlItemView>, pos: int) -> Reading<Value>
    decreases s.len() - pos, 1int,
{
    if pos < 0 || pos >= s.len() {
        Err((ErrorKind::UnexpectedXmlEof, pos))
    } else {
        match s[pos] {
            Err(e) => Err((failure(e), pos + 1)),
            Ok(EventView::StartElement(name)) => match element_of(name) {
                Some(Element::Boolean) => boolean_at(s, pos),
                Some(Element::Integer) => integer_at(s, pos),
                Some(Element::Real) => real_at(s, pos),
                Some(Element::Date) => date_at(s, pos),
                Some(Element::Data) => data_at(s, pos),
                Some(Element::String) => string_at(s, pos),
                Some(Element::Array) => match array_items_at(s, pos + 1, Seq::empty()) {
                    Ok((items, p)) => Ok((Value::Array(items), p)),
                    Err(e) => Err(e),
                },
                Some(Element::Dict) => match dict_entries_at(s, pos + 1, Map::empty()) {
                    Ok((entries, p)) => Ok((Value::Dict(entries), p)),
                    Err(e) => Err(e),
                },
                None => Err((ErrorKind::XmlObjectNotSupported(name), pos)),
            },
            Ok(EventView::Characters(_)) => value_at(s, pos + 1),
            Ok(e) => Err((ErrorKind::UnexpectedXmlEvent(e), pos + 1)),
        }
    }
}

/// Reading the rest of an array, after `done`: values up to the closing tag
/// of the array, which is the next structural event where no value is left.
/// A value takes at least one item of the stream.
pub open spec fn array_items_at(s: Seq<XmlItemView>, pos: int, done: Seq<Value>) -> Reading<
    Seq<Value>,
>
    decreases s.len() - pos, 2int,
{
    let k = decisive(s, pos, ExpectedView::EndElement("array"@));
    if closes(s, k, "array"@) {
        Ok((done, k + 1))
    } else {
        match value_at(s, pos) {
            Err(e) => Err(e),
            Ok((v, p)) => if pos < p <= s.len() {
                array_items_at(s, p, done.push(v))
            } else {
                Err((ErrorKind::UnexpectedXmlEof, p))
            },
        }
    }
}

/// Reading the rest of a dictionary, after `done`: `key` elements, each
/// followed by a value, up to the closing tag of the dictionary, which is
/// the next structural event where no key is left. A later entry takes the
/// place of an earlier one with the same key.
pub open spec fn dict_entries_at(
    s: Seq<XmlItemView>,
    pos: int,
    done: Map<Seq<char>, Value>,
) -> Reading<Map<Seq<char>, Value>>
    decreases s.len() - pos, 2int,
{
    let k = decisive(s, pos, ExpectedView::EndElement("dict"@));
    if closes(s, k, "dict"@) {
        Ok((done, k + 1))
    } else {
        match content_at(s, pos, "key"@) {
            Err(e) => Err(e),
            Ok((key, p)) => if pos < p <= s.len() {
                match value_at(s, p) {
                    Err(e) => Err(e),
                    Ok((v, q)) => if p < q <= s.len() {
                        dict_entries_at(s, q, done.insert(key, v))
                    } else {
                        Err((ErrorKind::UnexpectedXmlEof, q))
                    },
                }
            } else {
                Err((ErrorKind::UnexpectedXmlEof, p))
            },
        }
    }
}

/// Reading an `array` element.
pub open spec fn array_at(s: Seq<XmlItemView>, pos: int) -> Reading<Value> {
    match start_at(s, pos, "array"@) {
        Err(e) => Err(e),
        Ok((_, p)) => match array_items_at(s, p, Seq::empty()) {
            Ok((items, q)) => Ok((Value::Array(items), q)),
            Err(e) => Err(e),
        },
    }
}

/// Reading a `dict` element.
pub open spec fn dict_at(s: Seq<XmlItemView>, pos: int) -> Reading<Value> {
    match start_at(s, pos, "dict"@) {
        Err(e) => Err(e),
        Ok((_, p)) => match dict_entries_at(s, p, Map::empty()) {
            Ok((entries, q)) => Ok((Value::Dict(entries), q)),
            Err(e) => Err(e),
        },
    }
}

/// Reading a whole document: its beginning, the opening tag of `plist`, one
/// value, and the closing tag of `plist`.
pub open spec fn document_at(s: Seq<XmlItemView>, pos: int) -> Reading<Value> {
    match event_at(s, pos, ExpectedView::StartDocument) {
        Err(e) => Err(e),
        Ok((_, p)) => match start_at(s, p, "plist"@) {
            Err(e) => Err(e),
            Ok((_, q)) => match value_at(s, q) {
                Err(e) => Err(e),
                Ok((v, r)) => match end_at(s, r, "plist"@) {
                    Err(e) => Err(e),
                    Ok((_, t)) => Ok((v, t)),
                },
            },
        }
    }
}

/// The value of the document that a stream of items holds.
pub open spec fn document_value(s: Seq<XmlItemView>) -> Result<Value, ErrorKind> {
    match document_at(s, 0) {
        Ok((v, _)) => Ok(v),
        Err((e, _)) => Err(e),
    }
}

/// Whether a reader that took `before` to `after` and returned `r` did what
/// `expected` says: the value or the failure, and the position after either.
/// The items of a stream never change.
pub open spec fn reads<T: View>(
    before: &Events,
    after: &Events,
    expected: Reading<T::V>,
    r: Result<T, Error>,
) -> bool {
    &&& after.items() == before.items()
    &&& match expected {
        Ok((v, p)) => r matches Ok(x) && x@ == v && after.position() == p,
        Err((e, p)) => r matches Err(x) && x.kind() == e && after.position() == p,
    }
}

/// Where `decisive` lies.
pub proof fn lemma_decisive(s: Seq<XmlItemView>, pos: int, expected: ExpectedView)
    requires
        0 <= pos <= s.len(),
    ensures
        pos <= decisive(s, pos, expected) <= s.len(),
        forall|j: int|
            pos <= j < decisive(s, pos, expected) ==> ((#[trigger] s[j]) matches Ok(e) && matching(
                expected,
                e,
            ) is None),
        decisive(s, pos, expected) < s.len() ==> !(s[decisive(s, pos, expected)] matches Ok(e)
            && matching(expected, e) is None),
    decreases s.len() - pos,
{
    if pos < s.len() && (s[pos] matches Ok(e) && matching(expected, e) is None) {
        lemma_decisive(s, pos + 1, expected);
    }
}

/// Whether `text` begins with `prefix`.
fn text_begins_with(text: &str, prefix: &str) -> (r: bool)
    ensures
        r == begins_with(text@, prefix@),
{
    let n = text.unicode_len();
    let m = prefix.unicode_len();
    if n < m {
        return false;
    }
    let mut i: usize = 0;
    while i < m
        invariant
            n == text@.len(),
            m == prefix@.len(),
            m <= n,
            i <= m,
            forall|j: int| 0 <= j < i ==> text@[j] == prefix@[j],
        decreases m - i,
    {
        if text.get_char(i) != prefix.get_char(i) {
            assert(text@.take(m as int)[i as int] != prefix@[i as int]);
            return false;
        }
        i = i + 1;
    }
    assert(text@.take(m as int) =~= prefix@);
    true
}

/// What a failure of the tokenizer is to a reader: the end of the stream
/// where the input ended too early, and else invalid markup.
pub fn failure_of(e: XmlError) -> (r: Error)
    ensures
        r.kind() == failure(e@),
{
    if text_begins_with(e.message.as_str(), "Unexpected end of stream") || same_text(
        e.message.as_str(),
        "Unexpected EOF",
    ) || same_text(e.message.as_str(), "Unclosed <![CDATA[") {
        Error::UnexpectedXmlEof
    } else {
        Error::XmlError(e)
    }
}

fn matching_of(expected: &Expected, event: &Event) -> (r: Option<bool>)
    ensures
        r == matching(expected@, event@),
{
    match expected {
        Expected::StartDocument => match event {
            Event::StartDocument => Some(true),
            _ => Some(false),
        },
        Expected::StartElement(name) => match event {
            Event::StartElement(n) => Some(same_text(n.as_str(), name)),
            Event::Characters(_) => None,
            _ => Some(false),
        },
        Expected::EndElement(name) => match event {
            Event::EndElement(n) => Some(same_text(n.as_str(), name)),
            Event::Characters(_) => None,
            _ => Some(false),
        },
    }
}

/// Reads up to the boundary `expected` and gives the text of the character
/// runs passed over on the way, one behind the other. Character runs are
/// passed over before the tag of an element, and nothing is before the
/// beginning of the document. A structural event that is not the boundary is
/// read too, and reported.
pub fn xml_event(input: &mut Events, expected: Expected) -> (r: Result<String, Error>)
    ensures
        reads(
            old(input),
            final(input),
            event_at(old(input).items(), old(input).position(), expected@),
            r,
        ),
{
    let ghost s = input.items();
    let ghost start = input.position();
    let _ = input.remaining();
    let mut text = String::new();
    loop
        invariant
            s == old(input).items(),
            start == old(input).position(),
            input.items() == s,
            0 <= start <= input.position() <= s.len(),
            decisive(s, start, expected@) == decisive(s, input.position(), expected@),
            text@ == passed_text(s, start, input.position()),
        decreases s.len() - input.position(),
    {
        match input.next() {
            None => {
                return Err(Error::UnexpectedXmlEof);
            },
            Some(Err(e)) => {
                return Err(failure_of(e));
            },
            Some(Ok(e)) => match matching_of(&expected, &e) {
                Some(true) => {
                    return Ok(text);
                },
                Some(false) => {
                    return Err(Error::UnexpectedXmlEvent(e));
                },
                None => {
                    match e {
                        Event::Characters(t) => {
                            text.append(t.as_str());
                        },
                        _ => {},
                    }
                },
            },
        }
    }
}

/// Reads up to the opening tag of the element `local_name`.
pub fn xml_start(input: &mut Events, local_name: &str) -> (r: Result<(), Error>)
    ensures
        reads(
            old(input),
            final(input),
            start_at(old(input).items(), old(input).position(), local_name@),
            r,
        ),
{
    match xml_event(input, Expected::StartElement(local_name)) {
        Ok(_) => Ok(()),
        Err(e) => Err(e),
    }
}

/// Reads up to the closing tag of the element `local_name` and gives the
/// text before it.
pub fn xml_end(input: &mut Events, local_name: &str) -> (r: Result<String, Error>)
    ensures
        reads(
            old(input),
            final(input),
            end_at(old(input).items(), old(input).position(), local_name@),
            r,
        ),
{
    xml_event(input, Expected::EndElement(local_name))
}

/// Reads the element `local_name` and gives the text in it.
pub fn xml_content(input: &mut Events, local_name: &str) -> (r: Result<String, Error>)
    ensures
        reads(
            old(input),
            final(input),
            content_at(old(input).items(), old(input).position(), local_name@),
            r,
        ),
{
    match xml_start(input, local_name) {
        Ok(_) => xml_end(input, local_name),
        Err(e) => Err(e),
    }
}

/// A boundary takes at least one item of the stream.
pub proof fn lemma_event_advances(s: Seq<XmlItemView>, pos: int, expected: ExpectedView)
    requires
        0 <= pos <= s.len(),
    ensures
        event_at(s, pos, expected) matches Ok((_, p)) ==> pos < p <= s.len(),
{
    lemma_decisive(s, pos, expected);
}

/// A value takes at least one item of the stream.
pub proof fn lemma_value_advances(s: Seq<XmlItemView>, pos: int)
    requires
        0 <= pos <= s.len(),
    ensures
        value_at(s, pos) matches Ok((_, p)) ==> pos < p <= s.len(),
    decreases s.len() - pos, 1int,
{
    if pos < s.len() {
        match s[pos] {
            Ok(EventView::StartElement(name)) => {
                match element_of(name) {
                    Some(Element::Boolean) => {
                        lemma_decisive(s, pos, ExpectedView::StartElement("true"@));
                        lemma_event_advances(s, pos + 1, ExpectedView::EndElement("true"@));
                        lemma_event_advances(s, pos + 1, ExpectedView::EndElement("false"@));
                    },
                    Some(Element::Array) => {
                        lemma_items_advance(s, pos + 1, Seq::empty());
                    },
                    Some(Element::Dict) => {
                        lemma_entries_advance(s, pos + 1, Map::empty());
                    },
                    Some(Element::Integer) => {
                        lemma_content_advances(s, pos, "integer"@);
                    },
                    Some(Element::Real) => {
                        lemma_content_advances(s, pos, "real"@);
                    },
                    Some(Element::Date) => {
                        lemma_content_advances(s, pos, "date"@);
                    },
                    Some(Element::Data) => {
                        lemma_content_advances(s, pos, "data"@);
                    },
                    Some(Element::String) => {
                        lemma_content_advances(s, pos, "string"@);
                    },
                    None => {},
                }
            },
            Ok(EventView::Characters(_)) => {
                lemma_value_advances(s, pos + 1);
            },
            _ => {},
        }
    }
}

/// An element with text in it takes at least two items of the stream.
pub proof fn lemma_content_advances(s: Seq<XmlItemView>, pos: int, name: Seq<char>)
    requires
        0 <= pos <= s.len(),
    ensures
        content_at(s, pos, name) matches Ok((_, p)) ==> pos + 1 < p <= s.len(),
{
    lemma_event_advances(s, pos, ExpectedView::StartElement(name));
    if let Ok((_, p)) = start_at(s, pos, name) {
        lemma_event_advances(s, p, ExpectedView::EndElement(name));
    }
}

/// The rest of an array takes at least one item of the stream.
pub proof fn lemma_items_advance(s: Seq<XmlItemView>, pos: int, done: Seq<Value>)
    requires
        0 <= pos <= s.len(),
    ensures
        array_items_at(s, pos, done) matches Ok((_, p)) ==> pos < p <= s.len(),
    decreases s.len() - pos, 2int,
{
    let k = decisive(s, pos, ExpectedView::EndElement("array"@));
    lemma_decisive(s, pos, ExpectedView::EndElement("array"@));
    if !closes(s, k, "array"@) {
        lemma_value_advances(s, pos);
        if let Ok((v, p)) = value_at(s, pos) {
            lemma_items_advance(s, p, done.push(v));
        }
    }
}

/// The rest of a dictionary takes at least one item of the stream.
pub proof fn lemma_entries_advance(s: Seq<XmlItemView>, pos: int, done: Map<Seq<char>, Value>)
    requires
        0 <= pos <= s.len(),
    ensures
        dict_entries_at(s, pos, done) matches Ok((_, p)) ==> pos < p <= s.len(),
    decreases s.len() - pos, 2int,
{
    let k = decisive(s, pos, ExpectedView::EndElement("dict"@));
    lemma_decisive(s, pos, ExpectedView::EndElement("dict"@));
    if !closes(s, k, "dict"@) {
        lemma_content_advances(s, pos, "key"@);
        if let Ok((key, p)) = content_at(s, pos, "key"@) {
            lemma_value_advances(s, p);
            if let Ok((v, q)) = value_at(s, p) {
                lemma_entries_advance(s, q, done.insert(key, v));
            }
        }
    }
}

/// The names of the elements are different names.
pub proof fn lemma_element_names()
    ensures
        element_of("true"@) == Some(Element::Boolean),
        element_of("false"@) == Some(Element::Boolean),
        element_of("integer"@) == Some(Element::Integer),
        element_of("real"@) == Some(Element::Real),
        element_of("date"@) == Some(Element::Date),
        element_of("data"@) == Some(Element::Data),
        element_of("string"@) == Some(Element::String),
        element_of("array"@) == Some(Element::Array),
        element_of("dict"@) == Some(Element::Dict),
        element_of("key"@) is None,
        element_of("plist"@) is None,
{
    reveal_strlit("true");
    reveal_strlit("false");
    reveal_strlit("integer");
    reveal_strlit("real");
    reveal_strlit("date");
    reveal_strlit("data");
    reveal_strlit("string");
    reveal_strlit("array");
    reveal_strlit("dict");
    reveal_strlit("key");
    reveal_strlit("plist");
    assert("true"@.len() == 4 && "false"@.len() == 5 && "integer"@.len() == 7);
    assert("real"@.len() == 4 && "date"@.len() == 4 && "data"@.len() == 4);
    assert("string"@.len() == 6 && "array"@.len() == 5 && "dict"@.len() == 4);
    assert("key"@.len() == 3 && "plist"@.len() == 5);
    assert("array"@[0] != "false"@[0]);
    assert("plist"@[0] != "false"@[0]);
    assert("plist"@[0] != "array"@[0]);
    assert("real"@[0] != "date"@[0]);
    assert("real"@[0] != "data"@[0]);
    assert("date"@[3] != "data"@[3]);
    assert("true"@[0] != "real"@[0]);
    assert("true"@[0] != "date"@[0]);
    assert("true"@[0] != "data"@[0]);
    assert("true"@[0] != "dict"@[0]);
    assert("dict"@[1] != "date"@[1]);
    assert("dict"@[1] != "data"@[1]);
    assert("dict"@[0] != "real"@[0]);
}

/// An array without values, whatever text lies between its tags, is the
/// empty array: its closing tag ends it, and no failure comes of that.
pub proof fn lemma_empty_array(s: Seq<XmlItemView>, pos: int)
    requires
        0 <= pos < s.len(),
        s[pos] == Ok::<EventView, XmlErrorView>(EventView::StartElement("array"@)),
        closes(s, decisive(s, pos + 1, ExpectedView::EndElement("array"@)), "array"@),
    ensures
        value_at(s, pos) == Ok::<(Value, int), (ErrorKind, int)>(
            (
                Value::Array(Seq::empty()),
                decisive(s, pos + 1, ExpectedView::EndElement("array"@)) + 1,
            ),
        ),
        array_at(s, pos) == value_at(s, pos),
{
    lemma_element_names();
}

/// A dictionary without entries, whatever text lies between its tags, is the
/// empty dictionary: its closing tag ends it, and no failure comes of that.
pub proof fn lemma_empty_dict(s: Seq<XmlItemView>, pos: int)
    requires
        0 <= pos < s.len(),
        s[pos] == Ok::<EventView, XmlErrorView>(EventView::StartElement("dict"@)),
        closes(s, decisive(s, pos + 1, ExpectedView::EndElement("dict"@)), "dict"@),
    ensures
        value_at(s, pos) == Ok::<(Value, int), (ErrorKind, int)>(
            (
                Value::Dict(Map::empty()),
                decisive(s, pos + 1, ExpectedView::EndElement("dict"@)) + 1,
            ),
        ),
        dict_at(s, pos) == value_at(s, pos),
{
    lemma_element_names();
}

/// The text of a `key` element is the key, whatever it looks like: no key of
/// a markup dictionary is refused for its kind.
pub proof fn lemma_key_is_text(s: Seq<XmlItemView>, pos: int, text: Seq<char>)
    requires
        0 <= pos,
        pos + 2 < s.len(),
        s[pos] == Ok::<EventView, XmlErrorView>(EventView::StartElement("key"@)),
        s[pos + 1] == Ok::<EventView, XmlErrorView>(EventView::Characters(text)),
        s[pos + 2] == Ok::<EventView, XmlErrorView>(EventView::EndElement("key"@)),
    ensures
        content_at(s, pos, "key"@) == Ok::<(Seq<char>, int), (ErrorKind, int)>((text, pos + 3)),
{
    reveal_with_fuel(decisive, 3);
    reveal_with_fuel(passed_text, 2);
    assert(passed_text(s, pos + 1, pos + 2) =~= text);
}

/// Whether `t` is the stream `s` cut at `n`: it has the items of `s` before
/// `n`, and there it ends, or has a failure of the tokenizer that says that
/// its input ended too early.
pub open spec fn cut_at(s: Seq<XmlItemView>, t: Seq<XmlItemView>, n: int) -> bool {
    &&& 0 <= n <= s.len()
    &&& n <= t.len()
    &&& forall|j: int| 0 <= j < n ==> t[j] == s[j]
    &&& n == t.len() || (t[n] matches Err(e) && ends_input(e.message))
}

/// What reading gives of a stream cut at `n`, where it gives `whole` of the
/// stream as it is: the same where the reading ends before the cut, and the
/// end of the stream where not.
pub open spec fn cut_short<T>(whole: Reading<T>, cut: Reading<T>, n: int) -> bool {
    whole matches Ok((_, p)) ==> if p <= n {
        cut == whole
    } else {
        cut matches Err((e, _)) && e == ErrorKind::UnexpectedXmlEof
    }
}

/// Where a stream is cut, the search for a boundary stops.
pub proof fn lemma_decisive_cut(
    s: Seq<XmlItemView>,
    t: Seq<XmlItemView>,
    pos: int,
    expected: ExpectedView,
    n: int,
)
    requires
        cut_at(s, t, n),
        0 <= pos <= n,
    ensures
        decisive(t, pos, expected) == if decisive(s, pos, expected) < n {
            decisive(s, pos, expected)
        } else {
            n
        },
    decreases n - pos,
{
    if pos < n {
        assert(t[pos] == s[pos]);
        if s[pos] matches Ok(e) && matching(expected, e) is None {
            lemma_decisive_cut(s, t, pos + 1, expected, n);
        }
    } else {
        lemma_decisive(s, pos, expected);
    }
}

/// Before the cut, the text passed over is the same.
pub proof fn lemma_passed_text_cut(
    s: Seq<XmlItemView>,
    t: Seq<XmlItemView>,
    pos: int,
    k: int,
    n: int,
)
    requires
        cut_at(s, t, n),
        0 <= pos,
        k <= n,
    ensures
        passed_text(t, pos, k) == passed_text(s, pos, k),
    decreases k - pos,
{
    if pos < k {
        assert(t[k - 1] == s[k - 1]);
        lemma_passed_text_cut(s, t, pos, k - 1, n);
    }
}

/// Reading up to a boundary in a stream that is cut short.
pub proof fn lemma_event_cut(
    s: Seq<XmlItemView>,
    t: Seq<XmlItemView>,
    pos: int,
    expected: ExpectedView,
    n: int,
)
    requires
        cut_at(s, t, n),
        0 <= pos <= n,
    ensures
        cut_short(event_at(s, pos, expected), event_at(t, pos, expected), n),
{
    lemma_decisive_cut(s, t, pos, expected, n);
    lemma_decisive(s, pos, expected);
    let k = decisive(s, pos, expected);
    if k < n {
        assert(t[k] == s[k]);
        lemma_passed_text_cut(s, t, pos, k, n);
    }
}

/// Reading an element with text in it in a stream that is cut short.
pub proof fn lemma_content_cut(
    s: Seq<XmlItemView>,
    t: Seq<XmlItemView>,
    pos: int,
    name: Seq<char>,
    n: int,
)
    requires
        cut_at(s, t, n),
        0 <= pos <= n,
    ensures
        cut_short(content_at(s, pos, name), content_at(t, pos, name), n),
{
    lemma_event_cut(s, t, pos, ExpectedView::StartElement(name), n);
    lemma_event_advances(s, pos, ExpectedView::StartElement(name));
    if let Ok((_, p)) = start_at(s, pos, name) {
        lemma_event_advances(s, p, ExpectedView::EndElement(name));
        if p <= n {
            lemma_event_cut(s, t, p, ExpectedView::EndElement(name), n);
        }
    }
}

/// Text up to the cut of a stream holds no value.
pub proof fn lemma_text_to_the_cut(s: Seq<XmlItemView>, t: Seq<XmlItemView>, pos: int, n: int)
    requires
        cut_at(s, t, n),
        0 <= pos <= n,
        forall|j: int| pos <= j < n ==> (#[trigger] t[j]) matches Ok(EventView::Characters(_)),
    ensures
        value_at(t, pos) matches Err((e, _)) && e == ErrorKind::UnexpectedXmlEof,
    decreases n - pos,
{
    if pos < n {
        lemma_text_to_the_cut(s, t, pos + 1, n);
    }
}

/// Reading a value in a stream that is cut short.
pub proof fn lemma_value_cut(s: Seq<XmlItemView>, t: Seq<XmlItemView>, pos: int, n: int)
    requires
        cut_at(s, t, n),
        0 <= pos <= n,
    ensures
        cut_short(value_at(s, pos), value_at(t, pos), n),
    decreases s.len() - pos, 1int,
{
    lemma_value_advances(s, pos);
    if pos < n {
        assert(t[pos] == s[pos]);
        match s[pos] {
            Ok(EventView::StartElement(name)) => {
                match element_of(name) {
                    Some(Element::Boolean) => {
                        let expected = ExpectedView::StartElement("true"@);
                        lemma_decisive(s, pos, expected);
                        lemma_decisive_cut(s, t, pos, expected, n);
                        lemma_event_advances(s, pos + 1, ExpectedView::EndElement("true"@));
                        lemma_event_advances(s, pos + 1, ExpectedView::EndElement("false"@));
                        lemma_event_cut(s, t, pos + 1, ExpectedView::EndElement("true"@), n);
                        lemma_event_cut(s, t, pos + 1, ExpectedView::EndElement("false"@), n);
                    },
                    Some(Element::Array) => {
                        lemma_items_cut(s, t, pos + 1, Seq::empty(), n);
                    },
                    Some(Element::Dict) => {
                        lemma_entries_cut(s, t, pos + 1, Map::empty(), n);
                    },
                    Some(Element::Integer) => {
                        lemma_content_cut(s, t, pos, "integer"@, n);
                    },
                    Some(Element::Real) => {
                        lemma_content_cut(s, t, pos, "real"@, n);
                    },
                    Some(Element::Date) => {
                        lemma_content_cut(s, t, pos, "date"@, n);
                    },
                    Some(Element::Data) => {
                        lemma_content_cut(s, t, pos, "data"@, n);
                    },
                    Some(Element::String) => {
                        lemma_content_cut(s, t, pos, "string"@, n);
                    },
                    None => {},
                }
            },
            Ok(EventView::Characters(_)) => {
                lemma_value_cut(s, t, pos + 1, n);
            },
            _ => {},
        }
    }
}

/// Reading the rest of an array in a stream that is cut short.
pub proof fn lemma_items_cut(
    s: Seq<XmlItemView>,
    t: Seq<XmlItemView>,
    pos: int,
    done: Seq<Value>,
    n: int,
)
    requires
        cut_at(s, t, n),
        0 <= pos <= n,
    ensures
        cut_short(array_items_at(s, pos, done), array_items_at(t, pos, done), n),
    decreases s.len() - pos, 2int,
{
    let expected = ExpectedView::EndElement("array"@);
    let k = decisive(s, pos, expected);
    lemma_decisive(s, pos, expected);
    lemma_decisive_cut(s, t, pos, expected, n);
    if closes(s, k, "array"@) {
        if k >= n {
            assert forall|j: int| pos <= j < n implies (#[trigger] t[j]) matches Ok(
                EventView::Characters(_),
            ) by {
                assert(t[j] == s[j]);
                assert(s[j] matches Ok(e) && matching(expected, e) is None);
            }
            lemma_text_to_the_cut(s, t, pos, n);
        } else {
            assert(t[k] == s[k]);
        }
    } else {
        if k < n {
            assert(t[k] == s[k]);
        }
        lemma_value_cut(s, t, pos, n);
        lemma_value_advances(s, pos);
        if let Ok((v, p)) = value_at(s, pos) {
            lemma_items_advance(s, p, done.push(v));
            if p <= n {
                lemma_items_cut(s, t, p, done.push(v), n);
            }
        }
    }
}

/// Reading the rest of a dictionary in a stream that is cut short.
pub proof fn lemma_entries_cut(
    s: Seq<XmlItemView>,
    t: Seq<XmlItemView>,
    pos: int,
    done: Map<Seq<char>, Value>,
    n: int,
)
    requires
        cut_at(s, t, n),
        0 <= pos <= n,
    ensures
        cut_short(dict_entries_at(s, pos, done), dict_entries_at(t, pos, done), n),
    decreases s.len() - pos, 2int,
{
    let expected = ExpectedView::EndElement("dict"@);
    let k = decisive(s, pos, expected);
    lemma_decisive(s, pos, expected);
    lemma_decisive_cut(s, t, pos, expected, n);
    if closes(s, k, "dict"@) {
        if k >= n {
            let key = ExpectedView::StartElement("key"@);
            lemma_decisive_cut(s, t, pos, key, n);
            lemma_decisive(s, pos, key);
            assert(decisive(s, pos, key) >= n) by {
                if decisive(s, pos, key) < n {
                    let j = decisive(s, pos, key);
                    assert(s[j] matches Ok(e) && matching(expected, e) is None);
                }
            }
        } else {
            assert(t[k] == s[k]);
        }
    } else {
        if k < n {
            assert(t[k] == s[k]);
        }
        lemma_content_cut(s, t, pos, "key"@, n);
        lemma_content_advances(s, pos, "key"@);
        if let Ok((key, p)) = content_at(s, pos, "key"@) {
            lemma_value_advances(s, p);
            if let Ok((v, q)) = value_at(s, p) {
                lemma_entries_advance(s, q, done.insert(key, v));
                if p <= n {
                    lemma_value_cut(s, t, p, n);
                    if q <= n {
                        lemma_entries_cut(s, t, q, done.insert(key, v), n);
                    }
                }
            }
        }
    }
}

/// A document that ends before the closing tag of `plist` is at its end too
/// early. Where a stream holds a document, each stream that has a shorter
/// beginning of it, not reaching behind that tag, and then ends, or then has
/// the failure by which the tokenizer says that its input ended too early,
/// fails as a stream that ended while more was expected, and as nothing
/// else.
pub proof fn lemma_truncated_document(s: Seq<XmlItemView>, t: Seq<XmlItemView>, n: int)
    requires
        document_at(s, 0) matches Ok((_, p)) && n < p,
        cut_at(s, t, n),
    ensures
        document_value(t) == Err::<Value, ErrorKind>(ErrorKind::UnexpectedXmlEof),
{
    lemma_event_advances(s, 0, ExpectedView::StartDocument);
    lemma_event_cut(s, t, 0, ExpectedView::StartDocument, n);
    if let Ok((_, a)) = event_at(s, 0, ExpectedView::StartDocument) {
        lemma_event_advances(s, a, ExpectedView::StartElement("plist"@));
        if a <= n {
            lemma_event_cut(s, t, a, ExpectedView::StartElement("plist"@), n);
            if let Ok((_, b)) = start_at(s, a, "plist"@) {
                lemma_value_advances(s, b);
                if b <= n {
                    lemma_value_cut(s, t, b, n);
                    if let Ok((_, c)) = value_at(s, b) {
                        lemma_event_advances(s, c, ExpectedView::EndElement("plist"@));
                        if c <= n {
                            lemma_event_cut(s, t, c, ExpectedView::EndElement("plist"@), n);
                        }
                    }
                }
            }
        }
    }
}

/// The kind of value that an element of this name holds, if it holds one.
pub fn tag_of(name: &str) -> (r: Option<Element>)
    ensures
        r == element_of(name@),
{
    if same_text(name, "true") || same_text(name, "false") {
        Some(Element::Boolean)
    } else if same_text(name, "integer") {
        Some(Element::Integer)
    } else if same_text(name, "real") {
        Some(Element::Real)
    } else if same_text(name, "date") {
        Some(Element::Date)
    } else if same_text(name, "data") {
        Some(Element::Data)
    } else if same_text(name, "string") {
        Some(Element::String)
    } else if same_text(name, "array") {
        Some(Element::Array)
    } else if same_text(name, "dict") {
        Some(Element::Dict)
    } else {
        None
    }
}

/// The integer value that a parsed text gives, or the failure to parse it
/// with its cause.
pub fn integer_from(parsed: Result<i64, std::num::ParseIntError>) -> (r: Result<Plist, Error>)
    ensures
        match parsed {
            Ok(v) => yields(r, Ok(Value::Integer(v))),
            Err(cause) => r == Err::<Plist, Error>(Error::IntError(cause)),
        },
{
    match parsed {
        Ok(v) => Ok(Plist::Integer(v)),
        Err(e) => Err(Error::IntError(e)),
    }
}

/// The instant that a parsed timestamp gives, or the failure to parse it
/// with its cause.
pub fn date_from(parsed: Result<(i64, u32), chrono::format::ParseError>) -> (r: Result<
    Plist,
    Error,
>)
    ensures
        match parsed {
            Ok((secs, nanos)) => yields(r, Ok(Value::DateTime(instant_of(secs, nanos)))),
            Err(cause) => r == Err::<Plist, Error>(Error::DateError(cause)),
        },
{
    match parsed {
        Ok((secs, nanos)) => Ok(
            Plist::DateTime(
                Date {
                    secs: secs as i128 + (nanos / 1_000_000_000) as i128,
                    nanos: nanos % 1_000_000_000,
                },
            ),
        ),
        Err(e) => Err(Error::DateError(e)),
    }
}

/// The data value that decoded bytes give, or the failure to decode them
/// with its cause.
pub fn data_from(decoded: Result<Vec<u8>, rustc_serialize::base64::FromBase64Error>) -> (r: Result<
    Plist,
    Error,
>)
    ensures
        match decoded {
            Ok(bytes) => yields(r, Ok(Value::Data(bytes@))),
            Err(cause) => r == Err::<Plist, Error>(Error::Base64Error(cause)),
        },
{
    match decoded {
        Ok(bytes) => Ok(Plist::Data(bytes)),
        Err(e) => Err(Error::Base64Error(e)),
    }
}

/// The real value that a text gives, where it is written as a real number.
pub fn real_from(text: String) -> (r: Result<Plist, Error>)
    ensures
        yields(r, real_of(text@)),
{
    if is_real(text.as_str()) {
        Ok(Plist::Real(Real::Decimal(text)))
    } else {
        Err(Error::FloatError(text))
    }
}

/// Reads a `true` or `false` element.
pub fn xml_boolean(input: &mut Events) -> (r: Result<Plist, Error>)
    ensures
        reads(old(input), final(input), boolean_at(old(input).items(), old(input).position()), r),
{
    let ghost s = input.items();
    let ghost start = input.position();
    let ghost expected = ExpectedView::StartElement("true"@);
    let _ = input.remaining();
    loop
        invariant
            s == old(input).items(),
            start == old(input).position(),
            input.items() == s,
            0 <= start <= input.position() <= s.len(),
            expected == ExpectedView::StartElement("true"@),
            decisive(s, start, expected) == decisive(s, input.position(), expected),
        decreases s.len() - input.position(),
    {
        match input.next() {
            None => {
                return Err(Error::UnexpectedXmlEof);
            },
            Some(Err(e)) => {
                return Err(failure_of(e));
            },
            Some(Ok(e)) => {
                let kind: u8 = match &e {
                    Event::StartElement(name) => if same_text(name.as_str(), "true") {
                        1
                    } else if same_text(name.as_str(), "false") {
                        2
                    } else {
                        0
                    },
                    Event::Characters(_) => 3,
                    _ => 0,
                };
                if kind == 1 {
                    return match xml_end(input, "true") {
                        Ok(_) => Ok(Plist::Boolean(true)),
                        Err(e) => Err(e),
                    };
                } else if kind == 2 {
                    return match xml_end(input, "false") {
                        Ok(_) => Ok(Plist::Boolean(false)),
                        Err(e) => Err(e),
                    };
                } else if kind == 0 {
                    return Err(Error::UnexpectedXmlEvent(e));
                }
            },
        }
    }
}

/// Reads an `integer` element.
pub fn xml_integer(input: &mut Events) -> (r: Result<Plist, Error>)
    ensures
        reads(old(input), final(input), integer_at(old(input).items(), old(input).position()), r),
{
    match xml_content(input, "integer") {
        Ok(text) => integer_from(parse_integer(text.as_str())),
        Err(e) => Err(e),
    }
}

/// Reads a `real` element.
pub fn xml_real(input: &mut Events) -> (r: Result<Plist, Error>)
    ensures
        reads(old(input), final(input), real_at(old(input).items(), old(input).position()), r),
{
    match xml_content(input, "real") {
        Ok(text) => real_from(text),
        Err(e) => Err(e),
    }
}

/// Reads a `date` element.
pub fn xml_date(input: &mut Events) -> (r: Result<Plist, Error>)
    ensures
        reads(old(input), final(input), date_at(old(input).items(), old(input).position()), r),
{
    match xml_content(input, "date") {
        Ok(text) => date_from(parse_timestamp(text.as_str())),
        Err(e) => Err(e),
    }
}

/// Reads a `data` element.
pub fn xml_data(input: &mut Events) -> (r: Result<Plist, Error>)
    ensures
        reads(old(input), final(input), data_at(old(input).items(), old(input).position()), r),
{
    match xml_content(input, "data") {
        Ok(text) => {
            let stripped = strip_white_space(text.as_str());
            data_from(decode_base64(stripped.as_str()))
        },
        Err(e) => Err(e),
    }
}

/// Reads a `string` element.
pub fn xml_string(input: &mut Events) -> (r: Result<Plist, Error>)
    ensures
        reads(old(input), final(input), string_at(old(input).items(), old(input).position()), r),
{
    match xml_content(input, "string") {
        Ok(text) => Ok(Plist::String(text)),
        Err(e) => Err(e),
    }
}

/// What the next item of a stream is to the reader of a container.
enum Ahead {
    /// The closing tag of the container.
    Close,
    /// A character run.
    Text,
    /// Anything else, or nothing.
    Other,
}

/// What the next item of `input` is to the reader of the container `name`.
fn look_ahead(input: &Events, name: &str) -> (r: Ahead)
    ensures
        0 <= input.position() <= input.items().len(),
        r is Close <==> closes(input.items(), input.position(), name@),
        r is Text <==> (input.position() < input.items().len() && input.items()[input.position()]
            matches Ok(EventView::Characters(_))),
{
    match input.peek() {
        Some(Ok(Event::EndElement(n))) => if same_text(n.as_str(), name) {
            Ahead::Close
        } else {
            Ahead::Other
        },
        Some(Ok(Event::Characters(_))) => Ahead::Text,
        _ => Ahead::Other,
    }
}

/// Reads an `array` element: its opening tag, its values, its closing tag.
pub fn xml_array(input: &mut Events) -> (r: Result<Plist, Error>)
    ensures
        reads(old(input), final(input), array_at(old(input).items(), old(input).position()), r),
    decreases old(input).items().len() - old(input).position(), 0int,
{
    let ghost s = input.items();
    let ghost start = input.position();
    let _ = input.remaining();
    match xml_start(input, "array") {
        Err(e) => {
            return Err(e);
        },
        Ok(_) => {},
    }
    let ghost first = input.position();
    proof {
        lemma_event_advances(s, start, ExpectedView::StartElement("array"@));
    }
    let mut array: Vec<Plist> = Vec::new();
    proof {
        assert(values_of(array@) =~= Seq::<Value>::empty());
    }
    loop
        invariant
            s == old(input).items(),
            start == old(input).position(),
            input.items() == s,
            0 <= start < first <= input.position() <= s.len(),
            start_at(s, start, "array"@) == Ok::<((), int), (ErrorKind, int)>(((), first)),
            array_items_at(s, first, Seq::empty()) == array_items_at(
                s,
                input.position(),
                values_of(array@),
            ),
        decreases s.len() - input.position(),
    {
        let ghost pos = input.position();
        let ghost done = values_of(array@);
        proof {
            lemma_decisive(s, pos, ExpectedView::EndElement("array"@));
        }
        match look_ahead(input, "array") {
            Ahead::Close => {
                let _ = input.next();
                proof {
                    lemma_array_view(array);
                }
                return Ok(Plist::Array(array));
            },
            Ahead::Text => {
                let _ = input.next();
                proof {
                    lemma_value_advances(s, pos);
                    lemma_value_advances(s, pos + 1);
                    lemma_decisive(s, pos + 1, ExpectedView::EndElement("array"@));
                }
            },
            Ahead::Other => {
                proof {
                    lemma_value_advances(s, pos);
                }
                match xml_object(input) {
                    Ok(o) => {
                        array.push(o);
                        proof {
                            assert(values_of(array@) =~= done.push(o@));
                        }
                    },
                    Err(e) => {
                        return Err(e);
                    },
                }
            },
        }
    }
}

/// Reads a `dict` element: its opening tag, its keys, each with the value
/// that follows it, and its closing tag.
pub fn xml_dict(input: &mut Events) -> (r: Result<Plist, Error>)
    ensures
        reads(old(input), final(input), dict_at(old(input).items(), old(input).position()), r),
    decreases old(input).items().len() - old(input).position(), 0int,
{
    let ghost s = input.items();
    let ghost start = input.position();
    let _ = input.remaining();
    match xml_start(input, "dict") {
        Err(e) => {
            return Err(e);
        },
        Ok(_) => {},
    }
    let ghost first = input.position();
    proof {
        lemma_event_advances(s, start, ExpectedView::StartElement("dict"@));
    }
    let mut dict = Dictionary::new();
    loop
        invariant
            s == old(input).items(),
            start == old(input).position(),
            input.items() == s,
            0 <= start < first <= input.position() <= s.len(),
            start_at(s, start, "dict"@) == Ok::<((), int), (ErrorKind, int)>(((), first)),
            dict_entries_at(s, first, Map::empty()) == dict_entries_at(
                s,
                input.position(),
                dict@,
            ),
        decreases s.len() - input.position(),
    {
        let ghost pos = input.position();
        proof {
            lemma_decisive(s, pos, ExpectedView::EndElement("dict"@));
        }
        match look_ahead(input, "dict") {
            Ahead::Close => {
                let _ = input.next();
                return Ok(Plist::Dict(dict));
            },
            Ahead::Text => {
                let _ = input.next();
                proof {
                    lemma_decisive(s, pos + 1, ExpectedView::EndElement("dict"@));
                    lemma_decisive(s, pos, ExpectedView::StartElement("key"@));
                    lemma_decisive(s, pos + 1, ExpectedView::StartElement("key"@));
                    lemma_content_advances(s, pos, "key"@);
                    lemma_content_advances(s, pos + 1, "key"@);
                }
            },
            Ahead::Other => {
                proof {
                    lemma_content_advances(s, pos, "key"@);
                }
                let key = match xml_content(input, "key") {
                    Ok(key) => key,
                    Err(e) => {
                        return Err(e);
                    },
                };
                proof {
                    lemma_value_advances(s, input.position());
                }
                match xml_object(input) {
                    Ok(value) => {
                        dict.insert(key, value);
                    },
                    Err(e) => {
                        return Err(e);
                    },
                }
            },
        }
    }
}

/// What the next item of a stream is to the reader of a value.
enum Opening {
    /// The opening tag of an element of this kind.
    Element(Element),
    /// The opening tag of an element of this name, which holds no value.
    Unsupported(String),
    /// Anything else, or nothing.
    Other,
}

/// Reads one value: the element that the next structural event opens.
pub fn xml_object(input: &mut Events) -> (r: Result<Plist, Error>)
    ensures
        reads(old(input), final(input), value_at(old(input).items(), old(input).position()), r),
    decreases old(input).items().len() - old(input).position(), 1int,
{
    let ghost s = input.items();
    let ghost start = input.position();
    let _ = input.remaining();
    loop
        invariant
            s == old(input).items(),
            start == old(input).position(),
            input.items() == s,
            0 <= start <= input.position() <= s.len(),
            value_at(s, start) == value_at(s, input.position()),
        decreases s.len() - input.position(),
    {
        let ghost pos = input.position();
        let opening = match input.peek() {
            Some(Ok(Event::StartElement(name))) => match tag_of(name.as_str()) {
                Some(element) => Opening::Element(element),
                None => Opening::Unsupported(name.clone()),
            },
            _ => Opening::Other,
        };
        match opening {
            Opening::Element(element) => {
                proof {
                    lemma_decisive(s, pos, ExpectedView::StartElement("true"@));
                    lemma_decisive(s, pos, ExpectedView::StartElement("array"@));
                    lemma_decisive(s, pos, ExpectedView::StartElement("dict"@));
                }
                return match element {
                    Element::Boolean => xml_boolean(input),
                    Element::Integer => xml_integer(input),
                    Element::Real => xml_real(input),
                    Element::Date => xml_date(input),
                    Element::Data => xml_data(input),
                    Element::String => xml_string(input),
                    Element::Array => xml_array(input),
                    Element::Dict => xml_dict(input),
                };
            },
            Opening::Unsupported(name) => {
                return Err(Error::XmlObjectNotSupported(name));
            },
            Opening::Other => {
                match input.next() {
                    Some(Ok(e)) => {
                        let text = match &e {
                            Event::Characters(_) => true,
                            _ => false,
                        };
                        if !text {
                            return Err(Error::UnexpectedXmlEvent(e));
                        }
                    },
                    Some(Err(e)) => {
                        return Err(failure_of(e));
                    },
                    None => {
                        return Err(Error::UnexpectedXmlEof);
                    },
                }
            },
        }
    }
}

/// Decodes the document that a stream of items holds: its beginning, the
/// opening tag of `plist`, one value, and the closing tag of `plist`.
pub fn from_xml_events(items: Vec<XmlItem>) -> (r: Result<Plist, Error>)
    ensures
        yields(r, document_value(stream_view(items@))),
{
    let mut input = Events::new(items);
    match xml_event(&mut input, Expected::StartDocument) {
        Err(e) => {
            return Err(e);
        },
        Ok(_) => {},
    }
    match xml_start(&mut input, "plist") {
        Err(e) => {
            return Err(e);
        },
        Ok(_) => {},
    }
    let object = match xml_object(&mut input) {
        Err(e) => {
            return Err(e);
        },
        Ok(object) => object,
    };
    match xml_end(&mut input, "plist") {
        Err(e) => Err(e),
        Ok(_) => Ok(object),
    }
}

/// The value of the markup document that `data` holds: the document that
/// the tokenizer's items of it hold.
pub open spec fn markup_value(data: Seq<u8>) -> Result<Value, ErrorKind> {
    document_value(xml_items_of(data))
}

/// Decodes the markup document that the source holds from its position on.
pub fn from_xml_reader(input: &mut Reader) -> (r: Result<Plist, Error>)
    ensures
        final(input).data() == old(input).data(),
        yields(r, markup_value(rest_of(old(input).data(), old(input).position()))),
{
    let bytes = input.read_to_end();
    from_xml_events(tokenize(bytes))
}

} // verus!
