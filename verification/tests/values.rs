use plist::{Date, Dictionary, Error, Event, IoErrorKind, Plist, Reader, Real, XmlError};

#[test]
fn a_dictionary_holds_each_key_once() {
    let mut dict = Dictionary::new();
    assert_eq!(dict.len(), 0);
    assert!(dict.get("a").is_none());
    dict.insert("a".to_string(), Plist::Integer(1));
    dict.insert("b".to_string(), Plist::Integer(2));
    dict.insert("a".to_string(), Plist::Integer(3));
    assert_eq!(dict.len(), 2);
    assert_eq!(dict.get("a"), Some(&Plist::Integer(3)));
    assert_eq!(dict.get("b"), Some(&Plist::Integer(2)));
    assert!(dict.get("c").is_none());
    assert!(dict.get("").is_none());
    let entries = dict.entries();
    assert_eq!(entries.len(), 2);
    assert!(entries.iter().any(|(k, v)| k == "a" && *v == Plist::Integer(3)));
    assert!(entries.iter().any(|(k, v)| k == "b" && *v == Plist::Integer(2)));
}

#[test]
fn dictionaries_are_equal_in_any_order() {
    let mut one = Dictionary::new();
    one.insert("a".to_string(), Plist::Integer(1));
    one.insert("b".to_string(), Plist::Integer(2));
    let mut other = Dictionary::new();
    other.insert("b".to_string(), Plist::Integer(2));
    other.insert("a".to_string(), Plist::Integer(1));
    assert!(one == other);
    assert!(one.same(&other));
    other.insert("a".to_string(), Plist::Integer(0));
    assert!(one != other);
    other.insert("a".to_string(), Plist::Integer(1));
    other.insert("c".to_string(), Plist::Integer(1));
    assert!(one != other);
    assert!(other != one);
    assert!(Dictionary::new() == Dictionary::new());
    assert!(one != Dictionary::new());
}

#[test]
fn dictionaries_of_equal_size_and_other_keys_differ() {
    let mut one = Dictionary::new();
    one.insert("a".to_string(), Plist::Integer(1));
    let mut other = Dictionary::new();
    other.insert("b".to_string(), Plist::Integer(1));
    assert!(one != other);
}

#[test]
fn arrays_are_equal_in_the_same_order() {
    let a = Plist::Array(vec![Plist::Integer(1), Plist::Integer(2)]);
    let b = Plist::Array(vec![Plist::Integer(2), Plist::Integer(1)]);
    let c = Plist::Array(vec![Plist::Integer(1)]);
    assert!(a != b);
    assert!(a != c);
    assert!(a == Plist::Array(vec![Plist::Integer(1), Plist::Integer(2)]));
    assert!(Plist::Array(vec![]) == Plist::Array(vec![]));
    assert!(Plist::Array(vec![]) != Plist::Dict(Dictionary::new()));
}

#[test]
fn leaves_are_equal_where_kind_and_content_are() {
    let leaves = || {
        vec![
            Plist::Boolean(true),
            Plist::Boolean(false),
            Plist::Data(vec![]),
            Plist::Data(vec![1]),
            Plist::Data(vec![1, 2]),
            Plist::DateTime(Date { secs: 1, nanos: 0 }),
            Plist::DateTime(Date { secs: 1, nanos: 1 }),
            Plist::DateTime(Date { secs: -1, nanos: 0 }),
            Plist::Real(Real::Bits(1)),
            Plist::Real(Real::Bits(0)),
            Plist::Real(Real::Decimal("1".to_string())),
            Plist::Real(Real::Decimal("1.0".to_string())),
            Plist::Integer(1),
            Plist::Integer(0),
            Plist::String("1".to_string()),
            Plist::String(String::new()),
            Plist::Array(vec![]),
            Plist::Dict(Dictionary::new()),
        ]
    };
    let one = leaves();
    let other = leaves();
    for (i, a) in one.iter().enumerate() {
        for (j, b) in other.iter().enumerate() {
            assert_eq!(a == b, i == j, "{:?} and {:?}", a, b);
            assert_eq!(a.same(b), i == j);
        }
    }
}

#[test]
fn nested_values_are_compared_in_depth() {
    let make = |leaf: i64| {
        let mut inner = Dictionary::new();
        inner.insert("x".to_string(), Plist::Array(vec![Plist::Integer(leaf)]));
        let mut outer = Dictionary::new();
        outer.insert("inner".to_string(), Plist::Dict(inner));
        Plist::Array(vec![Plist::Dict(outer)])
    };
    assert!(make(1) == make(1));
    assert!(make(1) != make(2));
}

#[test]
fn a_reader_reads_what_it_holds() {
    let bytes = [1u8, 2, 3, 4, 5];
    let mut input = Reader::new(&bytes);
    assert_eq!(input.len(), 5);
    assert_eq!(input.read_exact(2).unwrap(), &[1, 2]);
    assert_eq!(input.read_exact(0).unwrap(), &[] as &[u8]);
    assert!(input.read_exact(4).is_err());
    assert_eq!(input.read_exact(3).unwrap(), &[3, 4, 5]);
    assert!(input.read_exact(1).is_err());
    input.seek(1);
    assert_eq!(input.read_to_end(), &[2, 3, 4, 5]);
    assert_eq!(input.read_to_end(), &[] as &[u8]);
    input.seek(9);
    assert_eq!(input.read_to_end(), &[] as &[u8]);
    assert!(input.read_exact(0).is_err());
    input.seek(u64::MAX);
    assert!(input.read_exact(1).is_err());
}

#[test]
fn a_copy_has_the_same_value() {
    let mut inner = Dictionary::new();
    inner.insert("x".to_string(), Plist::Array(vec![Plist::Integer(1), Plist::Data(vec![1, 2])]));
    inner.insert("y".to_string(), Plist::Real(Real::Decimal("1.5".to_string())));
    inner.insert("z".to_string(), Plist::DateTime(Date { secs: 5, nanos: 6 }));
    let value = Plist::Array(vec![Plist::Dict(inner), Plist::String("s".to_string())]);
    let copy = value.clone();
    assert_eq!(copy, value);
    assert_eq!(value.duplicate(), value);
    let real = Real::Bits(7);
    assert!(matches!(real.clone(), Real::Bits(7)));
}

#[test]
fn errors_describe_themselves() {
    let cases = vec![
        (Error::InvalidMagicBytes, "Magic bytes are incorrect"),
        (Error::InvalidTrailer, "Trailer is invalid"),
        (Error::VersionNotSupported(None), "Version not supported"),
        (Error::VersionNotSupported(Some("01".to_string())), "Version not supported"),
        (Error::InvalidKeyObject, "Key object is not a string"),
        (Error::InvalidBoolean, "Boolean object has an invalid value"),
        (Error::InvalidIntegerSize, "Integer size is not supported"),
        (Error::ObjectNotSupported(7), "Object type is not supported"),
        (Error::InvalidObjectReference, "Object reference is outside the table"),
        (Error::CyclicReference, "Object contains itself"),
        (Error::UnexpectedXmlEof, "The XML stream ends unexpectedly"),
        (Error::UnexpectedXmlEvent(Event::EndDocument), "The XML event is unexpected"),
        (Error::XmlObjectNotSupported("set".to_string()), "The XML object is not supported"),
        (
            Error::XmlError(XmlError { row: 1, column: 2, message: "broken".to_string() }),
            "broken",
        ),
        (Error::IoError(IoErrorKind::UnexpectedEof), "failed to fill whole buffer"),
        (Error::FloatError("x".to_string()), "invalid float literal"),
        (Error::FloatError(String::new()), "cannot parse float from empty string"),
        (Error::IntError("x".parse::<i64>().unwrap_err()), "invalid digit found in string"),
        (
            Error::Utf8Error(std::str::from_utf8(&[0xFF]).unwrap_err()),
            "invalid utf-8 sequence of 1 bytes from index 0",
        ),
        (Error::Utf16Error(String::from_utf16(&[0xD800]).unwrap_err()), "invalid utf-16: lone surrogate found"),
    ];
    for (error, text) in cases {
        assert_eq!(error.description(), text);
    }
    assert_eq!("x".parse::<f64>().unwrap_err().to_string(), "invalid float literal");
    assert_eq!("".parse::<f64>().unwrap_err().to_string(), "cannot parse float from empty string");
}
