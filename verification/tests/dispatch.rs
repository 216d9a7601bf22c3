use plist::reader::from_reader;
use plist::reader::xml::from_xml_reader;
use plist::{Date, Dictionary, Error, IoErrorKind, Plist, Reader, Real};

fn binary(objects: &[Vec<u8>], root: u64) -> Vec<u8> {
    let mut bytes = b"bplist00".to_vec();
    let mut offsets = Vec::new();
    for object in objects {
        offsets.push(bytes.len() as u8);
        bytes.extend_from_slice(object);
    }
    let table = bytes.len() as u64;
    bytes.extend_from_slice(&offsets);
    bytes.push(1);
    bytes.push(1);
    bytes.extend_from_slice(&(objects.len() as u64).to_be_bytes());
    bytes.extend_from_slice(&root.to_be_bytes());
    bytes.extend_from_slice(&table.to_be_bytes());
    bytes
}

fn text(s: &str) -> Vec<u8> {
    let mut bytes = vec![0x50 | s.len() as u8];
    bytes.extend_from_slice(s.as_bytes());
    bytes
}

const MARKUP: &str = "<?xml version=\"1.0\" encoding=\"UTF-8\"?>
<!DOCTYPE plist PUBLIC \"-//Apple//DTD PLIST 1.0//EN\" \"http://www.apple.com/DTDs/PropertyList-1.0.dtd\">
<plist version=\"1.0\">
<dict>
    <key>name</key>
    <string>caf\u{e9}</string>
    <key>items</key>
    <array>
        <integer>1</integer>
        <integer>-2</integer>
        <true/>
        <false/>
        <data>AQID</data>
        <array/>
        <dict/>
    </array>
    <key>when</key>
    <date>2017-03-27T08:01:18Z</date>
</dict>
</plist>";

fn binary_of_the_same() -> Vec<u8> {
    let mut when = vec![0x33];
    when.extend_from_slice(&512_294_478.0f64.to_be_bytes());
    let mut minus_two = vec![0x10, 0x0F, 0x03];
    minus_two.extend_from_slice(&(-2i64).to_be_bytes());
    binary(
        &[
            vec![0xD3, 1, 2, 3, 4, 6, 5],
            text("when"),
            text("items"),
            text("name"),
            when,
            vec![0x64, 0x00, 0x63, 0x00, 0x61, 0x00, 0x66, 0x00, 0xE9],
            vec![0xA7, 7, 8, 9, 10, 11, 12, 13],
            vec![0x10, 0x01],
            minus_two,
            vec![0x09],
            vec![0x08],
            vec![0x43, 1, 2, 3],
            vec![0xA0],
            vec![0xD0],
        ],
        0,
    )
}

fn expected() -> Plist {
    let mut dict = Dictionary::new();
    dict.insert("name".to_string(), Plist::String("caf\u{e9}".to_string()));
    dict.insert(
        "items".to_string(),
        Plist::Array(vec![
            Plist::Integer(1),
            Plist::Integer(-2),
            Plist::Boolean(true),
            Plist::Boolean(false),
            Plist::Data(vec![1, 2, 3]),
            Plist::Array(vec![]),
            Plist::Dict(Dictionary::new()),
        ]),
    );
    dict.insert("when".to_string(), Plist::DateTime(Date { secs: 1_490_601_678, nanos: 0 }));
    Plist::Dict(dict)
}

#[test]
fn test_equality() {
    let bytes = binary_of_the_same();
    let mut binary_input = Reader::new(&bytes);
    let mut markup_input = Reader::new(MARKUP.as_bytes());
    let from_binary = Plist::from_reader(&mut binary_input).unwrap();
    let from_markup = Plist::from_reader(&mut markup_input).unwrap();
    assert_eq!(from_markup, from_binary);
    assert_eq!(from_binary, expected());
}

#[test]
fn reals_keep_their_encoding() {
    let mut double = vec![0x23];
    double.extend_from_slice(&1.5f64.to_be_bytes());
    let bytes = binary(&[double], 0);
    let mut binary_input = Reader::new(&bytes);
    let markup = "<plist><real>1.5</real></plist>";
    let mut markup_input = Reader::new(markup.as_bytes());
    let from_binary = from_reader(&mut binary_input).unwrap();
    let from_markup = from_reader(&mut markup_input).unwrap();
    assert_eq!(from_binary, Plist::Real(Real::Bits(0x3FF8_0000_0000_0000)));
    assert_eq!(from_markup, Plist::Real(Real::Decimal("1.5".to_string())));
    match (from_binary, from_markup) {
        (Plist::Real(Real::Bits(bits)), Plist::Real(Real::Decimal(text))) => {
            assert_eq!(f64::from_bits(bits), text.parse::<f64>().unwrap());
        }
        _ => unreachable!(),
    }
}

#[test]
fn markup_is_read_where_the_magic_bytes_are_missing() {
    let mut auto = Reader::new(MARKUP.as_bytes());
    auto.seek(40);
    let mut direct = Reader::new(MARKUP.as_bytes());
    assert_eq!(from_reader(&mut auto).unwrap(), from_xml_reader(&mut direct).unwrap());
    let mut again = Reader::new(MARKUP.as_bytes());
    assert_eq!(from_reader(&mut again).unwrap(), expected());
}

#[test]
fn a_binary_document_is_never_read_as_markup() {
    let mut bytes = b"bplist00".to_vec();
    bytes.extend_from_slice(b"<plist><true/></plist>");
    assert!(bytes.len() >= 26);
    let mut input = Reader::new(&bytes);
    assert!(matches!(from_reader(&mut input), Err(Error::InvalidIntegerSize)));
    let mut short = b"bplist00".to_vec();
    short.extend_from_slice(b"<plist><true/>");
    let mut input = Reader::new(&short);
    assert!(matches!(from_reader(&mut input), Err(Error::InvalidTrailer)));
    let mut table = b"bplist00".to_vec();
    table.extend_from_slice(&[0x09, 1, 1]);
    table.extend_from_slice(&[0xFF; 24]);
    let mut input = Reader::new(&table);
    assert!(matches!(from_reader(&mut input), Err(Error::InvalidTrailer)));
    let mut version = b"bplist01".to_vec();
    version.extend_from_slice(b"<plist><true/></plist>");
    let mut input = Reader::new(&version);
    assert!(matches!(from_reader(&mut input), Err(Error::VersionNotSupported(Some(v))) if v == "01"));
    let mut object = binary(&[vec![0x70]], 0);
    object.extend_from_slice(b"");
    let mut input = Reader::new(&object);
    assert!(matches!(from_reader(&mut input), Err(Error::ObjectNotSupported(7))));
}

#[test]
fn failures_of_the_markup_reader_stand_after_the_fallback() {
    let mut input = Reader::new(b"<plist><bogus/></plist>");
    assert!(matches!(from_reader(&mut input), Err(Error::XmlObjectNotSupported(n)) if n == "bogus"));
    let mut input = Reader::new(b"<plist><integer>x</integer></plist>");
    assert!(matches!(from_reader(&mut input), Err(Error::IntError(_))));
    let mut input = Reader::new(b"<plist><array><true/></array>");
    assert!(matches!(from_reader(&mut input), Err(Error::UnexpectedXmlEof)));
    let mut input = Reader::new(b"<plist><array><true/></dict></plist>");
    assert!(matches!(from_reader(&mut input), Err(Error::XmlError(_))));
}

#[test]
fn a_source_shorter_than_the_magic_bytes_cannot_be_read() {
    let mut input = Reader::new(b"<a/>");
    assert!(matches!(from_reader(&mut input), Err(Error::IoError(IoErrorKind::UnexpectedEof))));
}
