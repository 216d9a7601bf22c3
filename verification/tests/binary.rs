use plist::reader::binary::{
    array, boolean, data, date, dict, from_binary_reader, integer, object, read_int, read_sized,
    real_number, sized_ints, string, string_from, trailer, utf16_string, utf16_string_from,
};
use plist::{Date, Dictionary, Error, IoErrorKind, Plist, Reader, Real};

/// A binary document with these objects, offsets of two bytes and
/// references of one byte.
fn document(objects: &[Vec<u8>], root: u64) -> Vec<u8> {
    let mut bytes = b"bplist00".to_vec();
    let mut offsets = Vec::new();
    for object in objects {
        offsets.push(bytes.len() as u16);
        bytes.extend_from_slice(object);
    }
    let table = bytes.len() as u64;
    for offset in offsets {
        bytes.extend_from_slice(&offset.to_be_bytes());
    }
    bytes.push(2);
    bytes.push(1);
    bytes.extend_from_slice(&(objects.len() as u64).to_be_bytes());
    bytes.extend_from_slice(&root.to_be_bytes());
    bytes.extend_from_slice(&table.to_be_bytes());
    bytes
}

fn decode(bytes: &[u8]) -> Result<Plist, Error> {
    let mut input = Reader::new(bytes);
    from_binary_reader(&mut input)
}

fn wide_integer(value: i64) -> Vec<u8> {
    let mut bytes = vec![0x10, 0x0F, 0x03];
    bytes.extend_from_slice(&value.to_be_bytes());
    bytes
}

fn text(s: &str) -> Vec<u8> {
    assert!(s.len() < 15);
    let mut bytes = vec![0x50 | s.len() as u8];
    bytes.extend_from_slice(s.as_bytes());
    bytes
}

#[test]
fn read_int_takes_the_low_half_or_a_sized_value() {
    let bytes = [0xA3, 0x5F, 0x11, 0x01, 0x02, 0x0F, 0x03, 1, 2, 3, 4, 5, 6, 7, 8];
    let mut input = Reader::new(&bytes);
    assert!(matches!(read_int(&mut input), Ok(3)));
    assert!(matches!(read_int(&mut input), Ok(0x0102)));
    assert!(matches!(read_int(&mut input), Ok(0x0102_0304_0506_0708)));
    assert!(matches!(read_int(&mut input), Err(Error::IoError(IoErrorKind::UnexpectedEof))));
}

#[test]
fn read_int_holds_fourteen_in_its_marker() {
    let bytes = [0x0E, 0x00];
    let mut input = Reader::new(&bytes);
    assert!(matches!(read_int(&mut input), Ok(14)));
    assert!(matches!(read_int(&mut input), Ok(0)));
}

#[test]
fn read_sized_reads_as_many_bytes_as_the_marker_names() {
    let bytes = [0x20, 0xAA, 0x21, 0xBB, 0xCC, 0x22, 1, 2, 3, 4, 0x23, 1, 2, 3, 4, 5, 6, 7, 8];
    let mut input = Reader::new(&bytes);
    assert!(matches!(read_sized(&mut input), Ok((b, 1)) if b == [0xAA]));
    assert!(matches!(read_sized(&mut input), Ok((b, 2)) if b == [0xBB, 0xCC]));
    assert!(matches!(read_sized(&mut input), Ok((b, 4)) if b == [1, 2, 3, 4]));
    assert!(matches!(read_sized(&mut input), Ok((b, 8)) if b == [1, 2, 3, 4, 5, 6, 7, 8]));
}

#[test]
fn read_sized_refuses_sizes_above_eight() {
    for exponent in 4..16u8 {
        let bytes = [0x20 | exponent; 200];
        let mut input = Reader::new(&bytes);
        assert!(matches!(read_sized(&mut input), Err(Error::InvalidIntegerSize)));
    }
}

#[test]
fn read_sized_fails_at_the_end_of_the_source() {
    let bytes = [0x22, 1, 2, 3];
    let mut input = Reader::new(&bytes);
    assert!(matches!(read_sized(&mut input), Err(Error::IoError(IoErrorKind::UnexpectedEof))));
    let mut empty = Reader::new(&[]);
    assert!(matches!(read_sized(&mut empty), Err(Error::IoError(IoErrorKind::UnexpectedEof))));
}

#[test]
fn sized_ints_reads_a_table() {
    let bytes = [0, 1, 0, 2, 0xFF, 0xFE, 9];
    let mut input = Reader::new(&bytes);
    assert!(matches!(sized_ints(&mut input, 2, 3), Ok(v) if v == [1, 2, 0xFFFE]));
    assert!(matches!(sized_ints(&mut input, 1, 1), Ok(v) if v == [9]));
    assert!(matches!(sized_ints(&mut input, 1, 0), Ok(v) if v.is_empty()));
    assert!(matches!(
        sized_ints(&mut input, 1, 1),
        Err(Error::IoError(IoErrorKind::UnexpectedEof))
    ));
    let mut again = Reader::new(&bytes);
    assert!(matches!(
        sized_ints(&mut again, 8, usize::MAX),
        Err(Error::IoError(IoErrorKind::UnexpectedEof))
    ));
    assert!(matches!(
        sized_ints(&mut again, 4, 2),
        Err(Error::IoError(IoErrorKind::UnexpectedEof))
    ));
}

#[test]
fn trailer_gives_root_reference_size_and_offsets() {
    let bytes = document(&[vec![0x08], vec![0x09], vec![0xA2, 0, 1]], 2);
    let mut input = Reader::new(&bytes);
    assert!(matches!(trailer(&mut input), Ok((2, 1, offsets)) if offsets == [8, 9, 10]));
}

#[test]
fn trailer_refuses_sizes_that_are_no_power_of_two_up_to_eight() {
    for size in 0..=255u8 {
        let valid = size == 1 || size == 2 || size == 4 || size == 8;
        for place in 0..2 {
            let mut bytes = document(&[], 0);
            let at = bytes.len() - 26 + place;
            bytes[at] = size;
            let mut input = Reader::new(&bytes);
            let r = trailer(&mut input);
            if valid {
                assert!(r.is_ok());
            } else {
                assert!(matches!(r, Err(Error::InvalidIntegerSize)));
                assert!(matches!(decode(&bytes), Err(Error::InvalidIntegerSize)));
            }
        }
    }
}

#[test]
fn booleans() {
    assert_eq!(decode(&document(&[vec![0x08]], 0)).unwrap(), Plist::Boolean(false));
    assert_eq!(decode(&document(&[vec![0x09]], 0)).unwrap(), Plist::Boolean(true));
    for marker in 0u8..16 {
        if marker != 8 && marker != 9 {
            assert!(matches!(decode(&document(&[vec![marker]], 0)), Err(Error::InvalidBoolean)));
        }
    }
    let mut input = Reader::new(&[0x19]);
    assert!(matches!(boolean(&mut input), Err(Error::InvalidBoolean)));
}

#[test]
fn small_integers() {
    assert_eq!(decode(&document(&[vec![0x10, 0x05]], 0)).unwrap(), Plist::Integer(5));
    assert_eq!(decode(&document(&[vec![0x10, 0x0F, 0x00, 0x7B]], 0)).unwrap(), Plist::Integer(123));
    assert_eq!(
        decode(&document(&[vec![0x10, 0x0F, 0x01, 0x01, 0x00]], 0)).unwrap(),
        Plist::Integer(256)
    );
    let mut input = Reader::new(&[0x10, 0x0F, 0x02, 0xFF, 0xFF, 0xFF, 0xFF]);
    assert_eq!(integer(&mut input).unwrap(), Plist::Integer(0xFFFF_FFFF));
}

#[test]
fn extremal_integers_round_trip() {
    for value in [0i64, -1, i64::MAX, i64::MIN, 1, -2, 0x0123_4567_89AB_CDEF] {
        assert_eq!(decode(&document(&[wide_integer(value)], 0)).unwrap(), Plist::Integer(value));
    }
}

#[test]
fn reals() {
    let mut double = vec![0x23];
    double.extend_from_slice(&1.5f64.to_be_bytes());
    assert_eq!(
        decode(&document(&[double], 0)).unwrap(),
        Plist::Real(Real::Bits(1.5f64.to_bits()))
    );
    let mut single = vec![0x22];
    single.extend_from_slice(&(-0.15625f32).to_be_bytes());
    assert_eq!(
        decode(&document(&[single], 0)).unwrap(),
        Plist::Real(Real::Bits((-0.15625f64).to_bits()))
    );
    assert!(matches!(
        decode(&document(&[vec![0x21, 0, 0]], 0)),
        Err(Error::InvalidIntegerSize)
    ));
    assert!(matches!(decode(&document(&[vec![0x20, 0]], 0)), Err(Error::InvalidIntegerSize)));
    assert!(matches!(decode(&document(&[vec![0x24, 0]], 0)), Err(Error::InvalidIntegerSize)));
    let mut input = Reader::new(&[0x22, 0x3F, 0x80, 0x00, 0x00]);
    assert_eq!(real_number(&mut input).unwrap(), Plist::Real(Real::Bits(1.0f64.to_bits())));
}

#[test]
fn dates() {
    let mut before = vec![0x33];
    before.extend_from_slice(&(-1.25f64).to_be_bytes());
    assert_eq!(
        decode(&document(&[before], 0)).unwrap(),
        Plist::DateTime(Date { secs: 978_307_200 - 2, nanos: 750_000_000 })
    );
    let mut bytes = vec![0x33];
    bytes.extend_from_slice(&512_345_678.25f64.to_be_bytes());
    assert_eq!(
        decode(&document(&[bytes.clone()], 0)).unwrap(),
        Plist::DateTime(Date { secs: 978_307_200 + 512_345_678, nanos: 250_000_000 })
    );
    let mut input = Reader::new(&bytes[..8]);
    assert!(matches!(date(&mut input), Err(Error::IoError(IoErrorKind::UnexpectedEof))));
}

#[test]
fn data_objects() {
    assert_eq!(
        decode(&document(&[vec![0x43, 1, 2, 3]], 0)).unwrap(),
        Plist::Data(vec![1, 2, 3])
    );
    assert_eq!(decode(&document(&[vec![0x40]], 0)).unwrap(), Plist::Data(vec![]));
    let mut long = vec![0x4F, 0x10, 20];
    long.extend_from_slice(&[7; 20]);
    assert_eq!(decode(&document(&[long], 0)).unwrap(), Plist::Data(vec![7; 20]));
    let mut input = Reader::new(&[0x43, 1, 2]);
    assert!(matches!(data(&mut input), Err(Error::IoError(IoErrorKind::UnexpectedEof))));
    let mut huge = Reader::new(&[0x4F, 0x03, 0xFF, 0xFF, 0xFF, 0xFF, 0xFF, 0xFF, 0xFF, 0xFF, 1]);
    assert!(matches!(data(&mut huge), Err(Error::IoError(IoErrorKind::UnexpectedEof))));
}

#[test]
fn the_cause_of_a_failed_conversion_is_kept() {
    let cause = std::str::from_utf8(&[0x61, 0xFF]).unwrap_err();
    assert!(matches!(string_from(Err(cause)), Err(Error::Utf8Error(e)) if e == cause));
    assert_eq!(string_from(Ok("text")).unwrap(), Plist::String("text".to_string()));
    let cause = String::from_utf16(&[0xD800]).unwrap_err();
    let text = cause.to_string();
    assert!(matches!(
        utf16_string_from(Err(cause)),
        Err(Error::Utf16Error(e)) if e.to_string() == text
    ));
    assert_eq!(
        utf16_string_from(Ok("text".to_string())).unwrap(),
        Plist::String("text".to_string())
    );
    let mut input = Reader::new(&[0x53, 0x61, 0x62, 0xFF]);
    assert!(matches!(string(&mut input), Err(Error::Utf8Error(e)) if e.valid_up_to() == 2));
}

#[test]
fn strings() {
    assert_eq!(
        decode(&document(&[text("hello")], 0)).unwrap(),
        Plist::String("hello".to_string())
    );
    assert_eq!(
        decode(&document(&[vec![0x52, 0xC3, 0xA9]], 0)).unwrap(),
        Plist::String("é".to_string())
    );
    assert!(matches!(
        decode(&document(&[vec![0x52, 0xC3, 0x28]], 0)),
        Err(Error::Utf8Error(_))
    ));
    let mut input = Reader::new(&[0x51, 0xFF]);
    assert!(matches!(string(&mut input), Err(Error::Utf8Error(_))));
}

#[test]
fn utf16_strings() {
    assert_eq!(
        decode(&document(&[vec![0x62, 0x00, 0x68, 0x00, 0x69]], 0)).unwrap(),
        Plist::String("hi".to_string())
    );
    assert_eq!(
        decode(&document(&[vec![0x62, 0xD8, 0x3D, 0xDE, 0x00]], 0)).unwrap(),
        Plist::String("😀".to_string())
    );
    assert!(matches!(
        decode(&document(&[vec![0x61, 0xD8, 0x3D]], 0)),
        Err(Error::Utf16Error(_))
    ));
    let mut input = Reader::new(&[0x62, 0x00, 0x68, 0x00]);
    assert!(matches!(utf16_string(&mut input), Err(Error::IoError(IoErrorKind::UnexpectedEof))));
}

#[test]
fn arrays_keep_their_order() {
    let bytes = document(&[vec![0xA3, 2, 1, 2], vec![0x10, 0x01], vec![0x10, 0x02]], 0);
    assert_eq!(
        decode(&bytes).unwrap(),
        Plist::Array(vec![Plist::Integer(2), Plist::Integer(1), Plist::Integer(2)])
    );
    assert_eq!(decode(&document(&[vec![0xA0]], 0)).unwrap(), Plist::Array(vec![]));
}

#[test]
fn dictionaries() {
    let bytes = document(
        &[vec![0xD2, 1, 2, 3, 4], text("a"), text("b"), vec![0x09], vec![0xA1, 3]],
        0,
    );
    let mut expected = Dictionary::new();
    expected.insert("b".to_string(), Plist::Array(vec![Plist::Boolean(true)]));
    expected.insert("a".to_string(), Plist::Boolean(true));
    assert_eq!(decode(&bytes).unwrap(), Plist::Dict(expected));
    assert_eq!(decode(&document(&[vec![0xD0]], 0)).unwrap(), Plist::Dict(Dictionary::new()));
}

#[test]
fn a_later_entry_takes_the_place_of_an_earlier_one() {
    let bytes = document(
        &[vec![0xD2, 1, 1, 2, 3], text("k"), vec![0x10, 0x01], vec![0x10, 0x02]],
        0,
    );
    let mut expected = Dictionary::new();
    expected.insert("k".to_string(), Plist::Integer(2));
    assert_eq!(decode(&bytes).unwrap(), Plist::Dict(expected));
}

#[test]
fn keys_must_be_strings() {
    for key in [vec![0x10, 0x01], vec![0x09], vec![0x41, 0x61], vec![0xA0], vec![0xD0]] {
        let bytes = document(&[vec![0xD1, 1, 2], key, vec![0x09]], 0);
        assert!(matches!(decode(&bytes), Err(Error::InvalidKeyObject)));
    }
    let utf16 = document(&[vec![0xD1, 1, 2], vec![0x61, 0x00, 0x6B], vec![0x09]], 0);
    let mut expected = Dictionary::new();
    expected.insert("k".to_string(), Plist::Boolean(true));
    assert_eq!(decode(&utf16).unwrap(), Plist::Dict(expected));
}

#[test]
fn unsupported_kinds() {
    for kind in [0x7u8, 0x8, 0x9, 0xB, 0xC, 0xE, 0xF] {
        for low in 0..16u8 {
            let bytes = document(&[vec![kind << 4 | low, 0, 0, 0]], 0);
            assert!(matches!(decode(&bytes), Err(Error::ObjectNotSupported(k)) if k == kind));
        }
    }
}

#[test]
fn an_object_referred_to_twice_is_decoded_twice() {
    let bytes = document(&[vec![0xA2, 1, 1], vec![0xA1, 2], text("x")], 0);
    let inner = || Plist::Array(vec![Plist::String("x".to_string())]);
    assert_eq!(decode(&bytes).unwrap(), Plist::Array(vec![inner(), inner()]));
}

#[test]
fn references_behind_the_table_are_invalid() {
    assert!(matches!(decode(&document(&[vec![0x09]], 1)), Err(Error::InvalidObjectReference)));
    assert!(matches!(decode(&document(&[], 0)), Err(Error::InvalidObjectReference)));
    assert!(matches!(
        decode(&document(&[vec![0xA1, 5]], 0)),
        Err(Error::InvalidObjectReference)
    ));
    assert!(matches!(
        decode(&document(&[vec![0x09]], u64::MAX)),
        Err(Error::InvalidObjectReference)
    ));
}

#[test]
fn an_object_that_contains_itself_is_cyclic() {
    assert!(matches!(decode(&document(&[vec![0xA1, 0]], 0)), Err(Error::CyclicReference)));
    let bytes = document(&[vec![0xA1, 1], vec![0xD1, 2, 0], text("k")], 0);
    assert!(matches!(decode(&bytes), Err(Error::CyclicReference)));
    let key = document(&[vec![0xD1, 0, 1], vec![0x09]], 0);
    assert!(matches!(decode(&key), Err(Error::CyclicReference)));
}

#[test]
fn the_first_failure_in_reading_order_is_reported() {
    let bytes = document(&[vec![0xA2, 1, 0], vec![0x0F]], 0);
    assert!(matches!(decode(&bytes), Err(Error::InvalidBoolean)));
    let bytes = document(&[vec![0xA2, 0, 1], vec![0x0F]], 0);
    assert!(matches!(decode(&bytes), Err(Error::CyclicReference)));
}

#[test]
fn offsets_behind_the_source_fail_to_read() {
    let mut bytes = document(&[vec![0x09]], 0);
    let table = bytes.len() - 26 - 2;
    bytes[table] = 0xFF;
    bytes[table + 1] = 0xFF;
    assert!(matches!(decode(&bytes), Err(Error::IoError(IoErrorKind::UnexpectedEof))));
}

#[test]
fn magic_bytes_and_version() {
    let good = document(&[vec![0x09]], 0);
    let mut bad = good.clone();
    bad[0] = b'x';
    assert!(matches!(decode(&bad), Err(Error::InvalidMagicBytes)));
    let mut version = good.clone();
    version[7] = b'1';
    assert!(matches!(decode(&version), Err(Error::VersionNotSupported(Some(v))) if v == "01"));
    let mut garbled = good.clone();
    garbled[6] = 0xFF;
    assert!(matches!(decode(&garbled), Err(Error::VersionNotSupported(None))));
    assert!(matches!(decode(b"bplis"), Err(Error::IoError(IoErrorKind::UnexpectedEof))));
    assert!(matches!(decode(b"bplist0"), Err(Error::IoError(IoErrorKind::UnexpectedEof))));
    assert!(matches!(decode(b"<plist>"), Err(Error::InvalidMagicBytes)));
    assert!(matches!(decode(b""), Err(Error::IoError(IoErrorKind::UnexpectedEof))));
}

#[test]
fn truncated_documents_have_no_trailer() {
    let good = document(&[vec![0x09]], 0);
    for len in 8..26 {
        let mut bytes = b"bplist00".to_vec();
        bytes.resize(len, 1);
        assert!(matches!(decode(&bytes), Err(Error::InvalidTrailer)));
    }
    for len in 26..34 {
        let mut bytes = b"bplist00".to_vec();
        bytes.resize(len, 1);
        assert!(matches!(decode(&bytes), Err(Error::InvalidIntegerSize)));
    }
    for len in 8..good.len() {
        assert!(decode(&good[..len]).is_err());
    }
    let mut table = good.clone();
    let at = table.len() - 1;
    table[at] = 0xFF;
    assert!(matches!(decode(&table), Err(Error::InvalidTrailer)));
    let mut count = good.clone();
    let at = count.len() - 24;
    count[at] = 0xFF;
    assert!(matches!(decode(&count), Err(Error::InvalidTrailer)));
}

#[test]
fn the_reader_need_not_stand_at_the_start() {
    let bytes = document(&[vec![0x09]], 0);
    let mut input = Reader::new(&bytes);
    input.seek(17);
    assert_eq!(from_binary_reader(&mut input).unwrap(), Plist::Boolean(true));
    assert_eq!(Plist::from_binary_reader(&mut input).unwrap(), Plist::Boolean(true));
}

#[test]
fn objects_are_read_where_the_table_says() {
    let bytes = document(&[vec![0xA1, 1], vec![0xD1, 2, 3], text("k"), vec![0x09]], 0);
    let offsets: Vec<u64> = vec![8, 10, 13, 15];
    let mut path = Vec::new();
    let mut input = Reader::new(&bytes);
    assert_eq!(object(&mut input, 3, 1, &offsets, &mut path).unwrap(), Plist::Boolean(true));
    assert!(path.is_empty());
    input.seek(8);
    let mut inner = Dictionary::new();
    inner.insert("k".to_string(), Plist::Boolean(true));
    assert_eq!(
        array(&mut input, 1, &offsets, &mut path).unwrap(),
        Plist::Array(vec![Plist::Dict(inner)])
    );
    input.seek(10);
    let mut path = vec![1];
    let mut inner = Dictionary::new();
    inner.insert("k".to_string(), Plist::Boolean(true));
    assert_eq!(dict(&mut input, 1, &offsets, &mut path).unwrap(), Plist::Dict(inner));
    assert_eq!(path, vec![1]);
    assert!(matches!(
        object(&mut input, 1, 1, &offsets, &mut path),
        Err(Error::CyclicReference)
    ));
}

/// A binary document with these objects and with offsets and references of
/// the given sizes.
fn sized_document(objects: &[Vec<u8>], root: u64, offset_size: usize, ref_size: u8) -> Vec<u8> {
    let mut bytes = b"bplist00".to_vec();
    let mut offsets = Vec::new();
    for object in objects {
        offsets.push(bytes.len() as u64);
        bytes.extend_from_slice(object);
    }
    let table = bytes.len() as u64;
    for offset in offsets {
        bytes.extend_from_slice(&offset.to_be_bytes()[8 - offset_size..]);
    }
    bytes.push(offset_size as u8);
    bytes.push(ref_size);
    bytes.extend_from_slice(&(objects.len() as u64).to_be_bytes());
    bytes.extend_from_slice(&root.to_be_bytes());
    bytes.extend_from_slice(&table.to_be_bytes());
    bytes
}

#[test]
fn offsets_and_references_of_every_size() {
    for offset_size in [1usize, 2, 4, 8] {
        for ref_size in [1u8, 2, 4, 8] {
            let reference = |i: u64| i.to_be_bytes()[8 - ref_size as usize..].to_vec();
            let mut list = vec![0xA2];
            list.extend(reference(2));
            list.extend(reference(1));
            let mut entries = vec![0xD1];
            entries.extend(reference(3));
            entries.extend(reference(0));
            let objects = vec![list, vec![0x10, 0x07], vec![0x09], text("k"), entries];
            let bytes = sized_document(&objects, 4, offset_size, ref_size);
            let mut expected = Dictionary::new();
            expected.insert(
                "k".to_string(),
                Plist::Array(vec![Plist::Boolean(true), Plist::Integer(7)]),
            );
            assert_eq!(decode(&bytes).unwrap(), Plist::Dict(expected));
        }
    }
}

#[test]
fn a_read_moves_the_reader_behind_what_it_read() {
    let bytes = [0x09, 0x10, 0x0F, 0x01, 0x12, 0x34, 0x43, 1, 2, 3, 0x52, b'h', b'i'];
    let mut input = Reader::new(&bytes);
    assert_eq!(input.tell(), 0);
    assert_eq!(boolean(&mut input).unwrap(), Plist::Boolean(true));
    assert_eq!(input.tell(), 1);
    assert_eq!(integer(&mut input).unwrap(), Plist::Integer(0x1234));
    assert_eq!(input.tell(), 6);
    assert_eq!(data(&mut input).unwrap(), Plist::Data(vec![1, 2, 3]));
    assert_eq!(input.tell(), 10);
    assert_eq!(string(&mut input).unwrap(), Plist::String("hi".to_string()));
    assert_eq!(input.tell(), 13);
    input.seek(20);
    assert_eq!(input.tell(), 20);
    assert!(boolean(&mut input).is_err());
}
