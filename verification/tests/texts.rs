use plist::event::{Event, Events, XmlItem};
use plist::reader::binary::utf16_string;
use plist::reader::xml::{xml_data, xml_integer};
use plist::{Error, Plist, Reader};

fn next(state: &mut u64) -> u64 {
    *state ^= *state << 13;
    *state ^= *state >> 7;
    *state ^= *state << 17;
    *state
}

fn leaf(name: &str, text: &str) -> Vec<XmlItem> {
    vec![
        Ok(Event::StartElement(name.to_string())),
        Ok(Event::Characters(text.to_string())),
        Ok(Event::EndElement(name.to_string())),
    ]
}

fn white_space(c: char) -> bool {
    matches!(
        c as u32,
        0x09..=0x0D
            | 0x20
            | 0x85
            | 0xA0
            | 0x1680
            | 0x2000..=0x200A
            | 0x2028
            | 0x2029
            | 0x202F
            | 0x205F
            | 0x3000
    )
}

/// The number that a decimal text stands for: perhaps a sign, then digits
/// only, at least one, and a value that fits.
fn decimal(text: &str) -> Option<i64> {
    let chars: Vec<char> = text.chars().collect();
    let signed = !chars.is_empty() && (chars[0] == '+' || chars[0] == '-');
    let digits = if signed { &chars[1..] } else { &chars[..] };
    if digits.is_empty() || !digits.iter().all(|c| ('0'..='9').contains(c)) {
        return None;
    }
    let mut value: i128 = 0;
    for c in digits {
        value = value * 10 + (*c as i128 - '0' as i128);
        if value > 1 << 70 {
            return None;
        }
    }
    if chars[0] == '-' {
        value = -value;
    }
    i64::try_from(value).ok()
}

/// The text that code units encode, where they are well-formed.
fn utf16(units: &[u16]) -> Option<String> {
    let mut text = String::new();
    let mut i = 0;
    while i < units.len() {
        let unit = units[i] as u32;
        if !(0xD800..=0xDFFF).contains(&unit) {
            text.push(char::from_u32(unit).unwrap());
            i += 1;
        } else if unit <= 0xDBFF
            && i + 1 < units.len()
            && (0xDC00..=0xDFFF).contains(&(units[i + 1] as u32))
        {
            let scalar = 0x10000 + (unit - 0xD800) * 0x400 + (units[i + 1] as u32 - 0xDC00);
            text.push(char::from_u32(scalar).unwrap());
            i += 2;
        } else {
            return None;
        }
    }
    Some(text)
}

#[test]
fn white_space_is_what_unicode_counts_as_such() {
    for code in 0..=0x10FFFFu32 {
        if let Some(c) = char::from_u32(code) {
            assert_eq!(c.is_whitespace(), white_space(c), "U+{:04X}", code);
        }
    }
}

#[test]
fn data_is_read_without_its_white_space() {
    for code in 0..0x3100u32 {
        let c = match char::from_u32(code) {
            Some(c) => c,
            None => continue,
        };
        let text = format!("AA{}AA{}", c, c);
        let mut input = Events::new(leaf("data", &text));
        let r = xml_data(&mut input);
        if white_space(c) {
            assert_eq!(r.unwrap(), Plist::Data(vec![0, 0, 0]), "U+{:04X}", code);
        } else if c.is_ascii_alphanumeric() || "+/-_".contains(c) {
            assert!(matches!(r, Ok(Plist::Data(bytes)) if bytes.len() == 4), "U+{:04X}", code);
        } else {
            assert!(matches!(r, Err(Error::Base64Error(_))), "U+{:04X}", code);
        }
    }
}

#[test]
fn integers_are_signs_and_digits() {
    let mut cases: Vec<String> = [
        "", "+", "-", "0", "-0", "+0", "00", "007", "-007", "1", "12", "+12", "-12", "1 ", " 1",
        "1_0", "1.0", "1e3", "0x1", "a", "١٢", "--1", "+-1", "1-", "1+",
        "9223372036854775807", "9223372036854775808", "-9223372036854775808",
        "-9223372036854775809", "+9223372036854775807", "00000000000000000000000000000001",
        "99999999999999999999999999999999", "-00000000000000000000009223372036854775808",
        "18446744073709551615", "18446744073709551616",
    ]
    .iter()
    .map(|s| s.to_string())
    .collect();
    let alphabet: Vec<char> = "0123456789+- a".chars().collect();
    let mut state = 0x5EED_5EED_5EED_5EEDu64;
    for _ in 0..20000 {
        let len = next(&mut state) % 22;
        let mut text = String::new();
        for _ in 0..len {
            let pick = next(&mut state) % 40;
            let c = if pick < 30 { alphabet[(pick % 10) as usize] } else { alphabet[(pick % 14) as usize] };
            text.push(c);
        }
        cases.push(text);
    }
    for text in cases {
        let mut input = Events::new(leaf("integer", &text));
        match (xml_integer(&mut input), decimal(&text)) {
            (Ok(Plist::Integer(v)), Some(expected)) => assert_eq!(v, expected, "{:?}", text),
            (Err(Error::IntError(_)), None) => {}
            (r, expected) => panic!("{:?}: {:?}, {:?}", text, r, expected),
        }
    }
}

#[test]
fn utf16_is_units_and_pairs_of_surrogates() {
    let mut cases: Vec<Vec<u16>> = vec![
        vec![],
        vec![0x41],
        vec![0xD7FF],
        vec![0xE000],
        vec![0xFFFF],
        vec![0xD800],
        vec![0xDBFF],
        vec![0xDC00],
        vec![0xDFFF],
        vec![0xD800, 0xDC00],
        vec![0xDBFF, 0xDFFF],
        vec![0xD800, 0xDBFF],
        vec![0xD800, 0x41],
        vec![0xDC00, 0xD800],
        vec![0xD800, 0xD800, 0xDC00],
        vec![0x41, 0xD83D, 0xDE00, 0x42],
        vec![0xD83D, 0xDE00, 0xDE00],
    ];
    let mut state = 0x0F0F_1234_5678_9ABCu64;
    let pool = [0x41u16, 0xD7FF, 0xD800, 0xD801, 0xDBFF, 0xDC00, 0xDC01, 0xDFFF, 0xE000, 0xFFFF];
    for _ in 0..20000 {
        let len = next(&mut state) % 7;
        let mut units = Vec::new();
        for _ in 0..len {
            let pick = next(&mut state);
            units.push(if pick % 4 == 0 { (pick >> 8) as u16 } else { pool[(pick >> 8) as usize % 10] });
        }
        cases.push(units);
    }
    for units in cases {
        assert!(units.len() < 15);
        let mut bytes = vec![0x60 | units.len() as u8];
        for unit in &units {
            bytes.extend_from_slice(&unit.to_be_bytes());
        }
        let mut input = Reader::new(&bytes);
        match (utf16_string(&mut input), utf16(&units)) {
            (Ok(Plist::String(text)), Some(expected)) => assert_eq!(text, expected),
            (Err(Error::Utf16Error(_)), None) => {}
            (r, expected) => panic!("{:?}: {:?}, {:?}", units, r, expected),
        }
    }
}
