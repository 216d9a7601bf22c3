//! Conversions between bytes, text and numbers that the decoders leave to
//! the standard library and to the crates made for them.

use vstd::prelude::*;
use vstd::string::StrSliceExecFns;
use vstd::utf8::{decode_utf8, is_ascii_chars, valid_utf8};
use rustc_serialize::base64::FromBase64;

verus! {


/// The instant that a timestamp text names, where the text is a timestamp:
/// the whole seconds between 1970-01-01T00:00:00Z and the instant, and the
/// nanoseconds behind them, which a leap second counts above 999,999,999.
pub uninterp spec fn rfc3339_timestamp(text: Seq<char>) -> Option<(i64, u32)>;

/// The bytes that a base64 text encodes, where it encodes any.
pub uninterp spec fn base64_bytes(text: Seq<char>) -> Option<Seq<u8>>;

/// The text that code units of 16 bits encode, where they are well-formed
/// UTF-16: a unit that is no surrogate is a character, and a high surrogate
/// with a low surrogate behind it makes one character above U+FFFF.
pub open spec fn utf16_text(units: Seq<u16>) -> Option<Seq<char>>
    decreases units.len(),
{
    if units.len() == 0 {
        Some(Seq::empty())
    } else if units[0] < 0xD800 || units[0] > 0xDFFF {
        match utf16_text(units.skip(1)) {
            Some(rest) => Some(seq![units[0] as char] + rest),
            None => None,
        }
    } else if units[0] <= 0xDBFF && units.len() >= 2 && 0xDC00 <= units[1] <= 0xDFFF {
        let scalar = 0x10000 + (units[0] - 0xD800) * 0x400 + (units[1] - 0xDC00);
        match utf16_text(units.skip(2)) {
            Some(rest) => Some(seq![scalar as char] + rest),
            None => None,
        }
    } else {
        None
    }
}

/// Whether Unicode counts `c` as white space.
pub open spec fn is_white_space(c: char) -> bool {
    let u = c as u32;
    ||| 0x09 <= u <= 0x0D
    ||| u == 0x20
    ||| u == 0x85
    ||| u == 0xA0
    ||| u == 0x1680
    ||| 0x2000 <= u <= 0x200A
    ||| u == 0x2028
    ||| u == 0x2029
    ||| u == 0x202F
    ||| u == 0x205F
    ||| u == 0x3000
}

/// `text` without its white space.
pub open spec fn without_white_space(text: Seq<char>) -> Seq<char> {
    text.filter(|c: char| !is_white_space(c))
}

/// Whether `c` is a decimal digit.
pub open spec fn is_digit(c: char) -> bool {
    '0' <= c <= '9'
}

/// Whether `c` is a sign.
pub open spec fn is_sign(c: char) -> bool {
    c == '+' || c == '-'
}

/// The position of the first character of `text` at or after `from` that is
/// no decimal digit; the length of the text where there is none.
pub open spec fn digits_end(text: Seq<char>, from: int) -> int
    decreases text.len() - from,
{
    if 0 <= from < text.len() && is_digit(text[from]) {
        digits_end(text, from + 1)
    } else {
        from
    }
}

/// The number that decimal digits stand for.
pub open spec fn digits_value(digits: Seq<char>) -> nat
    decreases digits.len(),
{
    if digits.len() == 0 {
        0
    } else {
        (digits_value(digits.drop_last()) * 10 + (digits.last() as int - '0' as int)) as nat
    }
}

/// The number that a decimal text stands for: perhaps a sign, and then
/// nothing but digits, at least one. A number that does not fit in 64 bits
/// with its sign is none.
pub open spec fn decimal_integer(text: Seq<char>) -> Option<i64> {
    let digits = if text.len() > 0 && is_sign(text[0]) {
        text.skip(1)
    } else {
        text
    };
    let value: int = if text.len() > 0 && text[0] == '-' {
        -(digits_value(digits) as int)
    } else {
        digits_value(digits) as int
    };
    if digits.len() > 0 && digits_end(digits, 0) == digits.len() && i64::MIN <= value <= i64::MAX {
        Some(value as i64)
    } else {
        None
    }
}

/// Whether `text` from `from` on is `word`, in upper or lower case; `word`
/// is in lower case.
pub open spec fn is_word_at(text: Seq<char>, from: int, word: Seq<char>) -> bool {
    &&& text.len() - from == word.len()
    &&& forall|i: int|
        0 <= i < word.len() ==> (#[trigger] text[from + i] == word[i] || text[from + i] as int
            + 32 == word[i] as int)
}

/// Whether `text` from `from` on is a number without a sign: digits with at
/// most one point among them, at least one digit in all, and then perhaps an
/// exponent: `e` or `E`, perhaps a sign, and at least one digit.
pub open spec fn is_number_at(text: Seq<char>, from: int) -> bool {
    let whole_end = digits_end(text, from);
    let point = whole_end < text.len() && text[whole_end] == '.';
    let mantissa_end = if point {
        digits_end(text, whole_end + 1)
    } else {
        whole_end
    };
    let digits = if point {
        mantissa_end - from - 1
    } else {
        mantissa_end - from
    };
    let exponent_start = if mantissa_end + 1 < text.len() && is_sign(text[mantissa_end + 1]) {
        mantissa_end + 2
    } else {
        mantissa_end + 1
    };
    &&& digits > 0
    &&& mantissa_end == text.len() || {
        &&& text[mantissa_end] == 'e' || text[mantissa_end] == 'E'
        &&& exponent_start < text.len()
        &&& digits_end(text, exponent_start) == text.len()
    }
}

/// Whether `text` is written as a real number: perhaps a sign, and then a
/// number, or one of the words `inf`, `infinity` and `nan` in any case.
pub open spec fn is_real_text(text: Seq<char>) -> bool {
    let from: int = if text.len() > 0 && is_sign(text[0]) {
        1
    } else {
        0
    };
    ||| is_number_at(text, from)
    ||| is_word_at(text, from, "inf"@)
    ||| is_word_at(text, from, "infinity"@)
    ||| is_word_at(text, from, "nan"@)
}

/// Where `digits_end` lies, and what lies before it.
pub proof fn lemma_digits_end(text: Seq<char>, from: int)
    requires
        0 <= from <= text.len(),
    ensures
        from <= digits_end(text, from) <= text.len(),
        forall|i: int| from <= i < digits_end(text, from) ==> is_digit(#[trigger] text[i]),
        digits_end(text, from) < text.len() ==> !is_digit(text[digits_end(text, from)]),
    decreases text.len() - from,
{
    if from < text.len() && is_digit(text[from]) {
        lemma_digits_end(text, from + 1);
    }
}

/// The words for the reals that are no numbers are written in ASCII.
proof fn lemma_words_are_ascii()
    ensures
        is_ascii_chars("inf"@),
        is_ascii_chars("infinity"@),
        is_ascii_chars("nan"@),
{
    reveal_strlit("inf");
    reveal_strlit("infinity");
    reveal_strlit("nan");
    assert("inf"@ =~= seq!['i', 'n', 'f']);
    assert("infinity"@ =~= seq!['i', 'n', 'f', 'i', 'n', 'i', 't', 'y']);
    assert("nan"@ =~= seq!['n', 'a', 'n']);
}

/// No character lies below zero.
proof fn lemma_char_range(c: char)
    ensures
        0 <= c as int,
{
}

/// A text that is a word in upper or lower case is written in ASCII.
proof fn lemma_word_is_ascii(text: Seq<char>, from: int, word: Seq<char>, i: int)
    requires
        is_word_at(text, from, word),
        is_ascii_chars(word),
        0 <= from <= i < text.len(),
    ensures
        '\0' <= text[i] <= '\u{7f}',
{
    let j = i - from;
    assert(text[from + j] == word[j] || text[from + j] as int + 32 == word[j] as int);
    assert('\0' <= word[j] <= '\u{7f}');
    lemma_char_range(text[i]);
}

/// A number is written in ASCII.
proof fn lemma_number_is_ascii(text: Seq<char>, from: int, i: int)
    requires
        is_number_at(text, from),
        0 <= from <= i < text.len(),
    ensures
        '\0' <= text[i] <= '\u{7f}',
{
    lemma_digits_end(text, from);
    let whole_end = digits_end(text, from);
    let point = whole_end < text.len() && text[whole_end] == '.';
    if whole_end < text.len() {
        lemma_digits_end(text, whole_end + 1);
    }
    let mantissa_end = if point {
        digits_end(text, whole_end + 1)
    } else {
        whole_end
    };
    if i < whole_end {
        assert(is_digit(text[i]));
    } else if point && i == whole_end {
    } else if i < mantissa_end {
        assert(is_digit(text[i]));
    } else {
        let exponent_start = if mantissa_end + 1 < text.len() && is_sign(text[mantissa_end + 1]) {
            mantissa_end + 2
        } else {
            mantissa_end + 1
        };
        lemma_digits_end(text, exponent_start);
        if i == mantissa_end {
        } else if i < exponent_start {
            assert(is_sign(text[i]));
        } else {
            assert(is_digit(text[i]));
        }
    }
}

/// A real number is written in ASCII.
pub proof fn lemma_real_text_is_ascii(text: Seq<char>)
    requires
        is_real_text(text),
    ensures
        is_ascii_chars(text),
{
    lemma_words_are_ascii();
    let from: int = if text.len() > 0 && is_sign(text[0]) {
        1
    } else {
        0
    };
    assert forall|i: int| 0 <= i < text.len() implies '\0' <= #[trigger] text[i] <= '\u{7f}' by {
        if i < from {
        } else if is_number_at(text, from) {
            lemma_number_is_ascii(text, from, i);
        } else if is_word_at(text, from, "inf"@) {
            lemma_word_is_ascii(text, from, "inf"@, i);
        } else if is_word_at(text, from, "infinity"@) {
            lemma_word_is_ascii(text, from, "infinity"@, i);
        } else {
            lemma_word_is_ascii(text, from, "nan"@, i);
        }
    }
}

/// The position of the first character of `text` at or after `from` that is
/// no decimal digit.
fn scan_digits(text: &str, from: usize, n: usize) -> (end: usize)
    requires
        text.is_ascii(),
        n == text@.len(),
        from <= n,
    ensures
        end == digits_end(text@, from as int),
        from <= end <= n,
{
    let mut i = from;
    while i < n && 48 <= text.get_ascii(i) && text.get_ascii(i) <= 57
        invariant
            text.is_ascii(),
            n == text@.len(),
            from <= i <= n,
            digits_end(text@, from as int) == digits_end(text@, i as int),
        decreases n - i,
    {
        i = i + 1;
    }
    i
}

/// Whether the character of `text` at `i` is a sign.
fn sign_at(text: &str, i: usize) -> (r: bool)
    requires
        text.is_ascii(),
        i < text@.len(),
    ensures
        r == is_sign(text@[i as int]),
{
    let b = text.get_ascii(i);
    b == 43 || b == 45
}

/// Whether `text` from `from` on is a number without a sign.
fn number_at(text: &str, from: usize, n: usize) -> (r: bool)
    requires
        text.is_ascii(),
        n == text@.len(),
        from <= n,
    ensures
        r == is_number_at(text@, from as int),
{
    let whole_end = scan_digits(text, from, n);
    let point = whole_end < n && text.get_ascii(whole_end) == 46;
    let mantissa_end = if point {
        scan_digits(text, whole_end + 1, n)
    } else {
        whole_end
    };
    let digits = if point {
        mantissa_end - from - 1
    } else {
        mantissa_end - from
    };
    if digits == 0 {
        return false;
    }
    if mantissa_end == n {
        return true;
    }
    let e = text.get_ascii(mantissa_end);
    if e != 101 && e != 69 {
        return false;
    }
    let exponent_start = if mantissa_end + 1 < n && sign_at(text, mantissa_end + 1) {
        mantissa_end + 2
    } else {
        mantissa_end + 1
    };
    exponent_start < n && scan_digits(text, exponent_start, n) == n
}

/// Whether `text` from `from` on is `word`, in upper or lower case.
fn word_at(text: &str, from: usize, n: usize, word: &str) -> (r: bool)
    requires
        text.is_ascii(),
        n == text@.len(),
        from <= n,
    ensures
        r == is_word_at(text@, from as int, word@),
{
    let m = word.unicode_len();
    if n - from != m {
        return false;
    }
    let mut i: usize = 0;
    while i < m
        invariant
            text.is_ascii(),
            n == text@.len(),
            from <= n,
            m == word@.len(),
            n - from == m,
            i <= m,
            forall|j: int|
                0 <= j < i ==> (#[trigger] text@[from + j] == word@[j] || text@[from + j] as int
                    + 32 == word@[j] as int),
        decreases m - i,
    {
        let c = text.get_ascii(from + i) as u32;
        let w = word.get_char(i) as u32;
        if c != w && c + 32 != w {
            assert(!(text@[from + i] == word@[i as int] || text@[from + i] as int + 32
                == word@[i as int] as int));
            return false;
        }
        i = i + 1;
    }
    true
}

/// Whether `text` is written as a real number.
pub fn is_real(text: &str) -> (r: bool)
    ensures
        r == is_real_text(text@),
{
    if !text.is_ascii() {
        proof {
            if is_real_text(text@) {
                lemma_real_text_is_ascii(text@);
            }
        }
        return false;
    }
    let n = text.unicode_len();
    let from: usize = if n > 0 && sign_at(text, 0) {
        1
    } else {
        0
    };
    number_at(text, from, n) || word_at(text, from, n, "inf") || word_at(text, from, n, "infinity")
        || word_at(text, from, n, "nan")
}

/// `i64::from_str_radix` with radix 10: the number that `text` stands for,
/// or the reason why it stands for none. It takes an optional sign and then
/// digits only, at least one, and refuses a number that does not fit.
#[verifier::external_body]
pub(crate) fn parse_integer(text: &str) -> (r: Result<i64, std::num::ParseIntError>)
    ensures
        match r {
            Ok(v) => decimal_integer(text@) == Some(v),
            Err(_) => decimal_integer(text@) is None,
        },
{
    i64::from_str_radix(text, 10)
}

/// `chrono::DateTime::parse_from_rfc3339`, with `timestamp` and
/// `timestamp_subsec_nanos` on what it gives: the whole seconds since the
/// Unix epoch of the instant that `text` names and the nanoseconds behind
/// them, or the reason why it names none. The result is a function of the
/// text alone.
#[verifier::external_body]
pub(crate) fn parse_timestamp(text: &str) -> (r: Result<(i64, u32), chrono::format::ParseError>)
    ensures
        match r {
            Ok(v) => rfc3339_timestamp(text@) == Some(v),
            Err(_) => rfc3339_timestamp(text@) is None,
        },
{
    match chrono::DateTime::parse_from_rfc3339(text) {
        Ok(instant) => Ok((instant.timestamp(), instant.timestamp_subsec_nanos())),
        Err(e) => Err(e),
    }
}

/// `FromBase64::from_base64` of `rustc_serialize` on a text: the bytes that
/// it encodes, or the reason why it encodes none. The result is a function of
/// the text alone.
#[verifier::external_body]
pub(crate) fn decode_base64(text: &str) -> (r: Result<
    Vec<u8>,
    rustc_serialize::base64::FromBase64Error,
>)
    ensures
        match r {
            Ok(bytes) => base64_bytes(text@) == Some(bytes@),
            Err(_) => base64_bytes(text@) is None,
        },
{
    text.from_base64()
}

/// `str::split_whitespace`, its pieces joined again: the text without the
/// characters that Unicode counts as white space.
#[verifier::external_body]
pub(crate) fn strip_white_space(text: &str) -> (r: String)
    ensures
        r@ == without_white_space(text@),
{
    text.split_whitespace().collect()
}

/// `std::str::from_utf8`: the text that `bytes` encode, where they are valid
/// UTF-8, and else the reason why they are not.
#[verifier::external_body]
pub(crate) fn text_from_utf8(bytes: &[u8]) -> (r: Result<&str, std::str::Utf8Error>)
    ensures
        r is Ok <==> valid_utf8(bytes@),
        r matches Ok(text) ==> text@ == decode_utf8(bytes@),
{
    std::str::from_utf8(bytes)
}

/// `String::from_utf16`: the text that `units` encode, where they are
/// well-formed UTF-16, and else a failure.
#[verifier::external_body]
pub(crate) fn text_from_utf16(units: &[u16]) -> (r: Result<String, std::string::FromUtf16Error>)
    ensures
        match r {
            Ok(text) => utf16_text(units@) == Some(text@),
            Err(_) => utf16_text(units@) is None,
        },
{
    String::from_utf16(units)
}

} // verus!
