//! The reader of binary documents: a trailer, a table of offsets, and
//! objects that refer to each other by their place in that table.

use vstd::prelude::*;
use vstd::set_lib::lemma_len_subset;
use vstd::slice::{slice_subrange, slice_to_vec};
use vstd::string::StringExecFns;
use vstd::utf8::{
    decode_utf8, decode_utf8_encode_utf8, is_ascii_chars, is_ascii_chars_encode_utf8, valid_utf8,
};
use crate::error::{yields, Error, ErrorKind, IoErrorKind, Parse};
use crate::ieee::{
    double_of_single, is_negative, nanos_part, seconds_of, sign_of, whole_part, widen,
};
use crate::plist::{
    lemma_array_view, same_text, values_of, Date, Dictionary, Plist, Real, RealView, Value,
};
use crate::reader::{bytes_at, takes, Reader};
use crate::text::{text_from_utf16, text_from_utf8, utf16_text};

verus! {

/// The number that `bytes` hold, the most significant byte first.
pub open spec fn be_value(bytes: Seq<u8>) -> nat
    decreases bytes.len(),
{
    if bytes.len() == 0 {
        0
    } else {
        be_value(bytes.drop_last()) * 256 + bytes.last() as nat
    }
}

/// One more byte at the end counts the bytes before it 256 times.
pub proof fn lemma_be_value_push(bytes: Seq<u8>, b: u8)
    ensures
        be_value(bytes.push(b)) == be_value(bytes) * 256 + b,
{
    assert(bytes.push(b).drop_last() =~= bytes);
}

/// The number that the first `n` bytes hold, one byte after the other.
pub proof fn lemma_be_value_take(bytes: Seq<u8>, n: int)
    requires
        0 <= n < bytes.len(),
    ensures
        be_value(bytes.take(n + 1)) == be_value(bytes.take(n)) * 256 + bytes[n],
{
    assert(bytes.take(n + 1) =~= bytes.take(n).push(bytes[n]));
    lemma_be_value_push(bytes.take(n), bytes[n]);
}

/// What up to eight bytes hold fits in 64 bits.
pub proof fn lemma_be_value_bound(bytes: Seq<u8>)
    requires
        bytes.len() <= 8,
    ensures
        bytes.len() == 0 ==> be_value(bytes) == 0,
        bytes.len() == 1 ==> be_value(bytes) < 0x100,
        bytes.len() == 2 ==> be_value(bytes) < 0x1_0000,
        bytes.len() == 3 ==> be_value(bytes) < 0x100_0000,
        bytes.len() == 4 ==> be_value(bytes) < 0x1_0000_0000,
        bytes.len() == 5 ==> be_value(bytes) < 0x100_0000_0000,
        bytes.len() == 6 ==> be_value(bytes) < 0x1_0000_0000_0000,
        bytes.len() == 7 ==> be_value(bytes) < 0x100_0000_0000_0000,
        be_value(bytes) <= u64::MAX,
    decreases bytes.len(),
{
    if bytes.len() > 0 {
        lemma_be_value_bound(bytes.drop_last());
    }
}

/// The two bytes at the front of `buf` as a number, the most significant first.
pub fn be_u16(buf: &[u8]) -> (r: u16)
    requires
        buf@.len() >= 2,
    ensures
        r == be_value(buf@.take(2)),
{
    let b0 = buf[0];
    let b1 = buf[1];
    proof {
        lemma_be_value_take(buf@, 0);
        lemma_be_value_take(buf@, 1);
        assert(be_value(buf@.take(0)) == 0);
        assert(((b0 as u16) << 8 | (b1 as u16)) == b0 * 0x100 + b1) by (bit_vector);
    }
    (b0 as u16) << 8 | (b1 as u16)
}

/// The four bytes at the front of `buf` as a number, the most significant first.
pub fn be_u32(buf: &[u8]) -> (r: u32)
    requires
        buf@.len() >= 4,
    ensures
        r == be_value(buf@.take(4)),
{
    let b0 = buf[0];
    let b1 = buf[1];
    let b2 = buf[2];
    let b3 = buf[3];
    proof {
        lemma_be_value_take(buf@, 0);
        lemma_be_value_take(buf@, 1);
        lemma_be_value_take(buf@, 2);
        lemma_be_value_take(buf@, 3);
        assert(be_value(buf@.take(0)) == 0);
        assert(((b0 as u32) << 24 | (b1 as u32) << 16 | (b2 as u32) << 8 | (b3 as u32)) == b0
            * 0x100_0000 + b1 * 0x1_0000 + b2 * 0x100 + b3) by (bit_vector);
    }
    (b0 as u32) << 24 | (b1 as u32) << 16 | (b2 as u32) << 8 | (b3 as u32)
}

/// The eight bytes at the front of `buf` as a number, the most significant first.
pub fn be_u64(buf: &[u8]) -> (r: u64)
    requires
        buf@.len() >= 8,
    ensures
        r == be_value(buf@.take(8)),
{
    let b0 = buf[0];
    let b1 = buf[1];
    let b2 = buf[2];
    let b3 = buf[3];
    let b4 = buf[4];
    let b5 = buf[5];
    let b6 = buf[6];
    let b7 = buf[7];
    proof {
        lemma_be_value_take(buf@, 0);
        lemma_be_value_take(buf@, 1);
        lemma_be_value_take(buf@, 2);
        lemma_be_value_take(buf@, 3);
        lemma_be_value_take(buf@, 4);
        lemma_be_value_take(buf@, 5);
        lemma_be_value_take(buf@, 6);
        lemma_be_value_take(buf@, 7);
        assert(be_value(buf@.take(0)) == 0);
        assert(((b0 as u64) << 56 | (b1 as u64) << 48 | (b2 as u64) << 40 | (b3 as u64) << 32 | (
        b4 as u64) << 24 | (b5 as u64) << 16 | (b6 as u64) << 8 | (b7 as u64)) == b0
            * 0x100_0000_0000_0000 + b1 * 0x1_0000_0000_0000 + b2 * 0x100_0000_0000 + b3
            * 0x1_0000_0000 + b4 * 0x100_0000 + b5 * 0x1_0000 + b6 * 0x100 + b7) by (bit_vector);
    }
    (b0 as u64) << 56 | (b1 as u64) << 48 | (b2 as u64) << 40 | (b3 as u64) << 32 | (b4 as u64)
        << 24 | (b5 as u64) << 16 | (b6 as u64) << 8 | (b7 as u64)
}

/// Whether an integer of the document may take `size` bytes.
pub open spec fn is_valid_size(size: u8) -> bool {
    size == 1 || size == 2 || size == 4 || size == 8
}

/// The size itself where an integer may have it, and the failure where not.
pub open spec fn checked_size(size: u8) -> Result<u8, ErrorKind> {
    if is_valid_size(size) {
        Ok(size)
    } else {
        Err(ErrorKind::InvalidIntegerSize)
    }
}

/// Accepts the sizes 1, 2, 4 and 8 and no other.
pub fn validate_size(size: u8) -> (r: Result<u8, Error>)
    ensures
        yields(r, checked_size(size)),
{
    if size == 1 || size == 2 || size == 4 || size == 8 {
        Ok(size)
    } else {
        Err(Error::InvalidIntegerSize)
    }
}

/// The `size` bytes at the front of `buf` as a number, the most significant first.
pub fn sized_int(buf: &[u8], size: u8) -> (r: u64)
    requires
        is_valid_size(size),
        buf@.len() >= size,
    ensures
        r == be_value(buf@.take(size as int)),
{
    if size == 1 {
        proof {
            lemma_be_value_take(buf@, 0);
            assert(be_value(buf@.take(0)) == 0);
        }
        buf[0] as u64
    } else if size == 2 {
        be_u16(buf) as u64
    } else if size == 4 {
        be_u32(buf) as u64
    } else {
        be_u64(buf)
    }
}

/// The size in bytes that the exponent `n` in the low half of a marker names.
pub open spec fn size_of_exponent(n: int) -> u8 {
    if n == 0 {
        1
    } else if n == 1 {
        2
    } else if n == 2 {
        4
    } else {
        8
    }
}

/// Reading a sized value at `pos`: a marker whose low half names a size of 1,
/// 2, 4 or 8 bytes, and then that many bytes.
pub open spec fn sized_at(data: Seq<u8>, pos: int) -> Parse<(Seq<u8>, u8)> {
    match bytes_at(data, pos, 1) {
        Err(e) => Err(e),
        Ok((marker, p)) => if marker[0] % 16 > 3 {
            Err(ErrorKind::InvalidIntegerSize)
        } else {
            let size = size_of_exponent(marker[0] as int % 16);
            match bytes_at(data, p, size as int) {
                Err(e) => Err(e),
                Ok((bytes, q)) => Ok(((bytes, size), q)),
            }
        },
    }
}

/// Reads a sized value: a marker whose low half names a size of 1, 2, 4 or 8
/// bytes, and then that many bytes. Gives the bytes and their number.
pub fn read_sized<'a>(input: &mut Reader<'a>) -> (r: Result<(&'a [u8], u8), Error>)
    ensures
        takes(old(input), final(input), sized_at(old(input).data(), old(input).position()), r),
{
    let marker = match input.read_exact(1) {
        Ok(marker) => marker[0],
        Err(e) => {
            return Err(e);
        },
    };
    let exponent = marker & 0xF;
    proof {
        assert(marker & 0xF == marker % 16) by (bit_vector);
    }
    if exponent > 3 {
        return Err(Error::InvalidIntegerSize);
    }
    let size: u8 = if exponent == 0 {
        1
    } else if exponent == 1 {
        2
    } else if exponent == 2 {
        4
    } else {
        8
    };
    match input.read_exact(size as usize) {
        Ok(bytes) => Ok((bytes, size)),
        Err(e) => Err(e),
    }
}

/// Reading a count or an integer at `pos`: a marker whose low half is the
/// number itself where it is below 15, and else is followed by a sized value
/// that holds the number.
pub open spec fn int_at(data: Seq<u8>, pos: int) -> Parse<u64> {
    match bytes_at(data, pos, 1) {
        Err(e) => Err(e),
        Ok((marker, p)) => if marker[0] % 16 != 15 {
            Ok(((marker[0] % 16) as u64, p))
        } else {
            match sized_at(data, p) {
                Err(e) => Err(e),
                Ok(((bytes, _), q)) => Ok((be_value(bytes) as u64, q)),
            }
        },
    }
}

/// Reads a count or an integer: a marker whose low half is the number itself
/// where it is below 15, and else is followed by a sized value that holds it.
pub fn read_int(input: &mut Reader) -> (r: Result<u64, Error>)
    ensures
        takes(old(input), final(input), int_at(old(input).data(), old(input).position()), r),
{
    let marker = match input.read_exact(1) {
        Ok(marker) => marker[0],
        Err(e) => {
            return Err(e);
        },
    };
    proof {
        assert(marker & 0xF == marker % 16) by (bit_vector);
    }
    if (marker & 0xF) == 0xF {
        match read_sized(input) {
            Ok((bytes, size)) => {
                proof {
                    assert(bytes@.take(size as int) =~= bytes@);
                }
                Ok(sized_int(bytes, size))
            },
            Err(e) => Err(e),
        }
    } else {
        Ok((marker & 0xF) as u64)
    }
}

/// The `i`-th of the integers of `size` bytes each that lie from `pos` on.
pub open spec fn int_in_table(data: Seq<u8>, pos: int, size: int, i: int) -> u64 {
    be_value(data.subrange(pos + i * size, pos + (i + 1) * size)) as u64
}

/// Reading `count` integers of `size` bytes each at `pos`.
pub open spec fn ints_at(data: Seq<u8>, pos: int, size: u8, count: int) -> Parse<Seq<u64>> {
    if 0 <= pos && 0 <= count && pos + size * count <= data.len() {
        Ok(
            (
                Seq::new(count as nat, |i: int| int_in_table(data, pos, size as int, i)),
                pos + size * count,
            ),
        )
    } else {
        Err(ErrorKind::IoError(IoErrorKind::UnexpectedEof))
    }
}

/// Reads `count` integers of `size` bytes each.
pub fn sized_ints(input: &mut Reader, size: u8, count: usize) -> (r: Result<Vec<u64>, Error>)
    requires
        is_valid_size(size),
    ensures
        takes(
            old(input),
            final(input),
            ints_at(old(input).data(), old(input).position(), size, count as int),
            r,
        ),
{
    let ghost data = input.data();
    let ghost pos = input.position();
    let _ = input.len();
    let total = match (size as usize).checked_mul(count) {
        Some(total) => total,
        None => {
            return Err(Error::IoError(IoErrorKind::UnexpectedEof));
        },
    };
    let bytes = match input.read_exact(total) {
        Ok(bytes) => bytes,
        Err(e) => {
            return Err(e);
        },
    };
    let width = size as usize;
    let mut ints: Vec<u64> = Vec::new();
    let mut i: usize = 0;
    let mut at: usize = 0;
    while i < count
        invariant
            is_valid_size(size),
            width == size,
            total == size * count,
            bytes@ == data.subrange(pos, pos + total),
            0 <= pos,
            pos + total <= data.len(),
            i <= count,
            at == i * width,
            ints@.len() == i,
            forall|j: int| 0 <= j < i ==> ints@[j] == int_in_table(data, pos, size as int, j),
        decreases count - i,
    {
        assert((i + 1) * width <= count * width && (i + 1) * width == i * width + width)
            by (nonlinear_arith)
            requires
                i < count,
        ;
        let chunk = slice_subrange(bytes, at, at + width);
        proof {
            assert(chunk@.take(size as int) =~= data.subrange(
                pos + i * (size as int),
                pos + (i + 1) * (size as int),
            ));
            lemma_be_value_bound(chunk@.take(size as int));
        }
        ints.push(sized_int(chunk, size));
        i = i + 1;
        at = at + width;
    }
    proof {
        assert(ints@ =~= Seq::new(count as nat, |j: int| int_in_table(data, pos, size as int, j)));
    }
    Ok(ints)
}

/// Reading the trailer, which is the last 26 bytes of the source, and the
/// table of offsets that it points to: the place of the root object in the
/// table, the size of the references between objects, and the offsets.
pub open spec fn trailer_at(data: Seq<u8>) -> Parse<(u64, u8, Seq<u64>)> {
    match bytes_at(data, data.len() - 26, 26) {
        Err(e) => Err(e),
        Ok((t, _)) => match checked_size(t[0]) {
            Err(e) => Err(e),
            Ok(offset_size) => match checked_size(t[1]) {
                Err(e) => Err(e),
                Ok(ref_size) => {
                    let count = be_value(t.subrange(2, 10));
                    let root = be_value(t.subrange(10, 18));
                    let table = be_value(t.subrange(18, 26));
                    match ints_at(data, table as int, offset_size, count as int) {
                        Err(e) => Err(e),
                        Ok((offsets, p)) => Ok(((root as u64, ref_size, offsets), p)),
                    }
                },
            },
        },
    }
}

/// Reads the trailer and the table of offsets that it points to. Gives the
/// place of the root object in the table, the size of the references between
/// objects, and the offsets.
pub fn trailer(input: &mut Reader) -> (r: Result<(u64, u8, Vec<u64>), Error>)
    ensures
        takes(old(input), final(input), trailer_at(old(input).data()), r),
        r matches Ok(t) ==> is_valid_size(t.1),
{
    let len = input.len();
    if len < 26 {
        return Err(Error::IoError(IoErrorKind::UnexpectedEof));
    }
    input.seek((len - 26) as u64);
    let t = match input.read_exact(26) {
        Ok(t) => t,
        Err(e) => {
            return Err(e);
        },
    };
    let offset_size = match validate_size(t[0]) {
        Ok(size) => size,
        Err(e) => {
            return Err(e);
        },
    };
    let ref_size = match validate_size(t[1]) {
        Ok(size) => size,
        Err(e) => {
            return Err(e);
        },
    };
    let count_bytes = slice_subrange(t, 2, 10);
    let root_bytes = slice_subrange(t, 10, 18);
    let table_bytes = slice_subrange(t, 18, 26);
    proof {
        assert(count_bytes@.take(8) =~= t@.subrange(2, 10));
        assert(root_bytes@.take(8) =~= t@.subrange(10, 18));
        assert(table_bytes@.take(8) =~= t@.subrange(18, 26));
    }
    let count = be_u64(count_bytes);
    let root = be_u64(root_bytes);
    let table = be_u64(table_bytes);
    if count > usize::MAX as u64 {
        proof {
            assert(offset_size * count >= count) by (nonlinear_arith)
                requires
                    offset_size >= 1,
                    count >= 0,
            ;
        }
        return Err(Error::IoError(IoErrorKind::UnexpectedEof));
    }
    input.seek(table);
    match sized_ints(input, offset_size, count as usize) {
        Ok(offsets) => Ok((root, ref_size, offsets)),
        Err(e) => Err(e),
    }
}

/// Reading a boolean at `pos`: one of the two bytes that stand for one.
pub open spec fn boolean_at(data: Seq<u8>, pos: int) -> Parse<Value> {
    match bytes_at(data, pos, 1) {
        Err(e) => Err(e),
        Ok((marker, p)) => if marker[0] == 0x08 {
            Ok((Value::Boolean(false), p))
        } else if marker[0] == 0x09 {
            Ok((Value::Boolean(true), p))
        } else {
            Err(ErrorKind::InvalidBoolean)
        },
    }
}

/// Reads a boolean: one of the two bytes that stand for one.
pub fn boolean(input: &mut Reader) -> (r: Result<Plist, Error>)
    ensures
        takes(old(input), final(input), boolean_at(old(input).data(), old(input).position()), r),
{
    let marker = match input.read_exact(1) {
        Ok(marker) => marker[0],
        Err(e) => {
            return Err(e);
        },
    };
    if marker == 0x08 {
        Ok(Plist::Boolean(false))
    } else if marker == 0x09 {
        Ok(Plist::Boolean(true))
    } else {
        Err(Error::InvalidBoolean)
    }
}

/// The number that 64 bits stand for where the first of them is a sign.
pub open spec fn signed(bits: u64) -> i64 {
    if bits < 0x8000_0000_0000_0000 {
        bits as i64
    } else {
        (bits - 0x1_0000_0000_0000_0000) as i64
    }
}

/// Reading an integer at `pos`: the byte with its kind, and behind it a
/// number of 64 bits where the first of them is a sign.
pub open spec fn integer_at(data: Seq<u8>, pos: int) -> Parse<Value> {
    match int_at(data, pos + 1) {
        Err(e) => Err(e),
        Ok((bits, p)) => Ok((Value::Integer(signed(bits)), p)),
    }
}

/// Reads an integer: the byte with its kind, and behind it a number of 64
/// bits where the first of them is a sign.
pub fn integer(input: &mut Reader) -> (r: Result<Plist, Error>)
    ensures
        takes(old(input), final(input), integer_at(old(input).data(), old(input).position()), r),
{
    let _ = input.len();
    match input.read_exact(1) {
        Ok(_) => {},
        Err(e) => {
            return Err(e);
        },
    }
    match read_int(input) {
        Ok(bits) => {
            let value: i64 = if bits < 0x8000_0000_0000_0000 {
                bits as i64
            } else {
                (bits - 0x8000_0000_0000_0000) as i64 + i64::MIN
            };
            Ok(Plist::Integer(value))
        },
        Err(e) => Err(e),
    }
}

/// Reading a real at `pos`: a sized value of 4 or 8 bytes, which are the bits
/// of a single or of a double.
pub open spec fn real_at(data: Seq<u8>, pos: int) -> Parse<Value> {
    match sized_at(data, pos) {
        Err(e) => Err(e),
        Ok(((bytes, size), p)) => if size == 4 {
            Ok((Value::Real(RealView::Bits(double_of_single(be_value(bytes) as u32))), p))
        } else if size == 8 {
            Ok((Value::Real(RealView::Bits(be_value(bytes) as u64)), p))
        } else {
            Err(ErrorKind::InvalidIntegerSize)
        },
    }
}

/// Reads a real: a sized value of 4 or 8 bytes, which are the bits of a
/// single or of a double.
pub fn real_number(input: &mut Reader) -> (r: Result<Plist, Error>)
    ensures
        takes(old(input), final(input), real_at(old(input).data(), old(input).position()), r),
{
    match read_sized(input) {
        Ok((bytes, size)) => {
            proof {
                assert(bytes@.take(size as int) =~= bytes@);
            }
            if size == 4 {
                Ok(Plist::Real(Real::Bits(widen(be_u32(bytes)))))
            } else if size == 8 {
                Ok(Plist::Real(Real::Bits(be_u64(bytes))))
            } else {
                Err(Error::InvalidIntegerSize)
            }
        },
        Err(e) => Err(e),
    }
}

/// The instant that lies as many seconds from 2001-01-01T00:00:00Z as the
/// double with these bits counts, after it or, with the sign of a negative
/// number, before it: its whole part as seconds and what it has behind the
/// point as nanoseconds. What is no number counts nothing. The first day of
/// 2001 began 978,307,200 seconds after the Unix epoch.
pub open spec fn reference_date(bits: u64) -> Date {
    let whole = whole_part(bits) + nanos_part(bits) / 1_000_000_000;
    let nanos = nanos_part(bits) % 1_000_000_000;
    if sign_of(bits) == 0 {
        Date { secs: (978_307_200 + whole) as i128, nanos: nanos as u32 }
    } else if nanos == 0 {
        Date { secs: (978_307_200 - whole) as i128, nanos: 0 }
    } else {
        Date { secs: (978_307_200 - whole - 1) as i128, nanos: (1_000_000_000 - nanos) as u32 }
    }
}

/// The instant that lies as many seconds from 2001-01-01T00:00:00Z as the
/// double with these bits counts.
pub fn date_of(bits: u64) -> (r: Date)
    ensures
        r == reference_date(bits),
{
    let (seconds, fraction) = seconds_of(bits);
    let whole = seconds as i128 + (fraction / 1_000_000_000) as i128;
    let nanos = fraction % 1_000_000_000;
    proof {
        assert(bits / 0x8000_0000_0000_0000 <= 1) by (bit_vector);
    }
    if !is_negative(bits) {
        Date { secs: 978_307_200 + whole, nanos }
    } else if nanos == 0 {
        Date { secs: 978_307_200 - whole, nanos: 0 }
    } else {
        Date { secs: 978_307_200 - whole - 1, nanos: 1_000_000_000 - nanos }
    }
}

/// Reading a date at `pos`: the byte with its kind, and behind it the eight
/// bytes of a double that counts the seconds since the first day of 2001.
pub open spec fn date_at(data: Seq<u8>, pos: int) -> Parse<Value> {
    match bytes_at(data, pos, 9) {
        Err(e) => Err(e),
        Ok((bytes, p)) => Ok(
            (Value::DateTime(reference_date(be_value(bytes.subrange(1, 9)) as u64)), p),
        ),
    }
}

/// Reads a date: the byte with its kind, and behind it the eight bytes of a
/// double that counts the seconds since the first day of 2001.
pub fn date(input: &mut Reader) -> (r: Result<Plist, Error>)
    ensures
        takes(old(input), final(input), date_at(old(input).data(), old(input).position()), r),
{
    match input.read_exact(9) {
        Ok(bytes) => {
            let payload = slice_subrange(bytes, 1, 9);
            proof {
                assert(payload@.take(8) =~= bytes@.subrange(1, 9));
            }
            Ok(Plist::DateTime(date_of(be_u64(payload))))
        },
        Err(e) => Err(e),
    }
}

/// Reading a count at `pos`, and then as many bytes as `unit` times the count.
pub open spec fn counted_at(data: Seq<u8>, pos: int, unit: int) -> Parse<Seq<u8>> {
    match int_at(data, pos) {
        Err(e) => Err(e),
        Ok((count, p)) => bytes_at(data, p, unit * count),
    }
}

/// Reads a count, and then as many bytes as `unit` times the count.
fn counted<'a>(input: &mut Reader<'a>, unit: u64) -> (r: Result<&'a [u8], Error>)
    requires
        unit == 1 || unit == 2,
    ensures
        takes(
            old(input),
            final(input),
            counted_at(old(input).data(), old(input).position(), unit as int),
            r,
        ),
{
    let count = match read_int(input) {
        Ok(count) => count,
        Err(e) => {
            return Err(e);
        },
    };
    let _ = input.len();
    if count > (usize::MAX as u64) / unit {
        return Err(Error::IoError(IoErrorKind::UnexpectedEof));
    }
    input.read_exact((count * unit) as usize)
}

/// Reading data at `pos`: a count, and then that many bytes.
pub open spec fn data_at(data: Seq<u8>, pos: int) -> Parse<Value> {
    match counted_at(data, pos, 1) {
        Err(e) => Err(e),
        Ok((bytes, p)) => Ok((Value::Data(bytes), p)),
    }
}

/// Reads data: a count, and then that many bytes.
pub fn data(input: &mut Reader) -> (r: Result<Plist, Error>)
    ensures
        takes(old(input), final(input), data_at(old(input).data(), old(input).position()), r),
{
    match counted(input, 1) {
        Ok(bytes) => Ok(Plist::Data(slice_to_vec(bytes))),
        Err(e) => Err(e),
    }
}

/// The text that bytes encode in UTF-8.
pub open spec fn string_of(bytes: Seq<u8>) -> Result<Value, ErrorKind> {
    if valid_utf8(bytes) {
        Ok(Value::String(decode_utf8(bytes)))
    } else {
        Err(ErrorKind::Utf8Error)
    }
}

/// Reading a string at `pos`: a count, and then that many bytes of UTF-8.
pub open spec fn string_at(data: Seq<u8>, pos: int) -> Parse<Value> {
    match counted_at(data, pos, 1) {
        Err(e) => Err(e),
        Ok((bytes, p)) => match string_of(bytes) {
            Ok(v) => Ok((v, p)),
            Err(e) => Err(e),
        },
    }
}

/// The string value that decoded bytes give, or the failure to decode them
/// with its cause.
pub fn string_from(decoded: Result<&str, std::str::Utf8Error>) -> (r: Result<Plist, Error>)
    ensures
        match decoded {
            Ok(text) => yields(r, Ok(Value::String(text@))),
            Err(cause) => r == Err::<Plist, Error>(Error::Utf8Error(cause)),
        },
{
    match decoded {
        Ok(text) => Ok(Plist::String(String::from_str(text))),
        Err(e) => Err(Error::Utf8Error(e)),
    }
}

/// Reads a string: a count, and then that many bytes of UTF-8.
pub fn string(input: &mut Reader) -> (r: Result<Plist, Error>)
    ensures
        takes(old(input), final(input), string_at(old(input).data(), old(input).position()), r),
{
    match counted(input, 1) {
        Ok(bytes) => string_from(text_from_utf8(bytes)),
        Err(e) => Err(e),
    }
}

/// The code units of 16 bits that bytes hold, each the more significant byte
/// first.
pub open spec fn units_of(bytes: Seq<u8>) -> Seq<u16> {
    Seq::new(bytes.len() / 2, |i: int| be_value(bytes.subrange(2 * i, 2 * i + 2)) as u16)
}

/// The string value that decoded code units give, or the failure to decode
/// them.
pub open spec fn utf16_string_of(units: Seq<u16>) -> Result<Value, ErrorKind> {
    match utf16_text(units) {
        Some(text) => Ok(Value::String(text)),
        None => Err(ErrorKind::Utf16Error),
    }
}

/// Reading a string of UTF-16 at `pos`: a count, and then that many code
/// units of two bytes each.
pub open spec fn utf16_string_at(data: Seq<u8>, pos: int) -> Parse<Value> {
    match counted_at(data, pos, 2) {
        Err(e) => Err(e),
        Ok((bytes, p)) => match utf16_string_of(units_of(bytes)) {
            Ok(v) => Ok((v, p)),
            Err(e) => Err(e),
        },
    }
}

/// The string value that decoded code units give, or the failure to decode
/// them with its cause.
pub fn utf16_string_from(decoded: Result<String, std::string::FromUtf16Error>) -> (r: Result<
    Plist,
    Error,
>)
    ensures
        match decoded {
            Ok(text) => yields(r, Ok(Value::String(text@))),
            Err(cause) => r == Err::<Plist, Error>(Error::Utf16Error(cause)),
        },
{
    match decoded {
        Ok(text) => Ok(Plist::String(text)),
        Err(e) => Err(Error::Utf16Error(e)),
    }
}

/// Reads a string of UTF-16: a count, and then that many code units of two
/// bytes each.
pub fn utf16_string(input: &mut Reader) -> (r: Result<Plist, Error>)
    ensures
        takes(
            old(input),
            final(input),
            utf16_string_at(old(input).data(), old(input).position()),
            r,
        ),
{
    let bytes = match counted(input, 2) {
        Ok(bytes) => bytes,
        Err(e) => {
            return Err(e);
        },
    };
    let count = bytes.len() / 2;
    let mut units: Vec<u16> = Vec::new();
    let mut i: usize = 0;
    while i < count
        invariant
            count == bytes@.len() / 2,
            bytes@.len() <= usize::MAX,
            i <= count,
            units@.len() == i,
            forall|j: int| 0 <= j < i ==> units@[j] == units_of(bytes@)[j],
        decreases count - i,
    {
        let pair = slice_subrange(bytes, 2 * i, 2 * i + 2);
        proof {
            assert(pair@.take(2) =~= bytes@.subrange(2 * i, 2 * i + 2));
        }
        units.push(be_u16(pair));
        i = i + 1;
    }
    proof {
        assert(units@ =~= units_of(bytes@));
    }
    utf16_string_from(text_from_utf16(units.as_slice()))
}

/// What a document is laid out by: its bytes, the size of the references
/// between its objects, and the offset of each object.
pub ghost struct Layout {
    pub data: Seq<u8>,
    pub ref_size: u8,
    pub offsets: Seq<u64>,
}

/// The value that a read gives, without the position after it.
pub open spec fn value_of(read: Parse<Value>) -> Result<Value, ErrorKind> {
    match read {
        Ok((v, _)) => Ok(v),
        Err(e) => Err(e),
    }
}

/// The object at the place `obj` of the table of offsets; `path` holds the
/// places of the arrays and dictionaries that are being read around it. A
/// place behind the end of the table is an invalid reference, and a place on
/// the path is a cyclic one: the object would contain itself. A path without
/// repetition is shorter than the table. The upper half of the byte at the
/// offset of the object is its kind.
pub open spec fn object_at(layout: Layout, obj: u64, path: Seq<u64>) -> Result<Value, ErrorKind>
    decreases layout.offsets.len() - path.len(), 0int, 0int,
{
    if obj >= layout.offsets.len() {
        Err(ErrorKind::InvalidObjectReference)
    } else if path.contains(obj) || path.len() >= layout.offsets.len() {
        Err(ErrorKind::CyclicReference)
    } else {
        let at = layout.offsets[obj as int] as int;
        match bytes_at(layout.data, at, 1) {
            Err(e) => Err(e),
            Ok((tag, _)) => {
                let kind = tag[0] / 16;
                if kind == 0x0 {
                    value_of(boolean_at(layout.data, at))
                } else if kind == 0x1 {
                    value_of(integer_at(layout.data, at))
                } else if kind == 0x2 {
                    value_of(real_at(layout.data, at))
                } else if kind == 0x3 {
                    value_of(date_at(layout.data, at))
                } else if kind == 0x4 {
                    value_of(data_at(layout.data, at))
                } else if kind == 0x5 {
                    value_of(string_at(layout.data, at))
                } else if kind == 0x6 {
                    value_of(utf16_string_at(layout.data, at))
                } else if kind == 0xA {
                    array_at(layout, at, path.push(obj))
                } else if kind == 0xD {
                    dict_at(layout, at, path.push(obj))
                } else {
                    Err(ErrorKind::ObjectNotSupported(kind))
                }
            },
        }
    }
}

/// The objects at the places `refs[from..]`, one after the other, behind
/// those that are `done`.
pub open spec fn objects_at(
    layout: Layout,
    refs: Seq<u64>,
    from: int,
    done: Seq<Value>,
    path: Seq<u64>,
) -> Result<Seq<Value>, ErrorKind>
    decreases layout.offsets.len() - path.len(), 1int, refs.len() - from,
{
    if from < 0 || from >= refs.len() {
        Ok(done)
    } else {
        match object_at(layout, refs[from], path) {
            Err(e) => Err(e),
            Ok(v) => objects_at(layout, refs, from + 1, done.push(v), path),
        }
    }
}

/// The entries of a dictionary from the `from`-th on, behind those that are
/// `done`: for each the object at the place `keys[i]`, which must be a
/// string, and then the object at the place `values[i]`. A later entry takes
/// the place of an earlier one with the same key.
pub open spec fn entries_at(
    layout: Layout,
    keys: Seq<u64>,
    values: Seq<u64>,
    from: int,
    done: Map<Seq<char>, Value>,
    path: Seq<u64>,
) -> Result<Map<Seq<char>, Value>, ErrorKind>
    decreases layout.offsets.len() - path.len(), 1int, keys.len() - from,
{
    if from < 0 || from >= keys.len() || from >= values.len() {
        Ok(done)
    } else {
        match object_at(layout, keys[from], path) {
            Err(e) => Err(e),
            Ok(Value::String(key)) => match object_at(layout, values[from], path) {
                Err(e) => Err(e),
                Ok(v) => entries_at(layout, keys, values, from + 1, done.insert(key, v), path),
            },
            Ok(_) => Err(ErrorKind::InvalidKeyObject),
        }
    }
}

/// Reading an array at `pos`: a count, that many references, and the objects
/// that they refer to.
pub open spec fn array_at(layout: Layout, pos: int, path: Seq<u64>) -> Result<Value, ErrorKind>
    decreases layout.offsets.len() - path.len(), 2int, 0int,
{
    match int_at(layout.data, pos) {
        Err(e) => Err(e),
        Ok((count, p)) => match ints_at(layout.data, p, layout.ref_size, count as int) {
            Err(e) => Err(e),
            Ok((refs, _)) => match objects_at(layout, refs, 0, Seq::empty(), path) {
                Err(e) => Err(e),
                Ok(items) => Ok(Value::Array(items)),
            },
        },
    }
}

/// Reading a dictionary at `pos`: a count, that many references to keys,
/// that many references to values, and the objects that they refer to.
pub open spec fn dict_at(layout: Layout, pos: int, path: Seq<u64>) -> Result<Value, ErrorKind>
    decreases layout.offsets.len() - path.len(), 2int, 0int,
{
    match int_at(layout.data, pos) {
        Err(e) => Err(e),
        Ok((count, p)) => match ints_at(layout.data, p, layout.ref_size, count as int) {
            Err(e) => Err(e),
            Ok((keys, q)) => match ints_at(layout.data, q, layout.ref_size, count as int) {
                Err(e) => Err(e),
                Ok((values, _)) => match entries_at(layout, keys, values, 0, Map::empty(), path) {
                    Err(e) => Err(e),
                    Ok(entries) => Ok(Value::Dict(entries)),
                },
            },
        },
    }
}

/// The six bytes that a binary document begins with.
pub open spec fn magic() -> Seq<u8> {
    seq![0x62u8, 0x70u8, 0x6Cu8, 0x69u8, 0x73u8, 0x74u8]
}

/// The value of the binary document that `data` holds: the magic bytes, the
/// version `00`, and the root object that the trailer names. A trailer with
/// a size that no integer may have is refused for that size; a trailer that
/// cannot be read for another reason is an invalid trailer.
pub open spec fn binary_value(data: Seq<u8>) -> Result<Value, ErrorKind> {
    match bytes_at(data, 0, 6) {
        Err(e) => Err(e),
        Ok((m, _)) => if m != magic() {
            Err(ErrorKind::InvalidMagicBytes)
        } else {
            match bytes_at(data, 6, 2) {
                Err(e) => Err(e),
                Ok((version, _)) => if !valid_utf8(version) {
                    Err(ErrorKind::VersionNotSupported(None))
                } else if decode_utf8(version) != "00"@ {
                    Err(ErrorKind::VersionNotSupported(Some(decode_utf8(version))))
                } else {
                    match trailer_at(data) {
                        Err(ErrorKind::InvalidIntegerSize) => Err(ErrorKind::InvalidIntegerSize),
                        Err(_) => Err(ErrorKind::InvalidTrailer),
                        Ok(((root, ref_size, offsets), _)) => object_at(
                            Layout { data, ref_size, offsets },
                            root,
                            Seq::empty(),
                        ),
                    }
                },
            }
        },
    }
}

/// Whether `path` can be the places of the objects that are being read, one
/// in the other, in a table of `n` offsets: no place twice, and each in the
/// table.
pub open spec fn open_path(path: Seq<u64>, n: nat) -> bool {
    &&& path.no_duplicates()
    &&& forall|i: int| 0 <= i < path.len() ==> #[trigger] path[i] < n
}

/// The places below `n`.
pub open spec fn places(n: nat) -> Set<u64> {
    Set::new(|x: u64| x < n)
}

/// There are `n` places below `n`.
pub proof fn lemma_places(n: nat)
    requires
        n <= u64::MAX,
    ensures
        places(n).finite(),
        places(n).len() == n,
    decreases n,
{
    if n == 0 {
        assert(places(0) =~= Set::<u64>::empty());
    } else {
        lemma_places((n - 1) as nat);
        assert(places(n) =~= places((n - 1) as nat).insert((n - 1) as u64));
    }
}

/// A path with a place of the table left to enter is shorter than the table.
pub proof fn lemma_path_short(path: Seq<u64>, n: nat, obj: u64)
    requires
        n <= u64::MAX,
        open_path(path, n),
        obj < n,
        !path.contains(obj),
    ensures
        path.len() < n,
        open_path(path.push(obj), n),
{
    let longer = path.push(obj);
    assert(longer.no_duplicates()) by {
        assert forall|i: int, j: int|
            0 <= i < longer.len() && 0 <= j < longer.len() && i != j implies longer[i]
            != longer[j] by {
            if i < path.len() && j < path.len() {
                assert(path[i] != path[j]);
            } else if i < path.len() {
                assert(path.contains(path[i]));
            } else {
                assert(path.contains(path[j]));
            }
        }
    }
    longer.unique_seq_to_set();
    lemma_places(n);
    assert(longer.to_set().subset_of(places(n))) by {
        assert forall|x: u64| longer.to_set().contains(x) implies places(n).contains(x) by {
            let i = choose|i: int| 0 <= i < longer.len() && longer[i] == x;
            if i < path.len() {
                assert(path[i] < n);
            }
        }
    }
    lemma_len_subset(longer.to_set(), places(n));
}

/// Whether `obj` is on `path`.
fn on_path(path: &Vec<u64>, obj: u64) -> (r: bool)
    ensures
        r == path@.contains(obj),
{
    let mut i: usize = 0;
    while i < path.len()
        invariant
            i <= path.len(),
            forall|j: int| 0 <= j < i ==> path@[j] != obj,
        decreases path.len() - i,
    {
        if path[i] == obj {
            return true;
        }
        i = i + 1;
    }
    false
}

/// Reads an array: a count, that many references, and the objects that they
/// refer to.
pub fn array(input: &mut Reader, ref_size: u8, offsets: &Vec<u64>, path: &mut Vec<u64>) -> (r:
    Result<Plist, Error>)
    requires
        is_valid_size(ref_size),
        open_path(old(path)@, offsets@.len()),
    ensures
        final(input).data() == old(input).data(),
        final(path)@ == old(path)@,
        yields(
            r,
            array_at(
                Layout { data: old(input).data(), ref_size, offsets: offsets@ },
                old(input).position(),
                old(path)@,
            ),
        ),
    decreases offsets@.len() - old(path)@.len(), 2int, 0int,
{
    let ghost layout = Layout { data: input.data(), ref_size, offsets: offsets@ };
    let count = match read_int(input) {
        Ok(count) => count,
        Err(e) => {
            return Err(e);
        },
    };
    let _ = input.len();
    if count > usize::MAX as u64 {
        proof {
            assert(ref_size * count >= count) by (nonlinear_arith)
                requires
                    ref_size >= 1,
                    count >= 0,
            ;
        }
        return Err(Error::IoError(IoErrorKind::UnexpectedEof));
    }
    let refs = match sized_ints(input, ref_size, count as usize) {
        Ok(refs) => refs,
        Err(e) => {
            return Err(e);
        },
    };
    let mut items: Vec<Plist> = Vec::new();
    let mut i: usize = 0;
    proof {
        assert(values_of(items@) =~= Seq::<Value>::empty());
    }
    while i < refs.len()
        invariant
            is_valid_size(ref_size),
            layout == (Layout { data: old(input).data(), ref_size, offsets: offsets@ }),
            input.data() == layout.data,
            path@ == old(path)@,
            open_path(path@, offsets@.len()),
            i <= refs.len(),
            array_at(layout, old(input).position(), path@) == (match objects_at(
                layout,
                refs@,
                0,
                Seq::empty(),
                path@,
            ) {
                Err(e) => Err(e),
                Ok(items) => Ok(Value::Array(items)),
            }),
            objects_at(layout, refs@, 0, Seq::empty(), path@) == objects_at(
                layout,
                refs@,
                i as int,
                values_of(items@),
                path@,
            ),
        decreases refs.len() - i,
    {
        let ghost done = values_of(items@);
        match object(input, refs[i], ref_size, offsets, path) {
            Ok(o) => {
                items.push(o);
                proof {
                    assert(values_of(items@) =~= done.push(o@));
                }
            },
            Err(e) => {
                return Err(e);
            },
        }
        i = i + 1;
    }
    proof {
        lemma_array_view(items);
    }
    Ok(Plist::Array(items))
}

/// Reads a dictionary: a count, that many references to keys, that many
/// references to values, and the objects that they refer to. Each key must be
/// a string.
pub fn dict(input: &mut Reader, ref_size: u8, offsets: &Vec<u64>, path: &mut Vec<u64>) -> (r:
    Result<Plist, Error>)
    requires
        is_valid_size(ref_size),
        open_path(old(path)@, offsets@.len()),
    ensures
        final(input).data() == old(input).data(),
        final(path)@ == old(path)@,
        yields(
            r,
            dict_at(
                Layout { data: old(input).data(), ref_size, offsets: offsets@ },
                old(input).position(),
                old(path)@,
            ),
        ),
    decreases offsets@.len() - old(path)@.len(), 2int, 0int,
{
    let ghost layout = Layout { data: input.data(), ref_size, offsets: offsets@ };
    let count = match read_int(input) {
        Ok(count) => count,
        Err(e) => {
            return Err(e);
        },
    };
    let _ = input.len();
    if count > usize::MAX as u64 {
        proof {
            assert(ref_size * count >= count) by (nonlinear_arith)
                requires
                    ref_size >= 1,
                    count >= 0,
            ;
        }
        return Err(Error::IoError(IoErrorKind::UnexpectedEof));
    }
    let keys = match sized_ints(input, ref_size, count as usize) {
        Ok(keys) => keys,
        Err(e) => {
            return Err(e);
        },
    };
    let values = match sized_ints(input, ref_size, count as usize) {
        Ok(values) => values,
        Err(e) => {
            return Err(e);
        },
    };
    let mut entries = Dictionary::new();
    let mut i: usize = 0;
    while i < keys.len()
        invariant
            is_valid_size(ref_size),
            layout == (Layout { data: old(input).data(), ref_size, offsets: offsets@ }),
            input.data() == layout.data,
            path@ == old(path)@,
            open_path(path@, offsets@.len()),
            keys.len() == values.len(),
            i <= keys.len(),
            dict_at(layout, old(input).position(), path@) == (match entries_at(
                layout,
                keys@,
                values@,
                0,
                Map::empty(),
                path@,
            ) {
                Err(e) => Err(e),
                Ok(entries) => Ok(Value::Dict(entries)),
            }),
            entries_at(layout, keys@, values@, 0, Map::empty(), path@) == entries_at(
                layout,
                keys@,
                values@,
                i as int,
                entries@,
                path@,
            ),
        decreases keys.len() - i,
    {
        let key = match object(input, keys[i], ref_size, offsets, path) {
            Ok(Plist::String(key)) => key,
            Ok(_) => {
                return Err(Error::InvalidKeyObject);
            },
            Err(e) => {
                return Err(e);
            },
        };
        match object(input, values[i], ref_size, offsets, path) {
            Ok(value) => {
                entries.insert(key, value);
            },
            Err(e) => {
                return Err(e);
            },
        }
        i = i + 1;
    }
    Ok(Plist::Dict(entries))
}

/// Reads the object at the place `obj` of the table of offsets; `path` holds
/// the places of the arrays and dictionaries that are being read around it.
pub fn object(
    input: &mut Reader,
    obj: u64,
    ref_size: u8,
    offsets: &Vec<u64>,
    path: &mut Vec<u64>,
) -> (r: Result<Plist, Error>)
    requires
        is_valid_size(ref_size),
        open_path(old(path)@, offsets@.len()),
    ensures
        final(input).data() == old(input).data(),
        final(path)@ == old(path)@,
        yields(
            r,
            object_at(
                Layout { data: old(input).data(), ref_size, offsets: offsets@ },
                obj,
                old(path)@,
            ),
        ),
    decreases offsets@.len() - old(path)@.len(), 0int, 0int,
{
    if obj >= offsets.len() as u64 {
        return Err(Error::InvalidObjectReference);
    }
    if on_path(path, obj) {
        return Err(Error::CyclicReference);
    }
    proof {
        lemma_path_short(path@, offsets@.len(), obj);
    }
    let at = offsets[obj as usize];
    input.seek(at);
    let tag = match input.read_exact(1) {
        Ok(tag) => tag[0],
        Err(e) => {
            return Err(e);
        },
    };
    input.seek(at);
    let kind = tag >> 4;
    proof {
        assert(tag >> 4 == tag / 16) by (bit_vector);
    }
    if kind == 0x0 {
        boolean(input)
    } else if kind == 0x1 {
        integer(input)
    } else if kind == 0x2 {
        real_number(input)
    } else if kind == 0x3 {
        date(input)
    } else if kind == 0x4 {
        data(input)
    } else if kind == 0x5 {
        string(input)
    } else if kind == 0x6 {
        utf16_string(input)
    } else if kind == 0xA {
        let ghost before = path@;
        path.push(obj);
        let r = array(input, ref_size, offsets, path);
        let _ = path.pop();
        proof {
            assert(path@ =~= before);
        }
        r
    } else if kind == 0xD {
        let ghost before = path@;
        path.push(obj);
        let r = dict(input, ref_size, offsets, path);
        let _ = path.pop();
        proof {
            assert(path@ =~= before);
        }
        r
    } else {
        Err(Error::ObjectNotSupported(kind))
    }
}

/// Decodes a binary document: the magic bytes, the version `00`, and the
/// root object that the trailer names.
pub fn from_binary_reader(input: &mut Reader) -> (r: Result<Plist, Error>)
    ensures
        final(input).data() == old(input).data(),
        yields(r, binary_value(old(input).data())),
{
    input.seek(0);
    let m = match input.read_exact(6) {
        Ok(m) => m,
        Err(e) => {
            return Err(e);
        },
    };
    if !(m[0] == 0x62 && m[1] == 0x70 && m[2] == 0x6C && m[3] == 0x69 && m[4] == 0x73 && m[5]
        == 0x74) {
        return Err(Error::InvalidMagicBytes);
    }
    proof {
        assert(m@ =~= magic());
    }
    let version = match input.read_exact(2) {
        Ok(version) => version,
        Err(e) => {
            return Err(e);
        },
    };
    match text_from_utf8(version) {
        Ok(text) => {
            if !same_text(text, "00") {
                return Err(Error::VersionNotSupported(Some(String::from_str(text))));
            }
        },
        Err(_) => {
            return Err(Error::VersionNotSupported(None));
        },
    }
    match trailer(input) {
        Ok((root, ref_size, offsets)) => {
            let mut path: Vec<u64> = Vec::new();
            object(input, root, ref_size, &offsets, &mut path)
        },
        Err(Error::InvalidIntegerSize) => Err(Error::InvalidIntegerSize),
        Err(_) => Err(Error::InvalidTrailer),
    }
}

/// A trailer is refused for the size of its integers exactly where one of
/// its two size bytes is none of 1, 2, 4 and 8, wherever it lies and whatever
/// else it holds.
pub proof fn lemma_trailer_sizes(data: Seq<u8>)
    requires
        data.len() >= 26,
    ensures
        trailer_at(data) == Err::<((u64, u8, Seq<u64>), int), ErrorKind>(
            ErrorKind::InvalidIntegerSize,
        ) <==> !(is_valid_size(data[data.len() - 26]) && is_valid_size(data[data.len() - 25])),
{
}

/// An object of a kind that is none of the nine known ones is refused with
/// its kind, whatever its place, its path and the bytes behind its first.
pub proof fn lemma_unsupported_kind(layout: Layout, obj: u64, path: Seq<u64>)
    requires
        obj < layout.offsets.len(),
        !path.contains(obj),
        path.len() < layout.offsets.len(),
        layout.offsets[obj as int] < layout.data.len(),
        ({
            let kind = layout.data[layout.offsets[obj as int] as int] / 16;
            kind == 0x7 || kind == 0x8 || kind == 0x9 || kind == 0xB || kind == 0xC || kind == 0xE
                || kind == 0xF
        }),
    ensures
        object_at(layout, obj, path) == Err::<Value, ErrorKind>(
            ErrorKind::ObjectNotSupported(layout.data[layout.offsets[obj as int] as int] / 16),
        ),
{
}

/// A dictionary whose next key is an object that is no string is refused for
/// that key, whatever entries came before and whatever comes after.
pub proof fn lemma_key_must_be_string(
    layout: Layout,
    keys: Seq<u64>,
    values: Seq<u64>,
    from: int,
    done: Map<Seq<char>, Value>,
    path: Seq<u64>,
)
    requires
        0 <= from < keys.len(),
        from < values.len(),
        object_at(layout, keys[from], path) matches Ok(key) && !(key is String),
    ensures
        entries_at(layout, keys, values, from, done, path) == Err::<
            Map<Seq<char>, Value>,
            ErrorKind,
        >(ErrorKind::InvalidKeyObject),
{
}

/// Every number of 64 bits with a sign is read back from the bits that stand
/// for it.
pub proof fn lemma_signed_round_trip(v: i64)
    ensures
        v >= 0 ==> signed(v as u64) == v,
        v < 0 ==> signed((v + 0x1_0000_0000_0000_0000) as u64) == v,
{
}

/// Every number of 64 bits with a sign is read back from an integer object
/// that holds it in eight bytes: the byte with the kind, a marker with the
/// low half 15, a marker with the low half 3, and the eight bytes of the
/// number, which count 2 to the power of 64 more than it where it is
/// negative.
pub proof fn lemma_wide_integer(data: Seq<u8>, pos: int, v: i64)
    requires
        0 <= pos,
        pos + 11 <= data.len(),
        data[pos + 1] % 16 == 15,
        data[pos + 2] % 16 == 3,
        be_value(data.subrange(pos + 3, pos + 11)) == if v >= 0 {
            v as int
        } else {
            v + 0x1_0000_0000_0000_0000
        },
    ensures
        integer_at(data, pos) == Ok::<(Value, int), ErrorKind>((Value::Integer(v), pos + 11)),
{
    lemma_signed_round_trip(v);
    assert(data.subrange(pos + 1, pos + 2)[0] == data[pos + 1]);
    assert(data.subrange(pos + 2, pos + 3)[0] == data[pos + 2]);
}

/// The bytes of the version `00`.
pub proof fn lemma_version_bytes(version: Seq<u8>)
    requires
        valid_utf8(version),
        decode_utf8(version) == "00"@,
    ensures
        version == seq![0x30u8, 0x30u8],
{
    reveal_strlit("00");
    let text = decode_utf8(version);
    assert(text =~= seq!['0', '0']);
    decode_utf8_encode_utf8(version);
    assert(is_ascii_chars(text));
    is_ascii_chars_encode_utf8(text);
    assert(version =~= seq![0x30u8, 0x30u8]);
}

/// A binary document is refused for the size of its integers exactly where
/// it has its header, room for a trailer, and a trailer with a size byte that
/// is none of 1, 2, 4 and 8, whatever else it holds.
pub proof fn lemma_document_sizes(data: Seq<u8>)
    requires
        data.len() >= 26,
        data.subrange(0, 6) == magic(),
        valid_utf8(data.subrange(6, 8)),
        decode_utf8(data.subrange(6, 8)) == "00"@,
        !(is_valid_size(data[data.len() - 26]) && is_valid_size(data[data.len() - 25])),
    ensures
        binary_value(data) == Err::<Value, ErrorKind>(ErrorKind::InvalidIntegerSize),
{
    lemma_trailer_sizes(data);
}

/// A source with the header of a binary document and no room behind it for
/// both an object and a trailer has no trailer to go by: where it is shorter
/// than a trailer, the trailer is invalid, and where it is not, the trailer
/// begins within the header, whose bytes are no sizes.
pub proof fn lemma_no_room_for_a_trailer(data: Seq<u8>)
    requires
        8 <= data.len() < 34,
        data.subrange(0, 6) == magic(),
        valid_utf8(data.subrange(6, 8)),
        decode_utf8(data.subrange(6, 8)) == "00"@,
    ensures
        binary_value(data) == if data.len() < 26 {
            Err::<Value, ErrorKind>(ErrorKind::InvalidTrailer)
        } else {
            Err::<Value, ErrorKind>(ErrorKind::InvalidIntegerSize)
        },
{
    lemma_version_bytes(data.subrange(6, 8));
    if data.len() >= 26 {
        let at = data.len() - 26;
        let first = data[at];
        assert(at < 8);
        assert(first == if at < 6 {
            data.subrange(0, 6)[at]
        } else {
            data.subrange(6, 8)[at - 6]
        });
        assert(!is_valid_size(first));
        assert(data.subrange(at, at + 26)[0] == first);
    }
}

/// A source that ends within the header of a binary document cannot be read.
pub proof fn lemma_no_room_for_a_header(data: Seq<u8>)
    requires
        data.len() < 8,
        data.len() >= 6 ==> data.subrange(0, 6) == magic(),
    ensures
        binary_value(data) == Err::<Value, ErrorKind>(
            ErrorKind::IoError(IoErrorKind::UnexpectedEof),
        ),
{
}

} // verus!
