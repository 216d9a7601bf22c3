//! The byte source that the readers work on, and the readers of the two
//! encodings.

use vstd::prelude::*;
use vstd::slice::slice_subrange;
use crate::error::{yields, Error, ErrorKind, IoErrorKind, Parse};
use crate::plist::{Plist, Value};
use vstd::utf8::{decode_utf8, valid_utf8};
use crate::reader::binary::{binary_value, from_binary_reader, magic, trailer_at};
use crate::reader::xml::{from_xml_reader, markup_value};

pub mod binary;
pub mod xml;

verus! {

/// A byte source held in memory, with the position of the next read.
pub struct Reader<'a> {
    data: &'a [u8],
    pos: u64,
}

/// Reading `n` bytes at `pos`: those bytes and the position after them, where
/// the source holds that many.
pub open spec fn bytes_at(data: Seq<u8>, pos: int, n: int) -> Parse<Seq<u8>> {
    if 0 <= pos && 0 <= n && pos + n <= data.len() {
        Ok((data.subrange(pos, pos + n), pos + n))
    } else {
        Err(ErrorKind::IoError(IoErrorKind::UnexpectedEof))
    }
}

/// The bytes of a source from `pos` on.
pub open spec fn rest_of(data: Seq<u8>, pos: int) -> Seq<u8> {
    if 0 <= pos <= data.len() {
        data.skip(pos)
    } else {
        Seq::empty()
    }
}

/// Whether a read that took `before` to `after` and returned `r` did what
/// `expected` says: on success the value and the position, on failure the
/// failure. The bytes of a source never change.
pub open spec fn takes<T: View>(
    before: &Reader,
    after: &Reader,
    expected: Parse<T::V>,
    r: Result<T, Error>,
) -> bool {
    &&& after.data() == before.data()
    &&& match expected {
        Ok((v, p)) => r matches Ok(x) && x@ == v && after.position() == p,
        Err(e) => r matches Err(x) && x.kind() == e,
    }
}

impl<'a> Reader<'a> {
    /// All the bytes of the source.
    pub closed spec fn data(&self) -> Seq<u8> {
        self.data@
    }

    /// The position of the next read, counted from the first byte. It may lie
    /// behind the last byte.
    pub closed spec fn position(&self) -> int {
        self.pos as int
    }

    /// A source that holds `data` and stands at its first byte.
    pub fn new(data: &'a [u8]) -> (r: Reader<'a>)
        ensures
            r.data() == data@,
            r.position() == 0,
    {
        Reader { data, pos: 0 }
    }

    /// The number of bytes that the source holds.
    pub fn len(&self) -> (n: usize)
        ensures
            n == self.data().len(),
            0 <= self.position() <= u64::MAX,
    {
        self.data.len()
    }

    /// The position of the next read.
    pub fn tell(&self) -> (pos: u64)
        ensures
            pos == self.position(),
    {
        self.pos
    }

    /// Moves to the position `pos`.
    pub fn seek(&mut self, pos: u64)
        ensures
            final(self).data() == old(self).data(),
            final(self).position() == pos,
    {
        self.pos = pos;
    }

    /// Reads the next `n` bytes.
    pub fn read_exact(&mut self, n: usize) -> (r: Result<&'a [u8], Error>)
        ensures
            takes(
                old(self),
                final(self),
                bytes_at(old(self).data(), old(self).position(), n as int),
                r,
            ),
    {
        let len = self.data.len();
        if self.pos <= len as u64 && n <= len - self.pos as usize {
            let start = self.pos as usize;
            let bytes = slice_subrange(self.data, start, start + n);
            self.pos = self.pos + n as u64;
            Ok(bytes)
        } else {
            Err(Error::IoError(IoErrorKind::UnexpectedEof))
        }
    }

    /// Reads all the bytes that are left.
    pub fn read_to_end(&mut self) -> (r: &'a [u8])
        ensures
            final(self).data() == old(self).data(),
            r@ == rest_of(old(self).data(), old(self).position()),
    {
        let len = self.data.len();
        let start = if self.pos <= len as u64 {
            self.pos as usize
        } else {
            len
        };
        let bytes = slice_subrange(self.data, start, len);
        if self.pos <= len as u64 {
            self.pos = len as u64;
        }
        assert(bytes@ =~= rest_of(old(self).data(), old(self).position()));
        bytes
    }
}

/// The value of the document that `data` holds: that of the binary
/// document, and where the magic bytes of one are not there, that of the
/// markup document. Any other failure of the binary reader stands.
pub open spec fn document_value(data: Seq<u8>) -> Result<Value, ErrorKind> {
    match binary_value(data) {
        Err(ErrorKind::InvalidMagicBytes) => markup_value(data),
        r => r,
    }
}

/// A source is read as markup exactly where it holds six bytes or more and
/// does not begin with the magic bytes of a binary document. Any other
/// outcome of the binary reader is final: a source with those magic bytes is
/// never read as markup, whatever its trailer holds.
pub proof fn lemma_dispatch(data: Seq<u8>)
    ensures
        data.len() >= 6 && data.subrange(0, 6) != magic() ==> document_value(data)
            == markup_value(data),
        data.len() < 6 ==> document_value(data) == Err::<Value, ErrorKind>(
            ErrorKind::IoError(IoErrorKind::UnexpectedEof),
        ),
        binary_value(data) != Err::<Value, ErrorKind>(ErrorKind::InvalidMagicBytes)
            ==> document_value(data) == binary_value(data),
{
}

/// A source with the magic bytes and the version of a binary document and a
/// trailer that cannot be read is refused for its trailer: for the size of
/// its integers where that is what is wrong with it, and as invalid where
/// not. It is not read as markup.
pub proof fn lemma_corrupt_trailer(data: Seq<u8>)
    requires
        data.len() >= 8,
        data.subrange(0, 6) == magic(),
        valid_utf8(data.subrange(6, 8)),
        decode_utf8(data.subrange(6, 8)) == "00"@,
        trailer_at(data) is Err,
    ensures
        document_value(data) == if trailer_at(data)->Err_0 == ErrorKind::InvalidIntegerSize {
            Err::<Value, ErrorKind>(ErrorKind::InvalidIntegerSize)
        } else {
            Err::<Value, ErrorKind>(ErrorKind::InvalidTrailer)
        },
{
}

/// Decodes a binary document, or a markup document where the source does not
/// begin with the magic bytes of a binary one.
pub fn from_reader(input: &mut Reader) -> (r: Result<Plist, Error>)
    ensures
        final(input).data() == old(input).data(),
        yields(r, document_value(old(input).data())),
{
    match from_binary_reader(input) {
        Ok(p) => Ok(p),
        Err(Error::InvalidMagicBytes) => {
            input.seek(0);
            proof {
                assert(rest_of(input.data(), 0) =~= input.data());
            }
            from_xml_reader(input)
        },
        Err(e) => Err(e),
    }
}

} // verus!
