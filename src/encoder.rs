//! Byte cursors: a writer that overwrites or appends at an offset, and a bounds-checked reader.
use std::collections::HashMap;
use vstd::prelude::*;
use vstd::string::StringSliceAdditionalSpecFns;
use vstd::utf8::valid_utf8;

use vstd::slice::slice_to_vec;
use vstd::utf8::{decode_utf8, encode_utf8_decode_utf8, valid_utf8_concat};

use crate::bits::{pack_fields, unpack_fields, BitDecoder, BitEncoder};
use crate::error::Error;
use crate::name::{parse_name, DOT};

verus! {

broadcast use vstd::std_specs::hash::group_hash_axioms;

/// `buf` with the bytes from `off` on replaced by `b`; where `b` runs past the end of `buf`,
/// the buffer grows.
pub open spec fn overwrite(buf: Seq<u8>, off: int, b: Seq<u8>) -> Seq<u8> {
    if off + b.len() <= buf.len() {
        buf.subrange(0, off) + b + buf.subrange(off + b.len(), buf.len() as int)
    } else {
        buf.subrange(0, off) + b
    }
}

/// The two bytes of `v`, most significant first.
pub open spec fn be16(v: u16) -> Seq<u8> {
    seq![(v / 256) as u8, (v % 256) as u8]
}

/// The four bytes of `v`, most significant first.
pub open spec fn be32(v: u32) -> Seq<u8> {
    seq![
        (v / 0x100_0000) as u8,
        ((v / 0x1_0000) % 256) as u8,
        ((v / 256) % 256) as u8,
        (v % 256) as u8,
    ]
}

/// The number that two bytes give, most significant first.
pub open spec fn from_be16(b: Seq<u8>) -> u16 {
    (b[0] * 256 + b[1]) as u16
}

/// The number that four bytes give, most significant first.
pub open spec fn from_be32(b: Seq<u8>) -> u32 {
    (b[0] * 0x100_0000 + b[1] * 0x1_0000 + b[2] * 256 + b[3]) as u32
}

/// Reading `len` bytes at `offset` of `buf`: the bytes, or the out-of-bounds error.
pub open spec fn slice_outcome(buf: Seq<u8>, offset: int, len: int) -> Result<Seq<u8>, Error> {
    if offset + len > buf.len() {
        Err(
            Error::Read {
                offset: offset as usize,
                read_len: len as usize,
                buf_len: buf.len() as usize,
            },
        )
    } else {
        Ok(buf.subrange(offset, offset + len))
    }
}

/// Writing `a` and then `b` right after it is writing `a + b`.
pub proof fn lemma_overwrite_concat(buf: Seq<u8>, off: int, a: Seq<u8>, b: Seq<u8>)
    requires
        0 <= off <= buf.len(),
    ensures
        overwrite(overwrite(buf, off, a), off + a.len(), b) == overwrite(buf, off, a + b),
{
    let mid = overwrite(buf, off, a);
    assert(mid.len() >= off + a.len());
    assert(mid.subrange(0, off + a.len()) =~= buf.subrange(0, off) + a);
    if off + a.len() + b.len() <= buf.len() {
        assert(mid.subrange(off + a.len() + b.len(), mid.len() as int) =~= buf.subrange(
            off + a.len() + b.len(),
            buf.len() as int,
        ));
    }
    assert(overwrite(mid, off + a.len(), b) =~= overwrite(buf, off, a + b));
}

/// Writing nothing leaves the buffer as it was.
pub proof fn lemma_overwrite_empty(buf: Seq<u8>, off: int)
    requires
        0 <= off <= buf.len(),
    ensures
        overwrite(buf, off, Seq::empty()) == buf,
{
    assert(overwrite(buf, off, Seq::empty()) =~= buf);
}

/// Two bytes written most significant first read back as the same number.
pub proof fn lemma_be16_round_trip(v: u16)
    ensures
        from_be16(be16(v)) == v,
{
}

/// Four bytes written most significant first read back as the same number.
pub proof fn lemma_be32_round_trip(v: u32)
    ensures
        from_be32(be32(v)) == v,
{
}

/// Relies on std::str::from_utf8: it accepts exactly the byte strings that are valid UTF-8,
/// and hands back the same bytes as text.
#[verifier::external_body]
fn utf8_text<'b>(b: &'b [u8]) -> (r: Option<&'b str>)
    ensures
        r is Some <==> valid_utf8(b@),
        r matches Some(s) ==> s.spec_bytes() == b@,
{
    std::str::from_utf8(b).ok()
}

proof fn lemma_dot_is_utf8()
    ensures
        valid_utf8(seq![DOT]),
{
    reveal_with_fuel(valid_utf8, 2);
    assert(seq![DOT].subrange(1, 1) =~= Seq::<u8>::empty());
}

/// A writer over a caller's buffer: each write replaces the bytes from `offset` on, and
/// appends where it runs past the end.
pub struct Encoder<'a> {
    /// Where the next write starts.
    pub offset: usize,
    /// The buffer written to.
    pub buf: &'a mut Vec<u8>,
}

impl<'a> Encoder<'a> {
    /// The offset lies within the buffer or at its end.
    pub open spec fn wf(&self) -> bool {
        self.offset <= self.buf@.len()
    }

    /// The bytes of the buffer.
    pub open spec fn bytes(&self) -> Seq<u8> {
        self.buf@
    }

    /// `self` is `before` after writing `b` at its offset.
    pub open spec fn wrote(&self, before: &Self, b: Seq<u8>) -> bool {
        &&& self.wf()
        &&& self.bytes() == overwrite(before.bytes(), before.offset as int, b)
        &&& self.offset == before.offset + b.len()
    }

    /// A writer at the start of `buf`.
    pub fn new(buf: &'a mut Vec<u8>) -> (r: Self)
        ensures
            r.wf(),
            r.offset == 0,
            r.bytes() == old(buf)@,
            *final(r.buf) == *final(buf),
    {
        Encoder { offset: 0, buf }
    }

    /// Moves the writer to `pos`; a position past the end fills the gap with zero bytes.
    pub fn set_offset(&mut self, pos: usize)
        requires
            old(self).wf(),
        ensures
            final(self).wf(),
            final(self).offset == pos,
            final(self).bytes() == if pos > old(self).bytes().len() {
                old(self).bytes() + Seq::new(
                    (pos - old(self).bytes().len()) as nat,
                    |i: int| 0u8,
                )
            } else {
                old(self).bytes()
            },
            *final(final(self).buf) == *final(old(self).buf),
    {
        if pos > self.buf.len() {
            self.buf.resize(pos, 0);
            assert(self.buf@ =~= old(self).buf@ + Seq::new(
                (pos - old(self).buf@.len()) as nat,
                |i: int| 0u8,
            ));
        }
        self.offset = pos;
    }

    /// Where the next write starts.
    pub fn offset(&self) -> (r: usize)
        ensures
            r == self.offset,
    {
        self.offset
    }

    /// Writes the bytes of `b` at the offset and moves past them.
    pub fn write_slice(&mut self, b: &[u8])
        requires
            old(self).wf(),
            old(self).offset + b@.len() <= usize::MAX,
        ensures
            final(self).wrote(old(self), b@),
            *final(final(self).buf) == *final(old(self).buf),
    {
        let mut i: usize = 0;
        assert(overwrite(old(self).bytes(), old(self).offset as int, b@.subrange(0, 0))
            =~= old(self).bytes());
        while i < b.len()
            invariant
                0 <= i <= b@.len(),
                old(self).wf(),
                old(self).offset + b@.len() <= usize::MAX,
                self.wrote(old(self), b@.subrange(0, i as int)),
                *final(self.buf) == *final(old(self).buf),
            decreases b@.len() - i,
        {
            proof {
                lemma_overwrite_concat(
                    old(self).bytes(),
                    old(self).offset as int,
                    b@.subrange(0, i as int),
                    seq![b@[i as int]],
                );
                assert(b@.subrange(0, i as int) + seq![b@[i as int]] =~= b@.subrange(
                    0,
                    i + 1 as int,
                ));
            }
            self.write_u8(b[i]);
            i = i + 1;
        }
        assert(b@.subrange(0, i as int) =~= b@);
    }

    /// Writes one byte at the offset and moves past it.
    pub fn write_u8(&mut self, b: u8)
        requires
            old(self).wf(),
            old(self).offset < usize::MAX,
        ensures
            final(self).wrote(old(self), seq![b]),
            *final(final(self).buf) == *final(old(self).buf),
    {
        if self.offset < self.buf.len() {
            self.buf.set(self.offset, b);
        } else {
            self.buf.push(b);
        }
        self.offset = self.offset + 1;
        assert(self.buf@ =~= overwrite(old(self).bytes(), old(self).offset as int, seq![b]));
    }

    /// Writes the UTF-8 bytes of `s` at the offset and moves past them.
    pub fn write_str(&mut self, s: &str)
        requires
            old(self).wf(),
            old(self).offset + s.spec_bytes().len() <= usize::MAX,
        ensures
            final(self).wrote(old(self), s.spec_bytes()),
            *final(final(self).buf) == *final(old(self).buf),
    {
        self.write_slice(s.as_bytes())
    }

    /// Writes `v` as two bytes, most significant first.
    pub fn write_u16(&mut self, v: u16)
        requires
            old(self).wf(),
            old(self).offset + 2 <= usize::MAX,
        ensures
            final(self).wrote(old(self), be16(v)),
            *final(final(self).buf) == *final(old(self).buf),
    {
        let hi: u8 = (v / 256) as u8;
        let lo: u8 = (v % 256) as u8;
        self.write_u8(hi);
        self.write_u8(lo);
        proof {
            lemma_overwrite_concat(old(self).bytes(), old(self).offset as int, seq![hi], seq![lo]);
            assert(seq![hi] + seq![lo] =~= be16(v));
        }
    }

    /// Writes `v` as four bytes, most significant first.
    pub fn write_u32(&mut self, v: u32)
        requires
            old(self).wf(),
            old(self).offset + 4 <= usize::MAX,
        ensures
            final(self).wrote(old(self), be32(v)),
            *final(final(self).buf) == *final(old(self).buf),
    {
        let b0: u8 = (v / 0x100_0000) as u8;
        let b1: u8 = ((v / 0x1_0000) % 256) as u8;
        let b2: u8 = ((v / 256) % 256) as u8;
        let b3: u8 = (v % 256) as u8;
        let ghost start = old(self).offset as int;
        let ghost orig = old(self).bytes();
        self.write_u8(b0);
        self.write_u8(b1);
        proof {
            lemma_overwrite_concat(orig, start, seq![b0], seq![b1]);
        }
        self.write_u8(b2);
        proof {
            lemma_overwrite_concat(orig, start, seq![b0] + seq![b1], seq![b2]);
        }
        self.write_u8(b3);
        proof {
            lemma_overwrite_concat(orig, start, seq![b0] + seq![b1] + seq![b2], seq![b3]);
            assert(seq![b0] + seq![b1] + seq![b2] + seq![b3] =~= be32(v));
        }
    }

    /// Packs the `(value, width)` fields into one byte, most significant bit first, and
    /// writes that byte; nothing is written when a field is refused.
    pub fn write_bits(&mut self, fields: &[(u8, u8)]) -> (r: Result<(), Error>)
        requires
            old(self).wf(),
            old(self).offset < usize::MAX,
        ensures
            *final(final(self).buf) == *final(old(self).buf),
            match pack_fields(0, 0, fields@) {
                Ok((byte, _)) => r is Ok && final(self).wrote(old(self), seq![byte]),
                Err(e) => r == Err::<(), Error>(e) && final(self).bytes() == old(self).bytes()
                    && final(self).offset == old(self).offset,
            },
    {
        let mut byte: u8 = 0;
        let mut off: u8 = 0;
        let mut i: usize = 0;
        assert(fields@.skip(0) =~= fields@);
        while i < fields.len()
            invariant
                0 <= i <= fields@.len(),
                pack_fields(0, 0, fields@) == pack_fields(byte, off, fields@.skip(i as int)),
            decreases fields@.len() - i,
        {
            let (value, width) = fields[i];
            assert(fields@.skip(i as int).drop_first() =~= fields@.skip(i + 1 as int));
            let mut bits = BitEncoder { data: &mut byte, offset: off };
            let res = bits.write(value, width);
            off = bits.offset;
            match res {
                Ok(()) => {},
                Err(e) => {
                    return Err(e);
                },
            }
            i = i + 1;
        }
        assert(fields@.skip(i as int) =~= Seq::<(u8, u8)>::empty());
        self.write_u8(byte);
        Ok(())
    }
}

/// A reader over a byte buffer. It remembers, by offset, the text of every name suffix it
/// has decoded, so that a later compressed name can point back to it.
pub struct Decoder<'a> {
    buf: &'a [u8],
    offset: usize,
    labels: HashMap<usize, Vec<u8>>,
}

impl<'a> Decoder<'a> {
    /// The bytes being read.
    pub closed spec fn bytes(&self) -> Seq<u8> {
        self.buf@
    }

    /// Where the next read starts.
    pub closed spec fn pos(&self) -> usize {
        self.offset
    }

    /// The remembered name texts, by the offset at which each was read.
    pub closed spec fn table(&self) -> Map<usize, Seq<u8>> {
        Map::new(|k: usize| self.labels@.contains_key(k), |k: usize| self.labels@[k]@)
    }

    /// Every remembered text is valid UTF-8.
    pub open spec fn wf(&self) -> bool {
        forall|k: usize| #[trigger] self.table().contains_key(k) ==> valid_utf8(self.table()[k])
    }

    /// A reader at the start of `buf` that remembers nothing yet.
    pub fn new(buf: &'a [u8]) -> (r: Self)
        ensures
            r.bytes() == buf@,
            r.pos() == 0,
            r.table() == Map::<usize, Seq<u8>>::empty(),
            r.wf(),
    {
        let r = Decoder { buf, offset: 0, labels: HashMap::new() };
        assert(r.table() =~= Map::<usize, Seq<u8>>::empty());
        r
    }

    /// Where the next read starts.
    pub fn offset(&self) -> (r: usize)
        ensures
            r == self.pos(),
    {
        self.offset
    }

    /// Moves the reader to `offset`.
    pub fn set_offset(&mut self, offset: usize)
        ensures
            final(self).pos() == offset,
            final(self).bytes() == old(self).bytes(),
            final(self).table() == old(self).table(),
    {
        self.offset = offset
    }

    /// Reads the next `len` bytes.
    pub fn read_slice(&mut self, len: usize) -> (r: Result<&'a [u8], Error>)
        ensures
            final(self).bytes() == old(self).bytes(),
            final(self).table() == old(self).table(),
            match slice_outcome(old(self).bytes(), old(self).pos() as int, len as int) {
                Ok(s) => r matches Ok(b) && b@ == s && final(self).pos() == old(self).pos() + len,
                Err(e) => r == Err::<&[u8], Error>(e) && final(self).pos() == old(self).pos(),
            },
    {
        if self.offset > self.buf.len() || len > self.buf.len() - self.offset {
            return Err(
                Error::Read { offset: self.offset, read_len: len, buf_len: self.buf.len() },
            );
        }
        let res = &self.buf[self.offset..self.offset + len];
        self.offset = self.offset + len;
        Ok(res)
    }

    /// Reads one byte.
    pub fn read_u8(&mut self) -> (r: Result<u8, Error>)
        ensures
            final(self).bytes() == old(self).bytes(),
            final(self).table() == old(self).table(),
            match slice_outcome(old(self).bytes(), old(self).pos() as int, 1) {
                Ok(s) => r == Ok::<u8, Error>(s[0]) && final(self).pos() == old(self).pos() + 1,
                Err(e) => r == Err::<u8, Error>(e) && final(self).pos() == old(self).pos(),
            },
    {
        let b = self.read_slice(1)?;
        Ok(b[0])
    }

    /// Reads two bytes as a number, most significant first.
    pub fn read_u16(&mut self) -> (r: Result<u16, Error>)
        ensures
            final(self).bytes() == old(self).bytes(),
            final(self).table() == old(self).table(),
            match slice_outcome(old(self).bytes(), old(self).pos() as int, 2) {
                Ok(s) => r == Ok::<u16, Error>(from_be16(s)) && final(self).pos() == old(self).pos()
                    + 2,
                Err(e) => r == Err::<u16, Error>(e) && final(self).pos() == old(self).pos(),
            },
    {
        let b = self.read_slice(2)?;
        Ok((b[0] as u16) * 256 + (b[1] as u16))
    }

    /// Reads four bytes as a number, most significant first.
    pub fn read_u32(&mut self) -> (r: Result<u32, Error>)
        ensures
            final(self).bytes() == old(self).bytes(),
            final(self).table() == old(self).table(),
            match slice_outcome(old(self).bytes(), old(self).pos() as int, 4) {
                Ok(s) => r == Ok::<u32, Error>(from_be32(s)) && final(self).pos() == old(self).pos()
                    + 4,
                Err(e) => r == Err::<u32, Error>(e) && final(self).pos() == old(self).pos(),
            },
    {
        let b = self.read_slice(4)?;
        Ok((b[0] as u32) * 0x100_0000 + (b[1] as u32) * 0x1_0000 + (b[2] as u32) * 256 + (
        b[3] as u32))
    }

    /// Reads one byte and unpacks fields of the given widths from it, most significant bit
    /// first.
    pub fn read_bits(&mut self, widths: &[u8]) -> (r: Result<Vec<u8>, Error>)
        ensures
            final(self).bytes() == old(self).bytes(),
            final(self).table() == old(self).table(),
            match slice_outcome(old(self).bytes(), old(self).pos() as int, 1) {
                Ok(s) => final(self).pos() == old(self).pos() + 1 && match unpack_fields(
                    s[0],
                    0,
                    widths@,
                ) {
                    Ok(vs) => r matches Ok(v) && v@ == vs,
                    Err(e) => r == Err::<Vec<u8>, Error>(e),
                },
                Err(e) => r == Err::<Vec<u8>, Error>(e) && final(self).pos() == old(self).pos(),
            },
    {
        let b = self.read_slice(1)?;
        let byte: u8 = b[0];
        let mut bits = BitDecoder::new(&byte);
        let mut out: Vec<u8> = Vec::new();
        let mut i: usize = 0;
        assert(widths@.skip(0) =~= widths@);
        assert(forall|vs: Seq<u8>| out@ + vs == vs) by {
            assert forall|vs: Seq<u8>| out@ + vs == vs by {
                assert(out@ + vs =~= vs);
            }
        }
        while i < widths.len()
            invariant
                0 <= i <= widths@.len(),
                self.bytes() == old(self).bytes(),
                self.table() == old(self).table(),
                self.pos() == old(self).pos() + 1,
                slice_outcome(old(self).bytes(), old(self).pos() as int, 1) matches Ok(s) && s[0]
                    == byte,
                *bits.data == byte,
                bits.offset <= 8,
                unpack_fields(byte, 0, widths@) == match unpack_fields(
                    byte,
                    bits.offset,
                    widths@.skip(i as int),
                ) {
                    Ok(vs) => Ok(out@ + vs),
                    Err(e) => Err::<Seq<u8>, Error>(e),
                },
            decreases widths@.len() - i,
        {
            assert(widths@.skip(i as int).drop_first() =~= widths@.skip(i + 1 as int));
            let v = bits.read(widths[i])?;
            let ghost before = out@;
            out.push(v);
            proof {
                assert forall|vs: Seq<u8>| before + (seq![v] + vs) == out@ + vs by {
                    assert(before + (seq![v] + vs) =~= out@ + vs);
                }
            }
            i = i + 1;
        }
        assert(widths@.skip(i as int) =~= Seq::<u8>::empty());
        assert(out@ + Seq::<u8>::empty() =~= out@);
        Ok(out)
    }

    /// Reads the name at the offset and returns its text as bytes, labels joined by dots.
    fn read_name_bytes(&mut self) -> (r: Result<Vec<u8>, Error>)
        requires
            old(self).wf(),
        ensures
            final(self).wf(),
            final(self).bytes() == old(self).bytes(),
            match parse_name(old(self).bytes(), old(self).pos() as int, old(self).table()) {
                Ok((text, end, t)) => r matches Ok(v) && v@ == text && valid_utf8(text)
                    && final(self).pos() == end && final(self).table() == t,
                Err(e) => r == Err::<Vec<u8>, Error>(e) && final(self).table() == old(self).table(),
            },
        decreases old(self).bytes().len() - old(self).pos(),
    {
        let at = self.offset;
        let len = self.read_u8()?;
        if len == 0 {
            proof {
                reveal_with_fuel(valid_utf8, 1);
            }
            return Ok(Vec::new());
        }
        if len >= 0xC0 {
            let low = self.read_u8()?;
            let target: usize = ((len - 0xC0) as usize) * 256 + low as usize;
            match self.labels.get(&target) {
                Some(t) => {
                    return Ok(slice_to_vec(t.as_slice()));
                },
                None => {
                    proof {
                        reveal_with_fuel(valid_utf8, 1);
                    }
                    return Ok(Vec::new());
                },
            }
        }
        let label = self.read_slice(len as usize)?;
        if utf8_text(label).is_none() {
            return Err(Error::DecodeUtf8);
        }
        let rest = self.read_name_bytes()?;
        let mut text: Vec<u8> = slice_to_vec(label);
        if rest.len() > 0 {
            proof {
                lemma_dot_is_utf8();
                valid_utf8_concat(label@, seq![DOT]);
                valid_utf8_concat(label@ + seq![DOT], rest@);
            }
            text.push(DOT);
            let mut i: usize = 0;
            while i < rest.len()
                invariant
                    0 <= i <= rest@.len(),
                    text@ == label@ + seq![DOT] + rest@.subrange(0, i as int),
                decreases rest@.len() - i,
            {
                text.push(rest[i]);
                i = i + 1;
                assert(text@ =~= label@ + seq![DOT] + rest@.subrange(0, i as int));
            }
            assert(rest@.subrange(0, i as int) =~= rest@);
        }
        let ghost rest_table = self.table();
        self.labels.insert(at, slice_to_vec(text.as_slice()));
        assert(self.table() =~= rest_table.insert(at, text@));
        Ok(text)
    }

    /// Reads the name at the offset, following a compression pointer where one ends it.
    pub fn read_name(&mut self) -> (r: Result<String, Error>)
        requires
            old(self).wf(),
        ensures
            final(self).wf(),
            final(self).bytes() == old(self).bytes(),
            match parse_name(old(self).bytes(), old(self).pos() as int, old(self).table()) {
                Ok((text, end, t)) => r matches Ok(s) && s@ == decode_utf8(text)
                    && final(self).pos() == end && final(self).table() == t,
                Err(e) => r == Err::<String, Error>(e) && final(self).table() == old(self).table(),
            },
    {
        let bytes = self.read_name_bytes()?;
        match utf8_text(bytes.as_slice()) {
            Some(s) => {
                proof {
                    encode_utf8_decode_utf8(s@);
                }
                Ok(s.to_owned())
            },
            None => Err(Error::DecodeUtf8),
        }
    }
}

} // verus!
